//! Documents as lists of blocks or paragraphs: read, brought together, divided,
//! searched and counted.

use crate::blocks::{
    docx_blocks, docx_links, docx_tags, extract_blocks_docx, extract_blocks_odt, extract_links_docx,
    extract_links_odt, extract_tables, make_para, odt_blocks, odt_links, odt_tags, para_block,
    tables_run, TableTags,
};
use crate::columns::positions_of;
use crate::container::{read_zip_entry, zip_entry};
use crate::deck::{add_count, haystack, in_64_bits, make_haystack, unsigned};
use crate::deep::{append_deep, push_deep, tabulate};
use crate::docfmt::{
    block_kind, block_plain_text, kind_of, plain_text, plain_texts, read_doc_text, text_paragraphs,
};
use crate::groups::{
    by_count, counts_view, cut, keys_are_ordered, lemma_place, ordered_keys, sorted_keys,
};
use crate::ordering::{
    comes_before, lemma_trimmed_away, occurs_in, text_less, texts_come_by_their_letters,
    without_case,
};
use crate::paths::{target_ext, wanted_ext};
use crate::reshape::occurrences;
use crate::sorting::{
    before, in_order, is_all_of, is_stable_sort, is_weak_order, lemma_stable_sort_exists, order_of,
    stable_order,
};
use crate::text::{
    char_is_alnum, char_is_space, chars_of, concat2, copy_text, find_from, find_text, is_alnum,
    is_space, join, join_texts, lines, lowercase, same, slice_text, text_lines, text_words,
    texts_are_found_first, to_lowercase, trim, trim_text, words,
};
use crate::value::{
    add_member, as_array, as_text, as_u64, copy_values, count_value, field, object, text_value,
    Json, Num, Number, Value,
};
use crate::xml::{extract_paragraphs, paragraphs, relationship_pairs, xml_items};
use vstd::prelude::*;

verus! {

// ── reading ─────────────────────────────────────────────────────────────────

pub open spec fn res_texts(r: Result<Vec<String>, String>) -> Result<Seq<Seq<char>>, Seq<char>> {
    match r {
        Ok(v) => Ok(v.deep_view()),
        Err(e) => Err(e@),
    }
}

pub open spec fn res_values(r: Result<Vec<Value>, String>) -> Result<Seq<Json>, Seq<char>> {
    match r {
        Ok(v) => Ok(v.deep_view()),
        Err(e) => Err(e@),
    }
}

/// Whether a format is read as plain text.
pub open spec fn is_flow_format(ext: Seq<char>) -> bool {
    ext == "html"@ || ext == "htm"@ || ext == "md"@ || ext == "markdown"@ || ext == "txt"@ || ext
        == "rtf"@
}

/// Whether a format is read as plain text.
pub fn flow_format(ext: &str) -> (r: bool)
    ensures
        r == is_flow_format(ext@),
{
    same(ext, "html") || same(ext, "htm") || same(ext, "md") || same(ext, "markdown") || same(
        ext,
        "txt",
    ) || same(ext, "rtf")
}

/// The part of an archive that holds the body of a document.
pub open spec fn body_part(ext: Seq<char>) -> Seq<char> {
    if ext == "docx"@ {
        "word/document.xml"@
    } else {
        "content.xml"@
    }
}

fn read_body(archive: &[u8], ext: &str) -> (r: Result<Vec<u8>, String>)
    ensures
        crate::container::res_bytes(r) == zip_entry(archive@, body_part(ext@)),
{
    if same(ext, "docx") {
        read_zip_entry(archive, "word/document.xml")
    } else {
        read_zip_entry(archive, "content.xml")
    }
}

/// The names of the elements that are paragraphs.
pub open spec fn paragraph_tags(ext: Seq<char>) -> Seq<Seq<char>> {
    if ext == "docx"@ {
        seq!["w:p"@]
    } else {
        seq!["text:p"@, "text:h"@]
    }
}

/// The paragraphs of a document: of the body of an archive, or of a text.
pub open spec fn document_paragraphs(archive: Seq<u8>, raw: Seq<char>, ext: Seq<char>) -> Result<
    Seq<Seq<char>>,
    Seq<char>,
> {
    if ext == "docx"@ || ext == "odt"@ {
        match zip_entry(archive, body_part(ext)) {
            Ok(xml) => Ok(paragraphs(xml_items(xml, true), paragraph_tags(ext))),
            Err(e) => Err(e),
        }
    } else if is_flow_format(ext) {
        Ok(text_paragraphs(raw, ext))
    } else {
        Err("unsupported document read format: "@ + ext)
    }
}

/// The paragraphs of a document; `archive` is looked at for docx and odt, `raw` for the
/// text formats.
pub fn op_doc_read(archive: &[u8], raw: &str, ext: &str) -> (r: Result<Vec<String>, String>)
    ensures
        res_texts(r) == document_paragraphs(archive@, raw@, ext@),
{
    if same(ext, "docx") || same(ext, "odt") {
        let xml = match read_body(archive, ext) {
            Ok(x) => x,
            Err(e) => {
                return Err(e);
            },
        };
        let mut tags: Vec<String> = Vec::new();
        if same(ext, "docx") {
            push_deep(&mut tags, copy_text("w:p"));
        } else {
            push_deep(&mut tags, copy_text("text:p"));
            push_deep(&mut tags, copy_text("text:h"));
        }
        assert(tags.deep_view() =~= paragraph_tags(ext@));
        Ok(extract_paragraphs(xml.as_slice(), &tags))
    } else if flow_format(ext) {
        Ok(read_doc_text(raw, ext))
    } else {
        Err(concat2("unsupported document read format: ", ext))
    }
}

/// The blocks of a docx or odt archive.
pub open spec fn archive_blocks(archive: Seq<u8>, ext: Seq<char>) -> Result<
    Seq<Json>,
    Seq<char>,
> {
    if ext == "docx"@ || ext == "odt"@ {
        match zip_entry(archive, body_part(ext)) {
            Ok(xml) => Ok(
                if ext == "docx"@ {
                    docx_blocks(xml_items(xml, true))
                } else {
                    odt_blocks(xml_items(xml, true))
                },
            ),
            Err(e) => Err(e),
        }
    } else {
        Err("unsupported document read format: "@ + ext)
    }
}

/// The headings, paragraphs and tables of a docx or odt, in the order of the document.
pub fn op_doc_blocks(archive: &[u8], ext: &str) -> (r: Result<Vec<Value>, String>)
    ensures
        res_values(r) == archive_blocks(archive@, ext@),
{
    if !same(ext, "docx") && !same(ext, "odt") {
        return Err(concat2("unsupported document read format: ", ext));
    }
    match read_body(archive, ext) {
        Ok(xml) => if same(ext, "docx") {
            Ok(extract_blocks_docx(xml.as_slice()))
        } else {
            Ok(extract_blocks_odt(xml.as_slice()))
        },
        Err(e) => Err(e),
    }
}

/// The tables of a docx or odt archive.
pub open spec fn archive_tables(archive: Seq<u8>, ext: Seq<char>) -> Result<
    Seq<Json>,
    Seq<char>,
> {
    if ext == "docx"@ || ext == "odt"@ {
        match zip_entry(archive, body_part(ext)) {
            Ok(xml) => Ok(
                tables_run(
                    xml_items(xml, true),
                    if ext == "docx"@ {
                        docx_tags()
                    } else {
                        odt_tags()
                    },
                    xml_items(xml, true).len(),
                ).out,
            ),
            Err(e) => Err(e),
        }
    } else {
        Err("unsupported document table format: "@ + ext)
    }
}

/// The tables of a docx or odt.
pub fn op_doc_tables(archive: &[u8], ext: &str) -> (r: Result<Vec<Value>, String>)
    ensures
        res_values(r) == archive_tables(archive@, ext@),
{
    if !same(ext, "docx") && !same(ext, "odt") {
        return Err(concat2("unsupported document table format: ", ext));
    }
    match read_body(archive, ext) {
        Ok(xml) => if same(ext, "docx") {
            Ok(extract_tables(xml.as_slice(), &TableTags::docx()))
        } else {
            Ok(extract_tables(xml.as_slice(), &TableTags::odt()))
        },
        Err(e) => Err(e),
    }
}

/// The hyperlinks of a docx or odt archive; a docx without relationships is read as one
/// with an empty part.
pub open spec fn archive_links(archive: Seq<u8>, ext: Seq<char>) -> Result<Seq<Json>, Seq<char>> {
    if ext == "docx"@ || ext == "odt"@ {
        match zip_entry(archive, body_part(ext)) {
            Ok(xml) => Ok(
                if ext == "docx"@ {
                    let rels = match zip_entry(archive, "word/_rels/document.xml.rels"@) {
                        Ok(x) => x,
                        Err(_) => Seq::empty(),
                    };
                    docx_links(
                        xml_items(xml, true),
                        relationship_pairs(xml_items(rels, true), xml_items(rels, true).len()),
                    )
                } else {
                    odt_links(xml_items(xml, true))
                },
            ),
            Err(e) => Err(e),
        }
    } else {
        Err("unsupported document link format: "@ + ext)
    }
}

/// The hyperlinks of a docx or odt.
pub fn op_doc_links(archive: &[u8], ext: &str) -> (r: Result<Vec<Value>, String>)
    ensures
        res_values(r) == archive_links(archive@, ext@),
{
    if !same(ext, "docx") && !same(ext, "odt") {
        return Err(concat2("unsupported document link format: ", ext));
    }
    match read_body(archive, ext) {
        Ok(xml) => if same(ext, "docx") {
            let rels: Vec<u8> = match read_zip_entry(archive, "word/_rels/document.xml.rels") {
                Ok(x) => x,
                Err(_) => {
                    let none: Vec<u8> = Vec::new();
                    assert(none@ =~= Seq::<u8>::empty());
                    none
                },
            };
            Ok(extract_links_docx(xml.as_slice(), rels.as_slice()))
        } else {
            Ok(extract_links_odt(xml.as_slice()))
        },
        Err(e) => Err(e),
    }
}

/// Paragraphs as blocks.
pub open spec fn para_blocks(paras: Seq<Seq<char>>) -> Seq<Json> {
    Seq::new(paras.len(), |i: int| para_block(paras[i]))
}

pub fn blocks_of_paras(paras: &Vec<String>) -> (r: Vec<Value>)
    ensures
        r.deep_view() == para_blocks(paras.deep_view()),
{
    let ghost pv = paras.deep_view();
    let make = |i: usize| -> (v: Value)
        requires
            i < paras@.len(),
        ensures
            v.deep_view() == para_block(paras@[i as int]@),
        { make_para(paras[i].as_str()) };
    let ghost g = |i: int| para_block(pv[i]);
    assert(pv.len() == paras@.len());
    assert forall|i: usize| i < paras@.len() implies pv[i as int] == (#[trigger] paras@[
        i as int
    ])@ by {}
    let out = tabulate(paras.len(), &make, Ghost(g));
    assert(out.deep_view() =~= para_blocks(pv));
    out
}

/// The lines among the first `n` that are not blank, as blocks.
pub open spec fn line_blocks(ls: Seq<Seq<char>>, n: nat) -> Seq<Json>
    decreases n,
{
    if n == 0 || n > ls.len() {
        Seq::empty()
    } else {
        let before = line_blocks(ls, (n - 1) as nat);
        if trim(ls[n - 1]).len() > 0 {
            before.push(para_block(ls[n - 1]))
        } else {
            before
        }
    }
}

/// The blocks of any document that can be read: those of a docx or odt, the lines of the
/// text of a pdf, the paragraphs of the others.
pub open spec fn document_blocks(archive: Seq<u8>, raw: Seq<char>, ext: Seq<char>) -> Result<
    Seq<Json>,
    Seq<char>,
> {
    if ext == "docx"@ || ext == "odt"@ {
        archive_blocks(archive, ext)
    } else if ext == "pdf"@ {
        Ok(line_blocks(lines(raw), lines(raw).len()))
    } else {
        match document_paragraphs(archive, raw, ext) {
            Ok(p) => Ok(para_blocks(p)),
            Err(e) => Err(e),
        }
    }
}

/// The blocks of any document that can be read; `raw` is the text of a text format or of
/// a pdf.
pub fn doc_blocks_or_paras(archive: &[u8], raw: &str, ext: &str) -> (r: Result<
    Vec<Value>,
    String,
>)
    ensures
        res_values(r) == document_blocks(archive@, raw@, ext@),
{
    if same(ext, "docx") || same(ext, "odt") {
        return op_doc_blocks(archive, ext);
    }
    if same(ext, "pdf") {
        let ls = text_lines(raw);
        let ghost lv = ls.deep_view();
        assert(lv.len() == ls@.len());
        let mut out: Vec<Value> = Vec::new();
        let mut i: usize = 0;
        assert(out.deep_view() =~= Seq::<Json>::empty());
        while i < ls.len()
            invariant
                i <= ls@.len(),
                lv == ls.deep_view(),
                out.deep_view() == line_blocks(lv, i as nat),
            decreases ls@.len() - i,
        {
            assert(lv[i as int] == ls@[i as int]@);
            if chars_of(trim_text(ls[i].as_str()).as_str()).len() > 0 {
                push_deep(&mut out, make_para(ls[i].as_str()));
            }
            i = i + 1;
        }
        return Ok(out);
    }
    match op_doc_read(archive, raw, ext) {
        Ok(p) => Ok(blocks_of_paras(&p)),
        Err(e) => Err(e),
    }
}

/// The paragraphs that are searched and counted: the lines of the text of a pdf, else the
/// paragraphs of the document.
pub open spec fn searched_paragraphs(archive: Seq<u8>, raw: Seq<char>, ext: Seq<char>) -> Result<
    Seq<Seq<char>>,
    Seq<char>,
> {
    if ext == "pdf"@ {
        Ok(lines(raw))
    } else {
        document_paragraphs(archive, raw, ext)
    }
}

pub fn read_searched(archive: &[u8], raw: &str, ext: &str) -> (r: Result<Vec<String>, String>)
    ensures
        res_texts(r) == searched_paragraphs(archive@, raw@, ext@),
{
    if same(ext, "pdf") {
        Ok(text_lines(raw))
    } else {
        op_doc_read(archive, raw, ext)
    }
}

/// The whole text of a document: that of a pdf as it is, else its paragraphs in lines.
pub open spec fn full_text(archive: Seq<u8>, raw: Seq<char>, ext: Seq<char>) -> Result<
    Seq<char>,
    Seq<char>,
> {
    if ext == "pdf"@ {
        Ok(raw)
    } else {
        match document_paragraphs(archive, raw, ext) {
            Ok(p) => Ok(join(p, "\n"@)),
            Err(e) => Err(e),
        }
    }
}

pub fn doc_full_text(archive: &[u8], raw: &str, ext: &str) -> (r: Result<String, String>)
    ensures
        crate::groups::res_text(r) == full_text(archive@, raw@, ext@),
{
    if same(ext, "pdf") {
        Ok(copy_text(raw))
    } else {
        match op_doc_read(archive, raw, ext) {
            Ok(p) => Ok(join_texts(&p, "\n")),
            Err(e) => Err(e),
        }
    }
}

// ── writing ─────────────────────────────────────────────────────────────────

/// The blocks that options hold.
pub open spec fn wanted_blocks(opts: Json) -> Result<Seq<Json>, Seq<char>> {
    match as_array(field(opts, "blocks"@)) {
        Some(b) => Ok(b),
        None => Err("missing blocks (expected array)"@),
    }
}

pub fn blocks_of(opts: &Value) -> (r: Result<Vec<Value>, String>)
    ensures
        res_values(r) == wanted_blocks(opts.deep_view()),
{
    match opts.array_at("blocks") {
        Some(b) => Ok(copy_values(b)),
        None => Err(copy_text("missing blocks (expected array)")),
    }
}

/// How a document is written.
#[derive(PartialEq, Eq, Structural, Clone, Copy)]
pub enum DocFormat {
    Docx,
    Odt,
    Html,
    Markdown,
    Rtf,
    Plain,
    Pdf,
}

pub open spec fn doc_format(ext: Seq<char>) -> Option<DocFormat> {
    if ext == "docx"@ {
        Some(DocFormat::Docx)
    } else if ext == "odt"@ {
        Some(DocFormat::Odt)
    } else if ext == "html"@ || ext == "htm"@ {
        Some(DocFormat::Html)
    } else if ext == "md"@ || ext == "markdown"@ {
        Some(DocFormat::Markdown)
    } else if ext == "rtf"@ {
        Some(DocFormat::Rtf)
    } else if ext == "txt"@ {
        Some(DocFormat::Plain)
    } else if ext == "pdf"@ {
        Some(DocFormat::Pdf)
    } else {
        None
    }
}

/// How a document is to be written.
pub fn op_doc_write(opts: &Value, path: &str) -> (r: Result<DocFormat, String>)
    ensures
        ({
            let ext = wanted_ext(opts.deep_view(), path@);
            match doc_format(ext) {
                Some(f) => r is Ok && r->Ok_0 == f,
                None => r is Err && r->Err_0@ == "unsupported document write format: "@ + ext,
            }
        }),
{
    let target = target_ext(opts, path);
    let ext = target.as_str();
    if same(ext, "docx") {
        Ok(DocFormat::Docx)
    } else if same(ext, "odt") {
        Ok(DocFormat::Odt)
    } else if same(ext, "html") || same(ext, "htm") {
        Ok(DocFormat::Html)
    } else if same(ext, "md") || same(ext, "markdown") {
        Ok(DocFormat::Markdown)
    } else if same(ext, "rtf") {
        Ok(DocFormat::Rtf)
    } else if same(ext, "txt") {
        Ok(DocFormat::Plain)
    } else if same(ext, "pdf") {
        Ok(DocFormat::Pdf)
    } else {
        Err(concat2("unsupported document write format: ", ext))
    }
}

/// How a presentation is to be written: `true` for pptx, `false` for odp.
pub fn op_slides_write(opts: &Value, path: &str) -> (r: Result<bool, String>)
    ensures
        ({
            let ext = wanted_ext(opts.deep_view(), path@);
            if ext == "odp"@ {
                r == Ok::<bool, String>(false)
            } else if ext == "pptx"@ {
                r == Ok::<bool, String>(true)
            } else {
                r is Err && r->Err_0@ == "unsupported presentation write format: "@ + ext
            }
        }),
{
    let target = target_ext(opts, path);
    let ext = target.as_str();
    if same(ext, "odp") {
        Ok(false)
    } else if same(ext, "pptx") {
        Ok(true)
    } else {
        Err(concat2("unsupported presentation write format: ", ext))
    }
}

/// The blocks as lines of plain text.
pub open spec fn plain_document(blocks: Seq<Json>) -> Seq<char> {
    join(plain_texts(blocks), "\n"@)
}

pub fn write_plain(blocks: &Vec<Value>) -> (r: String)
    ensures
        r@ == plain_document(blocks.deep_view()),
{
    let ghost bv = blocks.deep_view();
    let make = |i: usize| -> (t: String)
        requires
            i < blocks@.len(),
        ensures
            t@ == plain_text(blocks@[i as int].deep_view()),
        { block_plain_text(&blocks[i]) };
    let ghost g = |i: int| plain_text(bv[i]);
    assert(bv.len() == blocks@.len());
    assert forall|i: usize| i < blocks@.len() implies bv[i as int] == (#[trigger] blocks@[
        i as int
    ]).deep_view() by {}
    let parts = tabulate(blocks.len(), &make, Ghost(g));
    assert(parts.deep_view() =~= plain_texts(bv));
    join_texts(&parts, "\n")
}

/// The lines of the first `n` blocks: an empty one for a page break, and one more behind
/// a heading.
pub open spec fn flat_lines(blocks: Seq<Json>, n: nat) -> Seq<Seq<char>>
    decreases n,
{
    if n == 0 || n > blocks.len() {
        Seq::empty()
    } else {
        let before = flat_lines(blocks, (n - 1) as nat);
        let b = blocks[n - 1];
        if kind_of(b) == "pagebreak"@ {
            before.push(Seq::empty())
        } else if kind_of(b) == "heading"@ {
            before.push(plain_text(b)).push(Seq::empty())
        } else {
            before.push(plain_text(b))
        }
    }
}

/// The lines of blocks.
pub fn document_lines(blocks: &Vec<Value>) -> (r: Vec<String>)
    ensures
        r.deep_view() == flat_lines(blocks.deep_view(), blocks@.len()),
{
    let ghost bv = blocks.deep_view();
    let mut out: Vec<String> = Vec::new();
    let mut i: usize = 0;
    assert(out.deep_view() =~= Seq::<Seq<char>>::empty());
    while i < blocks.len()
        invariant
            i <= blocks@.len(),
            bv == blocks.deep_view(),
            out.deep_view() == flat_lines(bv, i as nat),
        decreases blocks@.len() - i,
    {
        assert(bv[i as int] == blocks@[i as int].deep_view());
        let none = String::new();
        assert(none@ =~= Seq::<char>::empty());
        if same(block_kind(&blocks[i]), "pagebreak") {
            push_deep(&mut out, none);
        } else {
            push_deep(&mut out, block_plain_text(&blocks[i]));
            if same(block_kind(&blocks[i]), "heading") {
                push_deep(&mut out, none);
            }
        }
        i = i + 1;
    }
    out
}

/// What a block becomes in an OpenDocument text: a heading of a level, or a paragraph.
pub enum OdtItem {
    Heading(u8, String),
    Paragraph(String),
}

/// The level of a heading in eight bits; 1 where none is given.
pub open spec fn level_byte(b: Json) -> u8 {
    match as_u64(field(b, "level"@)) {
        Some(l) => (l % 256) as u8,
        None => 1,
    }
}

pub fn write_odt(b: &Value) -> (r: OdtItem)
    ensures
        ({
            let bv = b.deep_view();
            if as_text(field(bv, "kind"@)) == Some("heading"@) {
                r is Heading && r->Heading_0 == level_byte(bv) && r->Heading_1@ == plain_text(bv)
            } else {
                r is Paragraph && r->Paragraph_0@ == plain_text(bv)
            }
        }),
{
    let text = block_plain_text(b);
    let heading = match b.text_at("kind") {
        Some(k) => same(k, "heading"),
        None => false,
    };
    if heading {
        let level: u8 = match b.u64_at("level") {
            Some(l) => (l % 256) as u8,
            None => 1,
        };
        OdtItem::Heading(level, text)
    } else {
        OdtItem::Paragraph(text)
    }
}

/// The lines that options ask to write as a pdf.
pub fn op_pdf_write(opts: &Value) -> (r: Result<Vec<String>, String>)
    ensures
        match as_array(field(opts.deep_view(), "lines"@)) {
            Some(a) => r is Ok && r->Ok_0.deep_view() == crate::workbook::item_texts(a),
            None => r is Err && r->Err_0@ == "missing lines (expected array of strings)"@,
        },
{
    match opts.array_at("lines") {
        Some(a) => Ok(crate::workbook::texts_of_items(a)),
        None => Err(copy_text("missing lines (expected array of strings)")),
    }
}

// ── outline ─────────────────────────────────────────────────────────────────

/// The entry of a heading in an outline: its level and its text.
pub open spec fn outline_entry(b: Json) -> Json {
    Json::Object(
        seq![
            (
                "level"@,
                unsigned(
                    match as_u64(field(b, "level"@)) {
                        Some(l) => l,
                        None => 1,
                    },
                ),
            ),
            (
                "text"@,
                Json::Text(
                    match as_text(field(b, "text"@)) {
                        Some(t) => t,
                        None => Seq::empty(),
                    },
                ),
            ),
        ],
    )
}

/// The headings among the first `n` blocks.
pub open spec fn outline(blocks: Seq<Json>, n: nat) -> Seq<Json>
    decreases n,
{
    if n == 0 || n > blocks.len() {
        Seq::empty()
    } else {
        let before = outline(blocks, (n - 1) as nat);
        let b = blocks[n - 1];
        if as_text(field(b, "kind"@)) == Some("heading"@) {
            before.push(outline_entry(b))
        } else {
            before
        }
    }
}

/// The headings of a document, with their levels.
pub fn op_doc_outline(blocks: &Vec<Value>) -> (r: Vec<Value>)
    ensures
        r.deep_view() == outline(blocks.deep_view(), blocks@.len()),
{
    let ghost bv = blocks.deep_view();
    let mut out: Vec<Value> = Vec::new();
    let mut i: usize = 0;
    assert(out.deep_view() =~= Seq::<Json>::empty());
    while i < blocks.len()
        invariant
            i <= blocks@.len(),
            bv == blocks.deep_view(),
            out.deep_view() == outline(bv, i as nat),
        decreases blocks@.len() - i,
    {
        let b = &blocks[i];
        assert(bv[i as int] == b.deep_view());
        let heading = match b.text_at("kind") {
            Some(k) => same(k, "heading"),
            None => false,
        };
        if heading {
            let level: u64 = match b.u64_at("level") {
                Some(l) => l,
                None => 1,
            };
            let text = match b.text_at("text") {
                Some(t) => copy_text(t),
                None => {
                    let none = String::new();
                    assert(none@ =~= Seq::<char>::empty());
                    none
                },
            };
            let mut o: Vec<(String, Value)> = Vec::new();
            add_member(&mut o, "level", Value::Number(Number::Unsigned(level)));
            add_member(&mut o, "text", Value::Text(text));
            assert(o.deep_view() =~= outline_entry(b.deep_view())->Object_0);
            push_deep(&mut out, object(o));
        }
        i = i + 1;
    }
    out
}

// ── bringing together and dividing ──────────────────────────────────────────

/// A page break.
pub open spec fn pagebreak() -> Json {
    Json::Object(seq![("kind"@, Json::Text("pagebreak"@))])
}

fn make_pagebreak() -> (r: Value)
    ensures
        r.deep_view() == pagebreak(),
{
    let mut o: Vec<(String, Value)> = Vec::new();
    add_member(&mut o, "kind", text_value("pagebreak"));
    assert(o.deep_view() =~= seq![("kind"@, Json::Text("pagebreak"@))]);
    object(o)
}

/// The blocks of the first `n` sources, with page breaks between them where asked for.
pub open spec fn merged_blocks(sources: Seq<Seq<Json>>, page_breaks: bool, n: nat) -> Seq<Json>
    decreases n,
{
    if n == 0 || n > sources.len() {
        Seq::empty()
    } else {
        let before = merged_blocks(sources, page_breaks, (n - 1) as nat);
        if n > 1 && page_breaks {
            before.push(pagebreak()) + sources[n - 1]
        } else {
            before + sources[n - 1]
        }
    }
}

/// Brings documents together.
pub fn op_doc_merge(sources: &Vec<Vec<Value>>, page_breaks: bool) -> (r: Vec<Value>)
    ensures
        r.deep_view() == merged_blocks(sources.deep_view(), page_breaks, sources@.len()),
{
    let ghost sv = sources.deep_view();
    let mut out: Vec<Value> = Vec::new();
    let mut i: usize = 0;
    assert(out.deep_view() =~= Seq::<Json>::empty());
    while i < sources.len()
        invariant
            i <= sources@.len(),
            sv == sources.deep_view(),
            out.deep_view() == merged_blocks(sv, page_breaks, i as nat),
        decreases sources@.len() - i,
    {
        assert(sv[i as int] == sources@[i as int].deep_view());
        if i > 0 && page_breaks {
            push_deep(&mut out, make_pagebreak());
        }
        append_deep(&mut out, copy_values(&sources[i]));
        i = i + 1;
    }
    out
}

/// Appends blocks to a document, behind a page break where asked for.
pub fn op_doc_append(blocks: Vec<Value>, add: &Vec<Value>, page_break: bool) -> (r: Vec<Value>)
    ensures
        r.deep_view() == (if page_break {
            blocks.deep_view().push(pagebreak()) + add.deep_view()
        } else {
            blocks.deep_view() + add.deep_view()
        }),
{
    let mut out = blocks;
    if page_break {
        push_deep(&mut out, make_pagebreak());
    }
    append_deep(&mut out, copy_values(add));
    out
}

/// Whether a section begins at a block: a heading of the level.
pub open spec fn begins_section(b: Json, level: u64) -> bool {
    as_text(field(b, "kind"@)) == Some("heading"@) && as_u64(field(b, "level"@)) == Some(level)
}

/// The sections of the first `n` blocks.
pub open spec fn sections(blocks: Seq<Json>, level: u64, n: nat) -> Seq<Seq<Json>>
    decreases n,
{
    if n == 0 || n > blocks.len() {
        Seq::empty()
    } else {
        let before = sections(blocks, level, (n - 1) as nat);
        if before.len() == 0 || begins_section(blocks[n - 1], level) {
            before.push(seq![blocks[n - 1]])
        } else {
            before.update(before.len() - 1, before.last().push(blocks[n - 1]))
        }
    }
}

/// Divides a document at the headings of a level; what comes before the first is a
/// section of its own.
pub fn op_doc_split(blocks: &Vec<Value>, level: u64) -> (r: Vec<Vec<Value>>)
    ensures
        r.deep_view() == sections(blocks.deep_view(), level, blocks@.len()),
{
    let ghost bv = blocks.deep_view();
    let mut out: Vec<Vec<Value>> = Vec::new();
    let mut i: usize = 0;
    assert(out.deep_view() =~= Seq::<Seq<Json>>::empty());
    while i < blocks.len()
        invariant
            i <= blocks@.len(),
            bv == blocks.deep_view(),
            out.deep_view() == sections(bv, level, i as nat),
        decreases blocks@.len() - i,
    {
        let b = &blocks[i];
        assert(bv[i as int] == b.deep_view());
        let heading = match b.text_at("kind") {
            Some(k) => same(k, "heading"),
            None => false,
        };
        let at_level = match b.u64_at("level") {
            Some(l) => l == level,
            None => false,
        };
        assert(out.deep_view().len() == out@.len());
        if out.len() == 0 || (heading && at_level) {
            let mut sec: Vec<Value> = Vec::new();
            push_deep(&mut sec, b.dup());
            assert(sec.deep_view() =~= seq![bv[i as int]]);
            push_deep(&mut out, sec);
        } else {
            let k: usize = out.len() - 1;
            assert(out.deep_view()[k as int] == out@[k as int].deep_view());
            let mut sec = copy_values(&out[k]);
            push_deep(&mut sec, b.dup());
            crate::grid::set_deep(&mut out, k, sec);
        }
        i = i + 1;
    }
    out
}

/// The blocks of sections, one section after the other.
pub open spec fn put_sections(s: Seq<Seq<Json>>, n: nat) -> Seq<Json>
    decreases n,
{
    if n == 0 || n > s.len() {
        Seq::empty()
    } else {
        put_sections(s, (n - 1) as nat) + s[n - 1]
    }
}

proof fn lemma_put_prefix(s: Seq<Seq<Json>>, t: Seq<Seq<Json>>, n: nat)
    requires
        n <= s.len(),
        n <= t.len(),
        forall|i: int| 0 <= i < n ==> s[i] == t[i],
    ensures
        put_sections(s, n) == put_sections(t, n),
    decreases n,
{
    if n > 0 {
        lemma_put_prefix(s, t, (n - 1) as nat);
    }
}

/// The sections of a document, put together, are its blocks again.
pub proof fn sections_lose_nothing(blocks: Seq<Json>, level: u64, n: nat)
    requires
        n <= blocks.len(),
    ensures
        put_sections(sections(blocks, level, n), sections(blocks, level, n).len()) == blocks.take(
            n as int,
        ),
    decreases n,
{
    let now = sections(blocks, level, n);
    if n == 0 {
        assert(put_sections(now, now.len()) =~= blocks.take(0));
    } else {
        sections_lose_nothing(blocks, level, (n - 1) as nat);
        let was = sections(blocks, level, (n - 1) as nat);
        let b = blocks[n - 1];
        if was.len() == 0 || begins_section(b, level) {
            lemma_put_prefix(now, was, was.len());
            assert(put_sections(now, now.len()) =~= blocks.take(n - 1) + seq![b]);
        } else {
            let k = (was.len() - 1) as nat;
            lemma_put_prefix(now, was, k);
            assert(put_sections(now, now.len()) =~= put_sections(was, was.len()).push(b));
        }
        assert(blocks.take(n as int) =~= blocks.take(n - 1).push(b));
    }
}

// ── searching ───────────────────────────────────────────────────────────────

/// A paragraph in which a query occurs: its number from 1, how often, the text that was
/// searched, and where in it the query first occurs.
pub struct ParaMatch {
    pub paragraph: u64,
    pub count: u64,
    pub hay: String,
    pub at: usize,
}

#[verifier::ext_equal]
pub struct ParaMatchView {
    pub paragraph: u64,
    pub count: u64,
    pub hay: Seq<char>,
    pub at: int,
}

impl DeepView for ParaMatch {
    type V = ParaMatchView;

    open spec fn deep_view(&self) -> ParaMatchView {
        ParaMatchView {
            paragraph: self.paragraph,
            count: self.count,
            hay: self.hay@,
            at: self.at as int,
        }
    }
}

/// How often a query occurs in a text; an empty one does before each character and at
/// the end.
pub open spec fn match_count(hay: Seq<char>, needle: Seq<char>) -> nat {
    if needle.len() == 0 {
        hay.len() + 1
    } else {
        occurrences(hay, needle, 0)
    }
}

/// The matches in the first `n` paragraphs.
pub open spec fn para_matches(paras: Seq<Seq<char>>, needle: Seq<char>, ic: bool, n: nat) -> Seq<
    ParaMatchView,
>
    decreases n,
{
    if n == 0 || n > paras.len() {
        Seq::empty()
    } else {
        let before = para_matches(paras, needle, ic, (n - 1) as nat);
        let hay = haystack(paras[n - 1], ic);
        match find_from(hay, needle, 0) {
            Some(p) => before.push(
                ParaMatchView {
                    paragraph: n as u64,
                    count: in_64_bits(match_count(hay, needle)),
                    hay,
                    at: p,
                },
            ),
            None => before,
        }
    }
}

/// How often a query occurs in the first `n` paragraphs.
pub open spec fn match_total(paras: Seq<Seq<char>>, needle: Seq<char>, ic: bool, n: nat) -> nat
    decreases n,
{
    if n == 0 || n > paras.len() {
        0
    } else {
        match_total(paras, needle, ic, (n - 1) as nat) + match_count(
            haystack(paras[n - 1], ic),
            needle,
        )
    }
}

fn count_occurrences(hay: &Vec<char>, needle: &Vec<char>) -> (r: u64)
    ensures
        r == in_64_bits(match_count(hay@, needle@)),
{
    if needle.len() == 0 {
        return (hay.len() as u64).wrapping_add(1);
    }
    let mut n: u64 = 0;
    let mut i: usize = 0;
    let total: usize = hay.len();
    let ghost all = occurrences(hay@, needle@, 0);
    loop
        invariant_except_break
            i <= total,
            total == hay@.len(),
            needle@.len() > 0,
            n <= i,
            n + occurrences(hay@, needle@, i as int) == all,
        ensures
            n == all,
        decreases total - i,
    {
        match find_text(hay, needle, i) {
            Some(p) => {
                assert(p + needle@.len() <= total);
                n = n + 1;
                i = p + needle.len();
            },
            None => {
                break;
            },
        }
    }
    n
}

/// The paragraphs in which a query occurs, and how often it does in all.
pub fn op_doc_find(paras: &Vec<String>, query: &str, ignore_case: bool) -> (r: (u64, Vec<ParaMatch>))
    ensures
        ({
            let needle = haystack(query@, ignore_case);
            &&& r.0 == in_64_bits(
                match_total(paras.deep_view(), needle, ignore_case, paras@.len()),
            )
            &&& r.1.deep_view() == para_matches(
                paras.deep_view(),
                needle,
                ignore_case,
                paras@.len(),
            )
        }),
{
    let ghost pv = paras.deep_view();
    let needle_text = make_haystack(query, ignore_case);
    let needle = chars_of(needle_text.as_str());
    let mut total: u64 = 0;
    let mut out: Vec<ParaMatch> = Vec::new();
    let mut i: usize = 0;
    assert(out.deep_view() =~= Seq::<ParaMatchView>::empty());
    while i < paras.len()
        invariant
            i <= paras@.len(),
            pv == paras.deep_view(),
            needle@ == haystack(query@, ignore_case),
            total == in_64_bits(match_total(pv, needle@, ignore_case, i as nat)),
            out.deep_view() == para_matches(pv, needle@, ignore_case, i as nat),
        decreases paras@.len() - i,
    {
        assert(pv[i as int] == paras@[i as int]@);
        let hay = make_haystack(paras[i].as_str(), ignore_case);
        let hs = chars_of(hay.as_str());
        let c = count_occurrences(&hs, &needle);
        total =
        add_count(
            total,
            c,
            Ghost(match_total(pv, needle@, ignore_case, i as nat)),
            Ghost(match_count(hs@, needle@)),
        );
        match find_text(&hs, &needle, 0) {
            Some(p) => {
                let m = ParaMatch { paragraph: i as u64 + 1, count: c, hay, at: p };
                let ghost mv = m.deep_view();
                push_deep(&mut out, m);
            },
            None => {},
        }
        i = i + 1;
    }
    (total, out)
}

// ── counting ────────────────────────────────────────────────────────────────

/// How many of the first `n` characters are no white space.
pub open spec fn solid_count(s: Seq<char>, n: nat) -> nat
    decreases n,
{
    if n == 0 || n > s.len() {
        0
    } else {
        solid_count(s, (n - 1) as nat) + if is_space(s[n - 1]) {
            0nat
        } else {
            1
        }
    }
}

/// How many of the first `n` paragraphs are not blank.
pub open spec fn filled_count(paras: Seq<Seq<char>>, n: nat) -> nat
    decreases n,
{
    if n == 0 || n > paras.len() {
        0
    } else {
        filled_count(paras, (n - 1) as nat) + if trim(paras[n - 1]).len() > 0 {
            1nat
        } else {
            0
        }
    }
}

/// The counts of a text: words, characters, characters but white space, lines and
/// paragraphs.
pub open spec fn text_counts(paras: Seq<Seq<char>>) -> Json {
    let text = join(paras, "\n"@);
    Json::Object(
        seq![
            ("words"@, unsigned(words(text).len() as u64)),
            ("characters"@, unsigned(text.len() as u64)),
            ("characters_no_spaces"@, unsigned(solid_count(text, text.len()) as u64)),
            ("lines"@, unsigned(lines(text).len() as u64)),
            ("paragraphs"@, unsigned(filled_count(paras, paras.len()) as u64)),
        ],
    )
}

/// The counts of a document; the number of pages is there where it is known.
pub fn op_doc_stats(paras: &Vec<String>, pages: Option<usize>) -> (r: Value)
    ensures
        r.deep_view() == match pages {
            None => text_counts(paras.deep_view()),
            Some(p) => Json::Object(
                text_counts(paras.deep_view())->Object_0.push(("pages"@, unsigned(p as u64))),
            ),
        },
{
    let ghost pv = paras.deep_view();
    assert(pv.len() == paras@.len());
    let text = join_texts(paras, "\n");
    let cs = chars_of(text.as_str());
    let total: usize = cs.len();
    let mut solid: usize = 0;
    let mut i: usize = 0;
    while i < total
        invariant
            i <= total,
            total == cs@.len(),
            solid <= i,
            solid == solid_count(cs@, i as nat),
        decreases total - i,
    {
        if !char_is_space(cs[i]) {
            solid = solid + 1;
        }
        i = i + 1;
    }
    let mut filled: usize = 0;
    let mut k: usize = 0;
    let n: usize = paras.len();
    while k < n
        invariant
            k <= n,
            n == paras@.len(),
            pv == paras.deep_view(),
            filled <= k,
            filled == filled_count(pv, k as nat),
        decreases n - k,
    {
        assert(pv[k as int] == paras@[k as int]@);
        if chars_of(trim_text(paras[k].as_str()).as_str()).len() > 0 {
            filled = filled + 1;
        }
        k = k + 1;
    }
    let ws = text_words(text.as_str());
    let ls = text_lines(text.as_str());
    assert(ws.deep_view().len() == ws@.len());
    assert(ls.deep_view().len() == ls@.len());
    let mut o: Vec<(String, Value)> = Vec::new();
    add_member(&mut o, "words", count_value(ws.len()));
    add_member(&mut o, "characters", count_value(total));
    add_member(&mut o, "characters_no_spaces", count_value(solid));
    add_member(&mut o, "lines", count_value(ls.len()));
    add_member(&mut o, "paragraphs", count_value(filled));
    assert(o.deep_view() =~= text_counts(pv)->Object_0);
    match pages {
        Some(p) => {
            add_member(&mut o, "pages", count_value(p));
        },
        None => {},
    }
    object(o)
}

/// The end of the run of letters and digits at `i`.
pub open spec fn token_end(s: Seq<char>, i: int) -> int
    decreases s.len() - i,
{
    if 0 <= i < s.len() && is_alnum(s[i]) {
        token_end(s, i + 1)
    } else {
        i
    }
}

/// The runs of letters and digits from `i` on.
pub open spec fn tokens_from(s: Seq<char>, i: int) -> Seq<Seq<char>>
    decreases s.len() - i,
{
    if i < 0 || i >= s.len() {
        Seq::empty()
    } else if is_alnum(s[i]) && i < token_end(s, i) <= s.len() {
        seq![s.subrange(i, token_end(s, i))] + tokens_from(s, token_end(s, i))
    } else {
        tokens_from(s, i + 1)
    }
}

proof fn lemma_token_end(s: Seq<char>, i: int)
    requires
        0 <= i <= s.len(),
    ensures
        i <= token_end(s, i) <= s.len(),
        i < s.len() && is_alnum(s[i]) ==> i < token_end(s, i),
    decreases s.len() - i,
{
    if i < s.len() && is_alnum(s[i]) {
        lemma_token_end(s, i + 1);
    }
}

fn tokens(text: &str) -> (r: Vec<String>)
    ensures
        r.deep_view() == tokens_from(text@, 0),
{
    let cs = chars_of(text);
    let total: usize = cs.len();
    let mut out: Vec<String> = Vec::new();
    let mut i: usize = 0;
    let ghost all = tokens_from(text@, 0);
    assert(out.deep_view() + all =~= all);
    while i < total
        invariant
            i <= total,
            total == cs@.len(),
            cs@ == text@,
            out.deep_view() + tokens_from(cs@, i as int) == all,
        decreases total - i,
    {
        let ghost before = out.deep_view();
        if char_is_alnum(cs[i]) {
            let mut e: usize = i;
            proof {
                lemma_token_end(cs@, i as int);
            }
            while e < total && char_is_alnum(cs[e])
                invariant
                    i <= e <= total,
                    total == cs@.len(),
                    token_end(cs@, i as int) == token_end(cs@, e as int),
                decreases total - e,
            {
                e = e + 1;
            }
            assert(e == token_end(cs@, i as int));
            push_deep(&mut out, slice_text(&cs, i, e));
            assert(out.deep_view() + tokens_from(cs@, e as int) =~= before + (seq![
                cs@.subrange(i as int, e as int),
            ] + tokens_from(cs@, e as int)));
            i = e;
        } else {
            i = i + 1;
        }
    }
    assert(out.deep_view() =~= all);
    out
}

/// Common English words.
pub open spec fn is_stopword(w: Seq<char>) -> bool {
    ||| w == "the"@
    ||| w == "a"@
    ||| w == "an"@
    ||| w == "and"@
    ||| w == "or"@
    ||| w == "but"@
    ||| w == "of"@
    ||| w == "to"@
    ||| w == "in"@
    ||| w == "on"@
    ||| w == "at"@
    ||| w == "for"@
    ||| w == "with"@
    ||| w == "is"@
    ||| w == "are"@
    ||| w == "was"@
    ||| w == "were"@
    ||| w == "be"@
    ||| w == "been"@
    ||| w == "by"@
    ||| w == "as"@
    ||| w == "that"@
    ||| w == "this"@
    ||| w == "it"@
    ||| w == "its"@
    ||| w == "from"@
    ||| w == "not"@
    ||| w == "no"@
    ||| w == "into"@
    ||| w == "than"@
    ||| w == "then"@
}

fn stopword(w: &str) -> (r: bool)
    ensures
        r == is_stopword(w@),
{
    same(w, "the") || same(w, "a") || same(w, "an") || same(w, "and") || same(w, "or") || same(
        w,
        "but",
    ) || same(w, "of") || same(w, "to") || same(w, "in") || same(w, "on") || same(w, "at") || same(
        w,
        "for",
    ) || same(w, "with") || same(w, "is") || same(w, "are") || same(w, "was") || same(w, "were")
        || same(w, "be") || same(w, "been") || same(w, "by") || same(w, "as") || same(w, "that")
        || same(w, "this") || same(w, "it") || same(w, "its") || same(w, "from") || same(w, "not")
        || same(w, "no") || same(w, "into") || same(w, "than") || same(w, "then")
}

/// The counted words among the first `n` tokens: those that are long enough and, where
/// asked for, no stopwords.
pub open spec fn counted_words(
    toks: Seq<Seq<char>>,
    min_len: u64,
    ic: bool,
    stop: bool,
    n: nat,
) -> Seq<Seq<char>>
    decreases n,
{
    if n == 0 || n > toks.len() {
        Seq::empty()
    } else {
        let before = counted_words(toks, min_len, ic, stop, (n - 1) as nat);
        let w = haystack(toks[n - 1], ic);
        if w.len() < min_len || (stop && is_stopword(lowercase(w))) {
            before
        } else {
            before.push(w)
        }
    }
}

/// The distinct words with their counts, in the order of the words.
pub open spec fn word_counts(ws: Seq<Seq<char>>) -> Seq<(Seq<char>, u64)> {
    let keys = sorted_keys(ws, ws.len());
    Seq::new(keys.len(), |i: int| (keys[i], positions_of(ws, keys[i], ws.len()).len() as u64))
}

/// The words of a text with their counts, the most frequent first and words of equal
/// count in their order.
pub open spec fn ranked_words(ws: Seq<Seq<char>>, top: u64) -> Seq<(Seq<char>, u64)> {
    let counts = word_counts(ws);
    cut(in_order(counts, by_count(counts)), Some(top))
}

fn count_word(ws: &Vec<String>, w: &str) -> (r: u64)
    ensures
        r == positions_of(ws.deep_view(), w@, ws@.len()).len(),
{
    let ghost wv = ws.deep_view();
    let total: usize = ws.len();
    let mut n: u64 = 0;
    let mut i: usize = 0;
    while i < total
        invariant
            i <= total,
            total == ws@.len(),
            wv == ws.deep_view(),
            n <= i,
            n == positions_of(wv, w@, i as nat).len(),
        decreases total - i,
    {
        assert(wv[i as int] == ws@[i as int]@);
        if same(ws[i].as_str(), w) {
            n = n + 1;
        }
        i = i + 1;
    }
    n
}

fn count_words(ws: &Vec<String>) -> (r: Vec<(String, u64)>)
    ensures
        counts_view(r@) == word_counts(ws.deep_view()),
{
    let ghost wv = ws.deep_view();
    assert(wv.len() == ws@.len());
    let keys = ordered_keys(ws);
    let ghost kv = keys.deep_view();
    let ghost all = word_counts(wv);
    let mut out: Vec<(String, u64)> = Vec::new();
    let mut i: usize = 0;
    while i < keys.len()
        invariant
            i <= keys@.len(),
            wv == ws.deep_view(),
            wv.len() == ws@.len(),
            kv == keys.deep_view(),
            kv == sorted_keys(wv, wv.len()),
            all == word_counts(wv),
            counts_view(out@) == all.take(i as int),
        decreases keys@.len() - i,
    {
        assert(kv[i as int] == keys@[i as int]@);
        let n = count_word(ws, keys[i].as_str());
        let ghost was = out@;
        out.push((keys[i].clone(), n));
        assert(counts_view(out@) =~= counts_view(was).push(all[i as int]));
        i = i + 1;
        assert(counts_view(out@) =~= all.take(i as int));
    }
    assert(kv.len() == keys@.len());
    assert(all.take(i as int) =~= all);
    out
}

/// The most frequent words of a text; also how many words were counted and how many
/// distinct ones there are.
pub fn op_doc_wordfreq(text: &str, top: u64, min_len: u64, ignore_case: bool, stopwords: bool) -> (r: (
    u64,
    u64,
    Vec<(String, u64)>,
))
    ensures
        ({
            let toks = tokens_from(text@, 0);
            let ws = counted_words(toks, min_len, ignore_case, stopwords, toks.len());
            &&& r.0 == ws.len()
            &&& r.1 == word_counts(ws).len()
            &&& counts_view(r.2@) == ranked_words(ws, top)
        }),
{
    let toks = tokens(text);
    let ghost tv = toks.deep_view();
    assert(tv.len() == toks@.len());
    let mut ws: Vec<String> = Vec::new();
    let mut i: usize = 0;
    assert(ws.deep_view() =~= Seq::<Seq<char>>::empty());
    while i < toks.len()
        invariant
            i <= toks@.len(),
            tv == toks.deep_view(),
            ws.deep_view() == counted_words(tv, min_len, ignore_case, stopwords, i as nat),
        decreases toks@.len() - i,
    {
        assert(tv[i as int] == toks@[i as int]@);
        let w = make_haystack(toks[i].as_str(), ignore_case);
        let short = (chars_of(w.as_str()).len() as u64) < min_len;
        let skip = short || (stopwords && stopword(to_lowercase(w.as_str()).as_str()));
        if !skip {
            push_deep(&mut ws, w);
        }
        i = i + 1;
    }
    let total: u64 = ws.len() as u64;
    assert(ws.deep_view().len() == ws@.len());
    let counts = count_words(&ws);
    let ghost cv = counts_view(counts@);
    let ghost lt = by_count(cv);
    let n: usize = counts.len();
    let more = |x: usize, y: usize| -> (b: bool)
        requires
            x < counts@.len(),
            y < counts@.len(),
        ensures
            b == (counts@[y as int].1 < counts@[x as int].1),
        { counts[y].1 < counts[x].1 };
    assert forall|x: usize, y: usize| x < n && y < n implies #[trigger] lt(x as int, y as int) == (
    counts@[y as int].1 < counts@[x as int].1) by {}
    let order = stable_order(n, &more, Ghost(lt));
    assert(is_weak_order(lt, n as int));
    let ghost all = in_order(cv, lt);
    let keep: usize = if top < n as u64 {
        top as usize
    } else {
        n
    };
    let mut out: Vec<(String, u64)> = Vec::new();
    let mut k: usize = 0;
    while k < keep
        invariant
            k <= keep <= n,
            n == counts@.len(),
            cv == counts_view(counts@),
            order@ == order_of(n as int, lt),
            is_all_of(order@, 0, n as int),
            all == in_order(cv, lt),
            counts_view(out@) == all.take(k as int),
        decreases keep - k,
    {
        assert(0 <= order@[k as int] < n);
        let p: usize = order[k];
        assert(cv[p as int] == (counts@[p as int].0@, counts@[p as int].1));
        let ghost was = out@;
        out.push((counts[p].0.clone(), counts[p].1));
        assert(counts_view(out@) =~= counts_view(was).push(all[k as int]));
        k = k + 1;
        assert(counts_view(out@) =~= all.take(k as int));
    }
    assert(counts_view(out@) =~= cut(all, Some(top)));
    (total, n as u64, out)
}

// ── what is told of documents ───────────────────────────────────────────────

/// What an outline tells of a heading.
pub open spec fn heading_told(b: Json) -> Json {
    Json::Object(
        seq![
            (
                "level"@,
                Json::Number(
                    Num::Unsigned(
                        match as_u64(field(b, "level"@)) {
                            Some(l) => l,
                            None => 1,
                        },
                    ),
                ),
            ),
            (
                "text"@,
                match field(b, "text"@) {
                    Some(Json::Text(t)) => Json::Text(t),
                    _ => Json::Text(Seq::empty()),
                },
            ),
        ],
    )
}

/// An outline has the headings and nothing else, in order, each with its level and its text.
pub proof fn outlines_have_the_headings(blocks: Seq<Json>, n: nat)
    requires
        n <= blocks.len(),
    ensures
        outline(blocks, n) == blocks.take(n as int).filter(
            |b: Json| field(b, "kind"@) == Some(Json::Text("heading"@)),
        ).map_values(|b: Json| heading_told(b)),
    decreases n,
{
    reveal(Seq::filter);
    let is = |b: Json| field(b, "kind"@) == Some(Json::Text("heading"@));
    let tell = |b: Json| heading_told(b);
    let part = blocks.take(n as int);
    if n > 0 {
        outlines_have_the_headings(blocks, (n - 1) as nat);
        assert(part.drop_last() =~= blocks.take(n - 1));
        assert(part.last() == blocks[n - 1]);
        assert(outline_entry(blocks[n - 1])->Object_0 =~= heading_told(blocks[n - 1])->Object_0);
        if is(blocks[n - 1]) {
            assert(part.filter(is).map_values(tell) =~= part.drop_last().filter(is).map_values(
                tell,
            ).push(tell(blocks[n - 1])));
        }
    } else {
        assert(part.filter(is).map_values(tell) =~= Seq::<Json>::empty());
    }
}

/// Merged documents follow each other, with a page break between two where it is asked for and
/// none before the first.
pub proof fn merged_documents_follow_each_other(sources: Seq<Seq<Json>>, n: nat)
    requires
        n < sources.len(),
    ensures
        merged_blocks(sources, false, n + 1) == sources.take(n as int + 1).flatten(),
        n == 0 ==> merged_blocks(sources, true, 1) == sources[0],
        n > 0 ==> merged_blocks(sources, true, n + 1) == merged_blocks(sources, true, n) + seq![
            Json::Object(seq![("kind"@, Json::Text("pagebreak"@))]),
        ] + sources[n as int],
    decreases n,
{
    let part = sources.take(n as int + 1);
    let less = sources.take(n as int);
    assert(part =~= less.push(sources[n as int]));
    less.lemma_flatten_push(sources[n as int]);
    if n > 0 {
        merged_documents_follow_each_other(sources, (n - 1) as nat);
        assert(merged_blocks(sources, true, n + 1) =~= merged_blocks(sources, true, n) + seq![
            Json::Object(seq![("kind"@, Json::Text("pagebreak"@))]),
        ] + sources[n as int]);
    } else {
        assert(less =~= Seq::empty());
        assert(less.flatten() =~= Seq::<Json>::empty());
        assert(merged_blocks(sources, false, 0) =~= Seq::<Json>::empty());
        assert(merged_blocks(sources, true, 0) =~= Seq::<Json>::empty());
        assert(merged_blocks(sources, false, 1) =~= sources[0]);
        assert(merged_blocks(sources, true, 1) =~= sources[0]);
    }
}

/// Whether a block is a heading of a level.
pub open spec fn heads(b: Json, level: u64) -> bool {
    field(b, "kind"@) == Some(Json::Text("heading"@)) && as_u64(field(b, "level"@)) == Some(level)
}

/// A section begins at each heading of the level and nowhere else, but for the first, which
/// begins where the document does.
pub proof fn sections_begin_at_headings(blocks: Seq<Json>, level: u64, n: nat)
    requires
        n <= blocks.len(),
    ensures
        ({
            let s = sections(blocks, level, n);
            &&& n > 0 ==> s.len() > 0
            &&& forall|k: int| 0 <= k < s.len() ==> (#[trigger] s[k]).len() > 0
            &&& forall|k: int| 0 < k < s.len() ==> heads((#[trigger] s[k])[0], level)
            &&& forall|k: int, i: int|
                0 <= k < s.len() && 0 < i < s[k].len() ==> !heads(#[trigger] s[k][i], level)
        }),
    decreases n,
{
    if n > 0 {
        sections_begin_at_headings(blocks, level, (n - 1) as nat);
        let was = sections(blocks, level, (n - 1) as nat);
        let now = sections(blocks, level, n);
        let b = blocks[n - 1];
        assert(begins_section(b, level) == heads(b, level));
        if was.len() == 0 || heads(b, level) {
            assert(now == was.push(seq![b]));
        } else {
            let last = was.len() - 1;
            assert(now == was.update(last, was.last().push(b)));
            assert forall|k: int, i: int|
                0 <= k < now.len() && 0 < i < now[k].len() implies !heads(
                #[trigger] now[k][i],
                level,
            ) by {
                if k < last || i < was[k].len() {
                    assert(now[k][i] == was[k][i]);
                }
            }
            assert forall|k: int| 0 < k < now.len() implies heads((#[trigger] now[k])[0], level) by {
                assert(now[k][0] == was[k][0]);
            }
        }
    }
}

/// A search of a document tells of just the paragraphs in which the query stands, in order,
/// with their numbers from one and the first place; and counts in all as often as in each.
pub proof fn document_searches_tell_of_each_paragraph(
    paras: Seq<Seq<char>>,
    query: Seq<char>,
    ic: bool,
    n: nat,
)
    requires
        n < paras.len(),
        n < u64::MAX,
    ensures
        para_matches(paras, query, ic, 0).len() == 0,
        match_total(paras, query, ic, 0) == 0,
        ({
            let t = without_case(paras[n as int], ic);
            let was = para_matches(paras, query, ic, n);
            let now = para_matches(paras, query, ic, n + 1);
            &&& !occurs_in(query, t) ==> now == was
            &&& occurs_in(query, t) ==> {
                &&& now.len() == was.len() + 1
                &&& now.take(was.len() as int) == was
                &&& now.last().paragraph == n + 1
                &&& now.last().hay == t
                &&& 0 <= now.last().at && now.last().at + query.len() <= t.len()
                &&& t.subrange(now.last().at, now.last().at + query.len()) == query
                &&& forall|k: int|
                    0 <= k < now.last().at ==> #[trigger] t.subrange(k, k + query.len()) != query
                &&& now.last().count == in_64_bits(
                    (match_total(paras, query, ic, n + 1) - match_total(
                        paras,
                        query,
                        ic,
                        n,
                    )) as nat,
                )
            }
        }),
{
    let t = without_case(paras[n as int], ic);
    texts_are_found_first(t, query, 0);
    let was = para_matches(paras, query, ic, n);
    let now = para_matches(paras, query, ic, n + 1);
    if now.len() > was.len() {
        assert(now.take(was.len() as int) =~= was);
    }
}

proof fn lemma_solid(s: Seq<char>, n: nat)
    requires
        n <= s.len(),
    ensures
        solid_count(s, n) == s.take(n as int).filter(|c: char| !is_space(c)).len(),
    decreases n,
{
    reveal(Seq::filter);
    if n > 0 {
        lemma_solid(s, (n - 1) as nat);
        assert(s.take(n as int).drop_last() =~= s.take(n - 1));
        assert(s.take(n as int).last() == s[n - 1]);
    }
}

/// Whether a text has anything but white space.
pub open spec fn has_ink(t: Seq<char>) -> bool {
    exists|i: int| 0 <= i < t.len() && !is_space(#[trigger] t[i])
}

proof fn lemma_inked(paras: Seq<Seq<char>>, n: nat)
    requires
        n <= paras.len(),
    ensures
        filled_count(paras, n) == paras.take(n as int).filter(|t: Seq<char>| has_ink(t)).len(),
        line_blocks(paras, n) == paras.take(n as int).filter(
            |t: Seq<char>| has_ink(t),
        ).map_values(|t: Seq<char>| para_block(t)),
    decreases n,
{
    reveal(Seq::filter);
    let part = paras.take(n as int);
    let is = |t: Seq<char>| has_ink(t);
    let get = |t: Seq<char>| para_block(t);
    if n > 0 {
        lemma_inked(paras, (n - 1) as nat);
        assert(part.drop_last() =~= paras.take(n - 1));
        assert(part.last() == paras[n - 1]);
        lemma_trimmed_away(paras[n - 1]);
        if is(paras[n - 1]) {
            assert(part.filter(is).map_values(get) =~= part.drop_last().filter(is).map_values(
                get,
            ).push(get(paras[n - 1])));
        }
    } else {
        assert(part.filter(is).map_values(get) =~= Seq::<Json>::empty());
    }
}

/// The counts of a text are those of what they name, in the text that has the paragraphs in
/// lines.
pub proof fn counts_are_what_they_name(paras: Seq<Seq<char>>)
    ensures
        ({
            let text = join(paras, "\n"@);
            let o = text_counts(paras)->Object_0;
            &&& o.len() == 5
            &&& o[0] == ("words"@, Json::Number(Num::Unsigned(words(text).len() as u64)))
            &&& o[1] == ("characters"@, Json::Number(Num::Unsigned(text.len() as u64)))
            &&& o[2] == (
                "characters_no_spaces"@,
                Json::Number(
                    Num::Unsigned(text.filter(|c: char| !is_space(c)).len() as u64),
                ),
            )
            &&& o[3] == ("lines"@, Json::Number(Num::Unsigned(lines(text).len() as u64)))
            &&& o[4] == (
                "paragraphs"@,
                Json::Number(
                    Num::Unsigned(paras.filter(|t: Seq<char>| has_ink(t)).len() as u64),
                ),
            )
        }),
{
    let text = join(paras, "\n"@);
    lemma_solid(text, text.len());
    lemma_inked(paras, paras.len());
    assert(text.take(text.len() as int) =~= text);
    assert(paras.take(paras.len() as int) =~= paras);
}

/// The blocks of the lines of a text are paragraphs, one for each line that is not white.
pub proof fn lines_become_paragraphs(ls: Seq<Seq<char>>)
    ensures
        line_blocks(ls, ls.len()) == ls.filter(|t: Seq<char>| has_ink(t)).map_values(
            |t: Seq<char>| para_block(t),
        ),
{
    lemma_inked(ls, ls.len());
    assert(ls.take(ls.len() as int) =~= ls);
}

/// The words that are counted are the tokens that are long enough and, where it is asked for,
/// no stopwords; in order.
pub proof fn counted_words_are_long_enough(
    toks: Seq<Seq<char>>,
    min_len: u64,
    ic: bool,
    stop: bool,
    n: nat,
)
    requires
        n <= toks.len(),
    ensures
        counted_words(toks, min_len, ic, stop, n) == toks.take(n as int).map_values(
            |t: Seq<char>| without_case(t, ic),
        ).filter(|w: Seq<char>| w.len() >= min_len && (stop ==> !is_stopword(lowercase(w)))),
    decreases n,
{
    reveal(Seq::filter);
    let part = toks.take(n as int);
    let fold = |t: Seq<char>| without_case(t, ic);
    let is = |w: Seq<char>| w.len() >= min_len && (stop ==> !is_stopword(lowercase(w)));
    if n > 0 {
        counted_words_are_long_enough(toks, min_len, ic, stop, (n - 1) as nat);
        let all = part.map_values(fold);
        assert(all.drop_last() =~= toks.take(n - 1).map_values(fold));
        assert(all.last() == without_case(toks[n - 1], ic));
    } else {
        assert(part.map_values(fold).filter(is) =~= Seq::<Seq<char>>::empty());
    }
}

/// How often a word comes.
pub open spec fn times_in(ws: Seq<Seq<char>>, w: Seq<char>) -> nat {
    ws.filter(|x: Seq<char>| x == w).len()
}

proof fn lemma_places(ws: Seq<Seq<char>>, w: Seq<char>, n: nat)
    requires
        n <= ws.len(),
    ensures
        positions_of(ws, w, n).len() == times_in(ws.take(n as int), w),
        positions_of(ws, w, n).len() <= n,
    decreases n,
{
    reveal(Seq::filter);
    if n > 0 {
        lemma_places(ws, w, (n - 1) as nat);
        assert(ws.take(n as int).drop_last() =~= ws.take(n - 1));
        assert(ws.take(n as int).last() == ws[n - 1]);
    }
}

/// Words are told with how often they come, the most frequent first and words of equal count
/// by their letters, as many as are asked for.
pub proof fn words_are_ranked_by_count(ws: Seq<Seq<char>>, top: u64, i: int, j: int)
    requires
        ws.len() <= usize::MAX,
        0 <= j < i < ranked_words(ws, top).len(),
    ensures
        ({
            let f = ranked_words(ws, top);
            &&& f.len() <= top
            &&& ws.contains(f[i].0)
            &&& f[i].1 == times_in(ws, f[i].0)
            &&& f[j].1 > f[i].1 || (f[j].1 == f[i].1 && comes_before(f[j].0, f[i].0))
        }),
{
    let keys = sorted_keys(ws, ws.len());
    let counts = word_counts(ws);
    let lt = by_count(counts);
    let f = ranked_words(ws, top);
    let n = counts.len() as int;
    keys_are_ordered(ws, ws.len());
    lemma_key_count(ws, ws.len());
    assert(is_weak_order(lt, n));
    lemma_stable_sort_exists(n, lt);
    let r = order_of(n, lt);
    assert(is_stable_sort(r, n, lt));
    assert(before(lt, r[j] as int, r[i] as int));
    let w = keys[r[i] as int];
    assert(f[i].0 == w);
    assert(keys.contains(w));
    assert(ws.take(ws.len() as int) =~= ws);
    lemma_places(ws, w, ws.len());
    texts_come_by_their_letters(f[j].0, f[i].0);
    if f[j].1 == f[i].1 {
        assert(r[j] < r[i]);
        assert(text_less(keys[r[j] as int], keys[r[i] as int]));
    }
}

proof fn lemma_key_count(ws: Seq<Seq<char>>, n: nat)
    requires
        n <= ws.len(),
    ensures
        sorted_keys(ws, n).len() <= n,
    decreases n,
{
    if n > 0 {
        lemma_key_count(ws, (n - 1) as nat);
        lemma_place(sorted_keys(ws, (n - 1) as nat), ws[n - 1], 0);
    }
}

} // verus!
