use stryke_office::value::{to_json, Number, Value};

fn conv(j: &serde_json::Value) -> Value {
    match j {
        serde_json::Value::Null => Value::Null,
        serde_json::Value::Bool(b) => Value::Bool(*b),
        serde_json::Value::Number(n) => {
            if let Some(u) = n.as_u64() {
                Value::Number(Number::Unsigned(u))
            } else if let Some(i) = n.as_i64() {
                Value::Number(Number::Negative(i))
            } else {
                let bits = n.as_f64().unwrap().to_bits();
                Value::Number(Number::Float { bits, text: n.to_string() })
            }
        }
        serde_json::Value::String(s) => Value::Text(s.clone()),
        serde_json::Value::Array(a) => Value::Array(a.iter().map(conv).collect()),
        serde_json::Value::Object(o) => {
            Value::Object(o.iter().map(|(k, v)| (k.clone(), conv(v))).collect())
        }
    }
}

fn val(s: &str) -> Value {
    conv(&serde_json::from_str::<serde_json::Value>(s).unwrap())
}

fn js(v: &Value) -> serde_json::Value {
    serde_json::from_str(&to_json(v)).unwrap()
}

fn want(s: &str) -> serde_json::Value {
    serde_json::from_str(s).unwrap()
}

fn list(s: &str) -> Vec<Value> {
    match val(s) {
        Value::Array(a) => a,
        _ => panic!("no list"),
    }
}

fn grid(s: &str) -> Vec<Vec<Value>> {
    list(s)
        .into_iter()
        .map(|r| match r {
            Value::Array(a) => a,
            _ => panic!("no row"),
        })
        .collect()
}

fn seen(rows: &Vec<Vec<Value>>) -> serde_json::Value {
    serde_json::Value::Array(
        rows.iter().map(|r| serde_json::Value::Array(r.iter().map(js).collect())).collect(),
    )
}

fn seen_list(items: &Vec<Value>) -> serde_json::Value {
    serde_json::Value::Array(items.iter().map(js).collect())
}

use stryke_office::blocks::{
    extract_blocks_docx, extract_blocks_odt, extract_links_docx, extract_links_odt,
    extract_tables, heading_level_from_style, parse_html_blocks, TableTags,
};
use stryke_office::container::{
    bytes_of_text, read_zip_entries, read_zip_entry, write_zip_entries, zip_entry_names,
};
use stryke_office::deck::{
    json_slides, odp_box_text, op_slides_append, op_slides_find, op_slides_merge,
    op_slides_reorder, op_slides_split, op_slides_stats, read_query, slide_order, split_prefix,
};
use stryke_office::docfmt::{read_doc_text, write_doc_html, write_doc_md, write_doc_rtf};
use stryke_office::documents::{
    blocks_of, doc_blocks_or_paras, doc_full_text, document_lines, op_doc_append, op_doc_blocks, op_doc_find,
    op_doc_links, op_doc_merge, op_doc_outline, op_doc_read, op_doc_split, op_doc_stats,
    op_doc_tables, op_doc_wordfreq, op_doc_write, op_pdf_write, op_slides_write, read_searched,
    write_odt, write_plain, DocFormat, OdtItem,
};
use stryke_office::docx::{docx_align, docx_run, write_docx, DocAlign, DocCmd};
use stryke_office::links::can_take_link;
use stryke_office::markdown::{md_row, parse_markdown_blocks};
use stryke_office::media::{
    are_safe_files, describe_picture, is_container_media, lift_container, list_pictures,
    name_attachment, name_picture, op_extract_images, op_pdf_attach, pdf_raw_to_image, read_media,
    read_storage, PictureSource, Stored,
};
use stryke_office::meta::{
    op_meta_read, op_meta_write, read_pdf_meta, set_xml_leaf, to_pdf_date, write_odf_meta,
    write_ooxml_meta, write_pdf_meta, MetaKind,
};
use stryke_office::ods::{collect_sheets, read_ods};
use stryke_office::paths::{base_name, ext_of, resolve_zip_path, stem_of, target_ext};
use stryke_office::pptx::{
    op_slides_add_image, op_slides_add_text, op_slides_set_notes, notes_lines, px_to_emu, Frame,
};
use stryke_office::slides::{op_slides_read, slide_index};
use stryke_office::workbook::{name_of_sheet, plan_sheet, write_xlsx};
use stryke_office::xlsx::{write_xlsx_cell, xlsx_color, CellWrite, SheetCmd};
use stryke_office::xml::{extract_paragraphs, xml_events, XmlEvent};

fn zip(parts: &[(&str, &str)]) -> Vec<u8> {
    let parts: Vec<(String, Vec<u8>)> =
        parts.iter().map(|(n, t)| (n.to_string(), t.as_bytes().to_vec())).collect();
    write_zip_entries(&parts).unwrap()
}

#[test]
fn archives_give_back_their_parts() {
    let parts = vec![
        ("a.txt".to_string(), b"hello".to_vec()),
        ("d/b.bin".to_string(), vec![0u8, 255, 7]),
        ("empty".to_string(), vec![]),
    ];
    let bytes = write_zip_entries(&parts).unwrap();
    assert_eq!(&bytes[..2], b"PK");
    assert_eq!(read_zip_entries(&bytes).unwrap(), parts);
    assert_eq!(zip_entry_names(&bytes).unwrap(), vec!["a.txt", "d/b.bin", "empty"]);
    assert_eq!(read_zip_entry(&bytes, "d/b.bin").unwrap(), vec![0u8, 255, 7]);
    assert_eq!(read_zip_entry(&bytes, "x").err().unwrap(), "entry not found: x");
    assert!(read_zip_entries(b"nonsense").is_err());
    assert_eq!(bytes_of_text("é"), vec![0xc3, 0xa9]);
}

#[test]
fn xml_is_read_event_by_event() {
    let evs = xml_events(b"<a k=\"v\">x &amp; <b/>y</a>", true);
    assert!(matches!(&evs[0], XmlEvent::Start(t) if t.name == "a" && t.attrs[0].raw == "v"));
    assert!(evs.iter().any(|e| matches!(e, XmlEvent::Empty(t) if t.name == "b")));
    assert!(matches!(evs.last().unwrap(), XmlEvent::End(n) if n == "a"));
}

const DOCX: &str = "<w:document><w:body><w:p><w:pPr><w:pStyle w:val=\"Heading2\"/></w:pPr><w:r><w:t>Title</w:t></w:r></w:p><w:p><w:r><w:t>A &amp; B</w:t></w:r></w:p><w:tbl><w:tr><w:tc><w:p><w:r><w:t>c1</w:t></w:r></w:p></w:tc><w:tc><w:p><w:r><w:t>c2</w:t></w:r></w:p></w:tc></w:tr></w:tbl></w:body></w:document>";

#[test]
fn docx_text_is_extracted() {
    assert_eq!(
        extract_paragraphs(DOCX.as_bytes(), &vec!["w:p".to_string()]),
        vec!["Title", "A & B", "c1", "c2"]
    );
    let blocks = extract_blocks_docx(DOCX.as_bytes());
    assert_eq!(js(&blocks[0])["level"], want("2"));
    assert_eq!(js(&blocks[0])["text"], want("\"Title\""));
    assert_eq!(js(&blocks[1])["text"], want("\"A & B\""));
    assert_eq!(js(&blocks[2])["rows"], want(r#"[["c1","c2"]]"#));
    assert_eq!(extract_tables(DOCX.as_bytes(), &TableTags::docx()).len(), 1);
    assert_eq!(heading_level_from_style("Heading3"), Some(3));
    assert_eq!(heading_level_from_style("Normal"), None);
    assert_eq!(heading_level_from_style(" heading "), Some(1));
    assert_eq!(heading_level_from_style("Heading10"), None);
    assert_eq!(heading_level_from_style("Heading0"), None);
}

#[test]
fn documents_are_read_from_archives() {
    let archive = zip(&[("word/document.xml", DOCX)]);
    assert_eq!(op_doc_read(&archive, "", "docx").unwrap().len(), 4);
    assert_eq!(op_doc_blocks(&archive, "docx").unwrap().len(), 3);
    assert_eq!(op_doc_tables(&archive, "docx").unwrap().len(), 1);
    assert_eq!(doc_full_text(&archive, "", "docx").unwrap(), "Title\nA & B\nc1\nc2");
    assert_eq!(doc_blocks_or_paras(&archive, "", "docx").unwrap().len(), 3);
    assert_eq!(
        op_doc_read(&archive, "", "odt").err().unwrap(),
        "entry not found: content.xml"
    );
    assert_eq!(
        op_doc_read(&[], "", "zzz").err().unwrap(),
        "unsupported document read format: zzz"
    );
}

#[test]
fn odt_blocks_are_extracted() {
    let xml = "<office:body><text:h text:outline-level=\"3\">H</text:h><text:p>one</text:p><table:table><table:table-row><table:table-cell><text:p>x</text:p></table:table-cell></table:table-row></table:table></office:body>";
    let blocks = extract_blocks_odt(xml.as_bytes());
    assert_eq!(js(&blocks[0])["level"], want("3"));
    assert_eq!(js(&blocks[1])["text"], want("\"one\""));
    assert_eq!(js(&blocks[2])["rows"], want(r#"[["x"]]"#));
    let links = extract_links_odt(
        b"<text:p><text:a xlink:href=\"http://e.org\">here</text:a></text:p>",
    );
    assert_eq!(js(&links[0]), want(r#"{"text":"here","url":"http://e.org"}"#));
}

#[test]
fn docx_links_are_looked_up() {
    let doc = "<w:p><w:hyperlink r:id=\"rId5\"><w:r><w:t>go</w:t></w:r></w:hyperlink></w:p>";
    let rels = "<Relationships><Relationship Id=\"rId5\" Type=\"x/hyperlink\" Target=\"http://e.org\"/></Relationships>";
    let links = extract_links_docx(doc.as_bytes(), rels.as_bytes());
    assert_eq!(seen_list(&links), want(r#"[{"text":"go","url":"http://e.org"}]"#));
    let archive = zip(&[("word/document.xml", doc), ("word/_rels/document.xml.rels", rels)]);
    assert_eq!(op_doc_links(&archive, "docx").unwrap().len(), 1);
}

#[test]
fn html_becomes_blocks() {
    let b = parse_html_blocks(b"<h1>T</h1><p>one <b>two</b></p><ul><li>a</li><li>b</li></ul><table><tr><td>x</td></tr></table>");
    assert_eq!(js(&b[0])["level"], want("1"));
    assert_eq!(js(&b[1])["text"], want("\"one two\""));
    assert_eq!(js(&b[2])["items"], want(r#"["a","b"]"#));
    assert_eq!(js(&b[3])["rows"], want(r#"[["x"]]"#));
}

#[test]
fn markdown_becomes_blocks_and_comes_back() {
    let md = "# Top\n\nfirst\nsecond\n\n- a\n- b\n\n| h | k |\n|---|---|\n| 1 | 2 |\n";
    let b = parse_markdown_blocks(md);
    assert_eq!(b.len(), 4);
    assert_eq!(js(&b[0]), want(r#"{"kind":"heading","level":1,"text":"Top"}"#));
    assert_eq!(js(&b[1])["text"], want("\"first second\""));
    assert_eq!(js(&b[2])["items"], want(r#"["a","b"]"#));
    assert_eq!(js(&b[3])["rows"], want(r#"[["h","k"],["1","2"]]"#));
    let again = parse_markdown_blocks(&write_doc_md(&b));
    assert_eq!(seen_list(&again)[0], seen_list(&b)[0]);
}

#[test]
fn blocks_are_written_in_text_formats() {
    let b = list(r#"[{"kind":"heading","level":2,"text":"A<B"},{"kind":"para","runs":[{"text":"x","bold":true},{"text":"y"}]}]"#);
    assert!(write_doc_html(&b).contains("<h2>A&lt;B</h2>"));
    assert!(write_doc_html(&b).contains("<b>x</b>y") || write_doc_html(&b).contains("<strong>x</strong>y"));
    assert!(write_doc_md(&b).contains("## A<B") && write_doc_md(&b).contains("**x**y"));
    assert!(write_doc_rtf(&b).starts_with("{\\rtf1"));
    assert!(write_plain(&b).contains("A<B"));
    assert!(matches!(write_odt(&b[0]), OdtItem::Heading(2, t) if t == "A<B"));
}

#[test]
fn text_documents_become_paragraphs() {
    assert_eq!(read_doc_text("one\n\ntwo\n", "txt"), vec!["one", "two"]);
    assert_eq!(read_doc_text("<p>a &amp; b</p><p>c</p>", "html").len(), 2);
    assert_eq!(read_doc_text("{\\rtf1 hi\nthere}", "rtf"), vec!["hi", "there"]);
}

#[test]
fn documents_are_put_together_and_taken_apart() {
    let b = list(r#"[{"kind":"heading","level":1,"text":"A"},{"kind":"para","text":"x"},{"kind":"heading","level":1,"text":"B"},{"kind":"para","text":"y"}]"#);
    let parts = op_doc_split(&b, 1);
    assert_eq!(parts.len(), 2);
    let total: usize = parts.iter().map(|p| p.len()).sum();
    assert_eq!(total, b.len());
    let merged = op_doc_merge(&parts, true);
    assert_eq!(merged.len(), 5);
    assert_eq!(js(&merged[2])["kind"], want("\"pagebreak\""));
    let longer = op_doc_append(list(r#"[{"kind":"para","text":"x"}]"#), &b, false);
    assert_eq!(longer.len(), 5);
    let outline = op_doc_outline(&b);
    assert_eq!(outline.len(), 2);
    assert_eq!(js(&outline[1])["text"], want("\"B\""));
}

#[test]
fn documents_are_searched_and_counted() {
    let paras: Vec<String> = ["The cat sat", "", "cat Cat"].iter().map(|s| s.to_string()).collect();
    let (total, hits) = op_doc_find(&paras, "cat", true);
    assert_eq!(total, 3);
    assert_eq!((hits[0].paragraph, hits[0].count, hits[0].at), (1, 1, 4));
    assert_eq!((hits[1].paragraph, hits[1].count), (3, 2));
    let stats = op_doc_stats(&paras, Some(1));
    assert_eq!(js(&stats)["words"], want("5"));
    assert_eq!(js(&stats)["paragraphs"], want("2"));
    let (_, _, top) = op_doc_wordfreq("the cat the dog cat the", 2, 1, true, false);
    assert_eq!(top, vec![("the".to_string(), 3), ("cat".to_string(), 2)]);
    let (_, _, top) = op_doc_wordfreq("the cat the dog cat the", 2, 1, true, true);
    assert_eq!(top[0], ("cat".to_string(), 2));
}

#[test]
fn documents_are_written_by_extension() {
    assert!(matches!(op_doc_write(&val("{}"), "a.docx"), Ok(DocFormat::Docx)));
    assert!(matches!(op_doc_write(&val(r#"{"format":"md"}"#), "a.docx"), Ok(DocFormat::Markdown)));
    assert!(op_doc_write(&val("{}"), "a.xyz").is_err());
    assert!(op_slides_write(&val("{}"), "a.xyz").is_err());
    assert!(blocks_of(&val("{}")).is_err());
    assert_eq!(op_pdf_write(&val(r#"{"lines":["a","b"]}"#)).unwrap(), vec!["a", "b"]);
}

#[test]
fn docx_plans_follow_the_blocks() {
    let plan = write_docx(
        &list(r#"[{"kind":"heading","level":1,"text":"T"},{"kind":"para","text":"x"},{"kind":"pagebreak"}]"#),
        &val("{}"),
    );
    assert!(plan.error.is_none());
    assert!(plan.cmds.iter().any(|c| matches!(c, DocCmd::Heading(1, _))));
    assert!(plan.cmds.iter().any(|c| matches!(c, DocCmd::PageBreak)));
    let run = docx_run(&val(r##"{"text":"x","bold":true,"color":"#ff0000"}"##));
    assert!(run.bold && !run.italic && run.text == "x");
    assert!(matches!(docx_align("center"), DocAlign::Center));
}

fn deck() -> Vec<u8> {
    zip(&[
        ("ppt/slides/slide2.xml", "<p:sld><a:p><a:r><a:t>Second</a:t></a:r></a:p></p:sld>"),
        ("ppt/slides/slide1.xml", "<p:sld><p:cSld><p:spTree><a:p><a:r><a:t>First</a:t></a:r></a:p><a:p><a:r><a:t>body</a:t></a:r></a:p></p:spTree></p:cSld></p:sld>"),
        ("ppt/slides/_rels/slide1.xml.rels", "<Relationships></Relationships>"),
        ("[Content_Types].xml", "<Types></Types>"),
    ])
}

#[test]
fn slides_are_read_in_order() {
    let s = op_slides_read(&deck(), "pptx").unwrap();
    assert_eq!(s.len(), 2);
    assert_eq!(s[0].0, vec!["First", "body"]);
    assert_eq!(s[1].0, vec!["Second"]);
    assert_eq!(slide_index("ppt/slides/slide12.xml"), 12);
    assert_eq!(
        op_slides_read(&[], "zzz").err().unwrap(),
        "unsupported presentation read format: zzz"
    );
}

#[test]
fn slides_are_rearranged() {
    let s = op_slides_read(&deck(), "pptx").unwrap();
    let order = slide_order(&val(r#"{"order":[2,1,9]}"#)).unwrap();
    let r = op_slides_reorder(&s, &order).unwrap();
    assert_eq!(js(&r[0])["title"], want("\"Second\""));
    assert_eq!(
        op_slides_reorder(&s, &vec![9]).err().unwrap(),
        "order referenced no existing slides"
    );
    let m = op_slides_merge(&vec![s, op_slides_read(&deck(), "pptx").unwrap()]);
    assert_eq!(m.len(), 4);
    let s = op_slides_read(&deck(), "pptx").unwrap();
    assert_eq!(op_slides_append(&s, &list(r#"[{"title":"x"}]"#)).len(), 3);
    let parts = op_slides_split(&s, "d", "p", "pptx");
    assert_eq!(parts[0].0, "d/p-1.pptx");
    assert_eq!(js(&op_slides_stats(&s))["slides"], want("2"));
    let (needle, ic) = read_query(&val(r#"{"query":"BODY","ignore_case":true}"#)).unwrap();
    assert_eq!(js(&op_slides_find(&s, &needle, ic))["count"], want("1"));
}

#[test]
fn slides_are_written_as_boxes() {
    let s = json_slides(&val(r#"{"slides":[{"title":"T","body":["a",{"text":"b"}]}]}"#)).unwrap();
    assert_eq!(s[0].0, "T");
    assert_eq!(odp_box_text(&s[0].0, &s[0].1), "T\na\nb");
    assert!(json_slides(&val("{}")).is_err());
}

#[test]
fn notes_text_and_pictures_are_put_on_slides() {
    let parts = read_zip_entries(&deck()).unwrap();
    let ls = notes_lines(&val(r#"{"notes":"say\nthis"}"#)).unwrap();
    assert_eq!(ls, vec!["say", "this"]);
    assert_eq!(notes_lines(&val("{}")).err().unwrap(), "missing notes (string or array of lines)");
    let with = op_slides_set_notes(parts, 1, &ls, "d.pptx").unwrap();
    let bytes = write_zip_entries(&with).unwrap();
    let s = op_slides_read(&bytes, "pptx").unwrap();
    assert_eq!(s[0].1, vec!["say", "this"]);
    let parts = read_zip_entries(&deck()).unwrap();
    let f = Frame { x: px_to_emu(1), y: 0, cx: 100, cy: 100 };
    assert_eq!(f.x, 9525);
    let with = op_slides_add_text(parts, 2, "more", f, 1800, "d.pptx").unwrap();
    let s = op_slides_read(&write_zip_entries(&with).unwrap(), "pptx").unwrap();
    assert!(s[1].0.contains(&"Second".to_string()));
    let f = Frame { x: 0, y: 0, cx: 1, cy: 1 };
    let with = op_slides_add_image(with, 1, "png", f, vec![1, 2, 3], "d.pptx").unwrap();
    assert!(with.iter().any(|p| p.1 == vec![1u8, 2, 3]));
    let f = Frame { x: 0, y: 0, cx: 1, cy: 1 };
    assert_eq!(
        op_slides_add_image(with, 7, "png", f, vec![], "d.pptx").err().unwrap(),
        "slide 7 not found in d.pptx"
    );
}

#[test]
fn ods_sheets_are_collected() {
    let xml = "<office:spreadsheet><table:table table:name=\"S\"><table:table-row><table:table-cell office:value-type=\"float\" office:value=\"2.5\"><text:p>2.5</text:p></table:table-cell><table:table-cell office:value-type=\"string\"><text:p>t</text:p></table:table-cell></table:table-row></table:table></office:spreadsheet>";
    let archive = zip(&[("content.xml", xml)]);
    let (events, numbers) = read_ods(&archive).unwrap();
    let readings: Vec<Option<Value>> =
        numbers.iter().map(|n| n.as_ref().map(|t| val(t))).collect();
    let sheets = collect_sheets(&events, &readings);
    assert_eq!(sheets[0].0, "S");
    assert_eq!(seen(&sheets[0].1), want(r#"[[2.5,"t"]]"#));
}

#[test]
fn paths_have_names_and_extensions() {
    assert_eq!(ext_of("a/b.TAR.Gz"), "gz");
    assert_eq!(ext_of(".bashrc"), "");
    assert_eq!(base_name("a/b/"), Some("b".to_string()));
    assert_eq!(base_name(".."), None);
    assert_eq!(stem_of("x/y.z"), Some("y".to_string()));
    assert_eq!(target_ext(&val(r#"{"format":"ODT"}"#), "a.docx"), "odt");
    assert_eq!(resolve_zip_path("ppt/slides", "../media/i.png"), "ppt/media/i.png");
}

#[test]
fn metadata_is_read_and_written() {
    let core = "<cp:coreProperties><dc:title>Old</dc:title><dc:creator>Me</dc:creator></cp:coreProperties>";
    let archive = zip(&[("docProps/core.xml", core), ("other.bin", "keep")]);
    let m = op_meta_read(&archive, "docx").unwrap();
    assert_eq!(js(&m)["title"], want("\"Old\""));
    let (props, kind) = op_meta_write(&val(r#"{"props":{"title":"New & <neat>"}}"#), "docx").unwrap();
    assert!(kind == MetaKind::Ooxml);
    let (bytes, set) = write_ooxml_meta(&archive, &props).unwrap();
    assert_eq!(set, vec!["title"]);
    let m = op_meta_read(&bytes, "docx").unwrap();
    assert_eq!(js(&m)["title"], want("\"New & <neat>\""));
    assert_eq!(js(&m)["author"], want("\"Me\""));
    assert_eq!(read_zip_entry(&bytes, "other.bin").unwrap(), b"keep".to_vec());
    assert_eq!(
        op_meta_write(&val(r#"{"props":3}"#), "docx").err().unwrap(),
        "props must be an object of metadata keys"
    );
    assert_eq!(
        op_meta_write(&val("{}"), "png").err().unwrap(),
        "unsupported format for metadata: png"
    );
}

#[test]
fn odf_metadata_is_written() {
    let archive = zip(&[
        ("mimetype", "application/vnd.oasis.opendocument.text"),
        ("META-INF/manifest.xml", "<manifest:manifest></manifest:manifest>"),
    ]);
    let (bytes, set) = write_odf_meta(&archive, &val(r#"{"title":"T","author":"A"}"#)).unwrap();
    assert_eq!(set.len(), 2);
    let m = op_meta_read(&bytes, "odt").unwrap();
    assert_eq!(js(&m)["title"], want("\"T\""));
    let manifest = String::from_utf8(read_zip_entry(&bytes, "META-INF/manifest.xml").unwrap()).unwrap();
    assert!(manifest.contains("meta.xml"));
}

#[test]
fn pdf_metadata_has_its_own_dates() {
    assert_eq!(to_pdf_date("2024-01-02T03:04:05Z"), "D:20240102030405");
    assert_eq!(to_pdf_date("2024-01-02T03:04:05.678+02:00"), "D:20240102030405");
    assert_eq!(to_pdf_date("20240102T0304"), "D:202401020304");
    assert_eq!(to_pdf_date("2024-01-02"), "D:20240102");
    for other in ["call 555-123-4567", "2024-13-02", "2024-01-02 or so", "D:2024", "12345678", ""] {
        assert_eq!(to_pdf_date(other), other);
    }
    let (info, set) = write_pdf_meta(&val(r#"{"title":"T"}"#)).unwrap();
    assert_eq!(info, vec![("Title".to_string(), "T".to_string())]);
    assert_eq!(set, vec!["title"]);
    let m = read_pdf_meta(&vec![("Author".to_string(), "A".to_string())]);
    assert_eq!(js(&m)["author"], want("\"A\""));
    assert_eq!(
        set_xml_leaf("<a><t>x</t></a>", "t", "y&z", "</a>"),
        "<a><t>y&amp;z</t></a>"
    );
}

#[test]
fn pictures_are_lifted_out_of_archives() {
    assert!(is_container_media("word/media/image1.png"));
    assert!(is_container_media("Pictures/x.jpg"));
    assert!(!is_container_media("Thumbnails/thumbnail.png"));
    assert!(!is_container_media("word/media/"));
    let archive = zip(&[("word/media/image1.png", "PNG"), ("word/document.xml", "x")]);
    assert_eq!(
        lift_container(&archive).unwrap(),
        vec![("image1.png".to_string(), b"PNG".to_vec(), None)]
    );
    assert!(lift_container(b"no archive").is_err());
    let files = read_media(&archive).unwrap();
    assert_eq!(files, vec![("word/media/image1.png".to_string(), b"PNG".to_vec())]);
    assert!(are_safe_files(&files));
    let picture = (1, 1, 1, 1, vec![5]);
    assert_eq!(
        list_pictures(files, vec![Ok(picture.clone())]),
        vec![("image1.png".to_string(), b"PNG".to_vec(), Some(picture))]
    );
    assert!(op_extract_images("a.pdf") == Ok(PictureSource::Pdf));
    assert!(op_extract_images("a.odt") == Ok(PictureSource::Archive));
    assert_eq!(
        op_extract_images("a.png").err().unwrap(),
        "unsupported format for image extraction: png"
    );
    assert_eq!(
        js(&describe_picture("n", Some((3, 4, 5)), Some("d/n"))),
        want(r#"{"name":"n","handle":3,"width":4,"height":5,"path":"d/n"}"#)
    );
    assert_eq!(js(&describe_picture("n", None, None)), want(r#"{"name":"n"}"#));
}

#[test]
fn pdf_samples_need_a_plain_space() {
    assert!(read_storage(&vec!["FlateDecode".into(), "DCTDecode".into()]) == Stored::Jpeg);
    assert!(read_storage(&vec!["JPXDecode".into()]) == Stored::Unknown);
    assert!(read_storage(&vec![]) == Stored::Samples);
    let (_, v) = pdf_raw_to_image(&[1, 2, 3, 4, 5, 6, 7], 2, 1, "DeviceRGB", 8).unwrap();
    assert_eq!(v, vec![1, 2, 3, 4, 5, 6]);
    assert!(pdf_raw_to_image(&[1], 1, 1, "DeviceGray", 4).is_none());
    assert!(pdf_raw_to_image(&[1, 2], 1, 1, "DeviceRGB", 8).is_none());
    assert!(pdf_raw_to_image(&[1, 2, 3], 1, 1, "DeviceCMYK", 8).is_none());
    assert_eq!(name_picture(7, "png"), "image7.png");
}

#[test]
fn attached_names_are_sorted() {
    let items = vec![
        Some(b"b".to_vec()),
        None,
        None,
        None,
        Some(b"a".to_vec()),
        None,
        Some(b"left over".to_vec()),
    ];
    let r = op_pdf_attach(&items, &b"aa".to_vec());
    assert_eq!(r, vec![(b"a".to_vec(), 5), (b"aa".to_vec(), 7), (b"b".to_vec(), 1)]);
    assert_eq!(name_attachment(&val("{}"), "x/y.txt"), "y.txt");
    assert_eq!(name_attachment(&val("{}"), ".."), "attachment");
    assert_eq!(name_attachment(&val(r#"{"name":"n"}"#), "y"), "n");
}

#[test]
fn workbook_cells_are_planned() {
    assert!(matches!(write_xlsx_cell(&val("3")), Some(CellWrite::Number(_, None))));
    assert!(matches!(write_xlsx_cell(&val("true")), Some(CellWrite::Boolean(true, None))));
    assert!(write_xlsx_cell(&val("null")).is_none());
    assert!(matches!(
        write_xlsx_cell(&val(r#"{"formula":"=A1+1"}"#)),
        Some(CellWrite::Formula(_, None))
    ));
    assert_eq!(xlsx_color("#ff8000"), 0xff8000);
    let s = val(r#"{"name":"S","rows":[[1,"x"]],"freeze":[1,0]}"#);
    let cmds = plan_sheet(&s);
    assert!(cmds.iter().any(|c| matches!(c, SheetCmd::Cell(0, 1, CellWrite::Text(_, _)))));
    assert!(cmds.iter().any(|c| matches!(c, SheetCmd::Freeze(1, 0))));
    assert_eq!(name_of_sheet(&val("{}"), 2), "Sheet3");
    let plan = write_xlsx(&list(r#"[{"rows":[]}]"#), &val(r#"{"properties":{"title":"T"}}"#));
    assert_eq!(plan.sheets.len(), 1);
}

#[test]
fn parts_are_named_after_their_source() {
    assert_eq!(split_prefix(&val(r#"{"prefix": "p"}"#), "a/deck.pptx", "slide"), "p");
    assert_eq!(split_prefix(&val("{}"), "a/deck.pptx", "slide"), "deck");
    assert_eq!(split_prefix(&val("{}"), "", "slide"), "slide");
}

#[test]
fn pdf_text_is_searched_by_line() {
    assert_eq!(read_searched(b"", "a\n\nb", "pdf").unwrap(), ["a", "", "b"]);
    assert_eq!(read_searched(b"", "a\nb", "txt").unwrap(), ["a", "b"]);
    assert!(read_searched(b"", "a", "xyz").is_err());
}

#[test]
fn documents_are_laid_out_in_lines() {
    let blocks = list(
        r#"[{"kind": "heading", "text": "T"}, {"text": "p"}, {"kind": "pagebreak"}, {"text": "q"}]"#,
    );
    assert_eq!(document_lines(&blocks), ["T", "", "p", "", "q"]);
}

#[test]
fn archives_refuse_names_twice_and_too_long() {
    let part = |name: String| (name, b"x".to_vec());
    assert!(write_zip_entries(&Vec::new()).is_ok());
    let two = vec![part("a".to_string()), part("b".to_string())];
    assert_eq!(read_zip_entries(&write_zip_entries(&two).unwrap()).unwrap(), two);
    let twice = vec![part("a".to_string()), part("a".to_string())];
    assert!(write_zip_entries(&twice).is_err());
    let long = vec![part("n".repeat(65535))];
    assert_eq!(read_zip_entries(&write_zip_entries(&long).unwrap()).unwrap(), long);
    assert!(write_zip_entries(&vec![part("n".repeat(65536))]).is_err());
}

#[test]
fn pipes_in_table_cells_survive_markdown() {
    let b = list(r#"[{"kind": "table", "rows": [["a|b", "c"], ["|", "d\\"]]}]"#);
    let again = parse_markdown_blocks(&write_doc_md(&b));
    assert_eq!(js(&again[0])["rows"], want(r#"[["a|b", "c"], ["|", "d\\"]]"#));
    assert_eq!(js(&md_row("|| a || b\\|")), want(r#"["a", "", "b|"]"#));
}

#[test]
fn set_notes_read_back_and_others_stay() {
    let before = op_slides_read(&deck(), "pptx").unwrap();
    let ls: Vec<String> = ["a & b", "<c> \"d\"", "e"].iter().map(|l| l.to_string()).collect();
    let parts = read_zip_entries(&deck()).unwrap();
    let once = op_slides_set_notes(parts, 1, &vec!["old".to_string()], "d.pptx").unwrap();
    let twice = op_slides_set_notes(once, 1, &ls, "d.pptx").unwrap();
    let after = op_slides_read(&write_zip_entries(&twice).unwrap(), "pptx").unwrap();
    assert_eq!(after[0].1, ls);
    assert_eq!(after[0].0, before[0].0);
    assert_eq!(after[1..], before[1..]);
}

#[test]
fn new_notes_read_back() {
    let slide = "<p:sld><a:p><a:r><a:t>Only</a:t></a:r></a:p></p:sld>";
    let layout = "<?xml version=\"1.0\" encoding=\"UTF-8\" standalone=\"yes\"?>\n<Relationships xmlns=\"x\"><Relationship Id=\"rId4\" Type=\"y/slideLayout\" Target=\"../slideLayouts/slideLayout1.xml\"/></Relationships>";
    let ls: Vec<String> = ["1 < 2 & 3 > 2", "\"q\""].iter().map(|l| l.to_string()).collect();
    let bare = zip(&[("ppt/slides/slide1.xml", slide)]);
    let linked = zip(&[
        ("ppt/slides/slide1.xml", slide),
        ("ppt/slides/_rels/slide1.xml.rels", layout),
    ]);
    for archive in [bare, linked] {
        let parts = read_zip_entries(&archive).unwrap();
        let set = op_slides_set_notes(parts, 1, &ls, "d.pptx").unwrap();
        let after = op_slides_read(&write_zip_entries(&set).unwrap(), "pptx").unwrap();
        assert_eq!(after.len(), 1);
        assert_eq!(after[0].0, ["Only"]);
        assert_eq!(after[0].1, ls);
    }
}

#[test]
fn notes_parts_are_written_out() {
    let parts = read_zip_entries(&deck()).unwrap();
    let ls = vec!["R&D <\"x\"> 'y'".to_string(), "".to_string()];
    let out = write_zip_entries(&op_slides_set_notes(parts, 1, &ls, "d.pptx").unwrap()).unwrap();
    let xml = read_zip_entry(&out, "ppt/notesSlides/notesSlide1.xml").unwrap();
    assert_eq!(
        String::from_utf8(xml).unwrap(),
        "<?xml version=\"1.0\" encoding=\"UTF-8\" standalone=\"yes\"?>\n<p:notes xmlns:a=\"http://schemas.openxmlformats.org/drawingml/2006/main\" xmlns:r=\"http://schemas.openxmlformats.org/officeDocument/2006/relationships\" xmlns:p=\"http://schemas.openxmlformats.org/presentationml/2006/main\"><p:cSld><p:spTree><p:nvGrpSpPr><p:cNvPr id=\"1\" name=\"\"/><p:cNvGrpSpPr/><p:nvPr/></p:nvGrpSpPr><p:grpSpPr/><p:sp><p:nvSpPr><p:cNvPr id=\"2\" name=\"Notes Placeholder\"/><p:cNvSpPr><a:spLocks noGrp=\"1\"/></p:cNvSpPr><p:nvPr><p:ph type=\"body\" idx=\"1\"/></p:nvPr></p:nvSpPr><p:spPr/><p:txBody><a:bodyPr/><a:lstStyle/><a:p><a:r><a:rPr lang=\"en-US\"/><a:t>R&amp;D &lt;&quot;x&quot;&gt; 'y'</a:t></a:r></a:p><a:p><a:r><a:rPr lang=\"en-US\"/><a:t></a:t></a:r></a:p></p:txBody></p:sp></p:spTree></p:cSld></p:notes>\n"
    );
    assert_eq!(op_slides_read(&out, "pptx").unwrap()[0].1, ls);
}

#[test]
fn metadata_leaves_other_parts_alone() {
    let core = "<cp:coreProperties xmlns:dc=\"x\"><dc:title>R&amp;D</dc:title></cp:coreProperties>";
    let archive = zip(&[("docProps/core.xml", core), ("word/document.xml", "<w/>")]);
    let (out, set) = write_ooxml_meta(&archive, &val(r#"{"author": "Z"}"#)).unwrap();
    assert_eq!(set, ["author"]);
    let text = String::from_utf8(read_zip_entry(&out, "docProps/core.xml").unwrap()).unwrap();
    assert!(text.contains("<dc:title>R&amp;D</dc:title>"));
    assert!(text.contains("<dc:creator>Z</dc:creator>"));
    assert_eq!(read_zip_entry(&out, "word/document.xml").unwrap(), b"<w/>");
}

#[test]
fn parts_are_named_before_the_last_end_tag() {
    let archive = zip(&[
        ("[Content_Types].xml", "<Types><!-- </Types> --></Types>"),
        ("_rels/.rels", "<Relationships><!-- </Relationships> --></Relationships>"),
    ]);
    let (out, _) = write_ooxml_meta(&archive, &val(r#"{"title": "T"}"#)).unwrap();
    let text = |name: &str| String::from_utf8(read_zip_entry(&out, name).unwrap()).unwrap();
    assert!(text("[Content_Types].xml").starts_with("<Types><!-- </Types> --><Override "));
    assert!(text("_rels/.rels").starts_with("<Relationships><!-- </Relationships> --><Relationship "));
    let odf = zip(&[(
        "META-INF/manifest.xml",
        "<manifest:manifest><!-- </manifest:manifest> --></manifest:manifest>",
    )]);
    let (out, _) = write_odf_meta(&odf, &val(r#"{"title": "T"}"#)).unwrap();
    let text = String::from_utf8(read_zip_entry(&out, "META-INF/manifest.xml").unwrap()).unwrap();
    assert!(text.starts_with("<manifest:manifest><!-- </manifest:manifest> --><manifest:file-entry "));
}

#[test]
fn table_cells_keep_their_blanks_in_markdown() {
    let b = val(r#"[{"kind": "table", "rows": [[" a ", "b|c"], ["d\ne", ""]]}]"#);
    let text = write_doc_md(b.as_array().unwrap());
    assert!(text.starts_with("|  a  | b\\|c |\n| --- | --- ||\n| d e |  |\n"), "{text}");
}

#[test]
fn notes_are_linked_whatever_the_relationships_hold() {
    let slide = "<p:sld><a:p><a:r><a:t>Only</a:t></a:r></a:p></p:sld>";
    let rels = "\u{feff}<?xml version='1.0'?>\r\n<!-- c --><Relationships xmlns='x'>\r\n  <Relationship Id='rId4' Type='y/slideLayout' Target='&#46;./a.xml'></Relationship>\r\n</Relationships>\r\n<!-- end -->";
    let archive = zip(&[
        ("ppt/slides/slide1.xml", slide),
        ("ppt/slides/slide2.xml", slide),
        ("ppt/slides/_rels/slide1.xml.rels", rels),
    ]);
    assert!(can_take_link(rels));
    assert!(!can_take_link("<Relationships/>"));
    assert!(!can_take_link("<Relationships><!-- </Relationships> --></Relationships>"));
    assert!(!can_take_link("<Relationships><a></b></Relationships>"));
    assert!(!can_take_link("<Relationships><Relationship Type='notesSlide'/></Relationships>"));
    let ls = vec!["one & two".to_string()];
    let parts = read_zip_entries(&archive).unwrap();
    let set = op_slides_set_notes(parts, 1, &ls, "d.pptx").unwrap();
    let after = op_slides_read(&write_zip_entries(&set).unwrap(), "pptx").unwrap();
    assert_eq!(after[0], (vec!["Only".to_string()], ls));
    assert_eq!(after[1], (vec!["Only".to_string()], vec![]));
}
