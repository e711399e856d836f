//! What is written into a docx document: its commands, worked out from blocks, in
//! the order in which they are carried out.

use crate::deep::{append_deep, push_deep};
use crate::docfmt::{block_kind, kind_of};
use crate::text::{chars_of, copy_text, same, slice_text};
use crate::value::{
    as_array, as_text, as_u64, cell_text, cell_to_string, field, req_str, required_text, Json, Num,
    Number, Value,
};
use crate::xlsx::{
    as_num, copy_at, is_set, num_at, opt_num, pair_at, pair_of, set_at, unhashed,
};
use crate::xml::opt_text;
use vstd::prelude::*;

verus! {

// ── runs and paragraphs ─────────────────────────────────────────────────────

/// A run of text and its formatting; `size` is in points.
pub struct RunPlan {
    pub text: String,
    pub bold: bool,
    pub italic: bool,
    pub strike: bool,
    pub underline: bool,
    pub size: Option<Number>,
    pub color: Option<String>,
    pub highlight: Option<String>,
    pub font: Option<String>,
}

#[verifier::ext_equal]
pub struct RunView {
    pub text: Seq<char>,
    pub bold: bool,
    pub italic: bool,
    pub strike: bool,
    pub underline: bool,
    pub size: Option<Num>,
    pub color: Option<Seq<char>>,
    pub highlight: Option<Seq<char>>,
    pub font: Option<Seq<char>>,
}

impl DeepView for RunPlan {
    type V = RunView;

    open spec fn deep_view(&self) -> RunView {
        RunView {
            text: self.text@,
            bold: self.bold,
            italic: self.italic,
            strike: self.strike,
            underline: self.underline,
            size: opt_num(self.size),
            color: opt_text(self.color),
            highlight: opt_text(self.highlight),
            font: opt_text(self.font),
        }
    }
}

pub open spec fn text_or_empty(t: Option<Seq<char>>) -> Seq<char> {
    match t {
        Some(s) => s,
        None => Seq::empty(),
    }
}

pub open spec fn opt_unhashed(t: Option<Seq<char>>) -> Option<Seq<char>> {
    match t {
        Some(s) => Some(unhashed(s)),
        None => None,
    }
}

/// The run that a value describes.
pub open spec fn run_plan(j: Json) -> RunView {
    RunView {
        text: text_or_empty(as_text(field(j, "text"@))),
        bold: is_set(j, "bold"@),
        italic: is_set(j, "italic"@),
        strike: is_set(j, "strike"@),
        underline: is_set(j, "underline"@),
        size: as_num(field(j, "size"@)),
        color: opt_unhashed(as_text(field(j, "color"@))),
        highlight: as_text(field(j, "highlight"@)),
        font: as_text(field(j, "font"@)),
    }
}

/// A run of text alone.
pub open spec fn plain_run(text: Seq<char>) -> RunView {
    RunView {
        text,
        bold: false,
        italic: false,
        strike: false,
        underline: false,
        size: None,
        color: None,
        highlight: None,
        font: None,
    }
}

fn without_hashes(s: &str) -> (r: String)
    ensures
        r@ == unhashed(s@),
{
    let cs = chars_of(s);
    let mut a: usize = 0;
    while a < cs.len() && cs[a] == '#'
        invariant
            a <= cs@.len(),
            crate::markdown::run_end(cs@, '#', 0) == crate::markdown::run_end(cs@, '#', a as int),
        decreases cs@.len() - a,
    {
        a = a + 1;
    }
    slice_text(&cs, a, cs.len())
}

pub fn docx_run(j: &Value) -> (r: RunPlan)
    ensures
        r.deep_view() == run_plan(j.deep_view()),
{
    let text = match j.text_at("text") {
        Some(t) => copy_text(t),
        None => String::new(),
    };
    let color = match j.text_at("color") {
        Some(c) => Some(without_hashes(c)),
        None => None,
    };
    RunPlan {
        text,
        bold: set_at(j, "bold"),
        italic: set_at(j, "italic"),
        strike: set_at(j, "strike"),
        underline: set_at(j, "underline"),
        size: num_at(j, "size"),
        color,
        highlight: copy_at(j, "highlight"),
        font: copy_at(j, "font"),
    }
}

fn text_run(text: String) -> (r: RunPlan)
    ensures
        r.deep_view() == plain_run(text@),
{
    RunPlan {
        text,
        bold: false,
        italic: false,
        strike: false,
        underline: false,
        size: None,
        color: None,
        highlight: None,
        font: None,
    }
}

#[derive(Clone, Copy, PartialEq, Eq, Structural)]
pub enum DocAlign {
    Left,
    Center,
    Right,
    Both,
}

pub open spec fn align_named(a: Seq<char>) -> DocAlign {
    if a == "center"@ {
        DocAlign::Center
    } else if a == "right"@ {
        DocAlign::Right
    } else if a == "both"@ || a == "justify"@ || a == "justified"@ {
        DocAlign::Both
    } else {
        DocAlign::Left
    }
}

pub fn docx_align(a: &str) -> (r: DocAlign)
    ensures
        r == align_named(a@),
{
    if same(a, "center") {
        DocAlign::Center
    } else if same(a, "right") {
        DocAlign::Right
    } else if same(a, "both") || same(a, "justify") || same(a, "justified") {
        DocAlign::Both
    } else {
        DocAlign::Left
    }
}

/// A paragraph: its runs and its alignment.
pub struct ParaPlan {
    pub runs: Vec<RunPlan>,
    pub align: Option<DocAlign>,
}

#[verifier::ext_equal]
pub struct ParaView {
    pub runs: Seq<RunView>,
    pub align: Option<DocAlign>,
}

impl DeepView for ParaPlan {
    type V = ParaView;

    open spec fn deep_view(&self) -> ParaView {
        ParaView { runs: self.runs.deep_view(), align: self.align }
    }
}

/// The runs of a value: those listed under `runs`, or the object itself as one
/// run, or a bare value as text.
pub open spec fn para_runs(v: Json) -> Seq<RunView> {
    if v is Object {
        match field(v, "runs"@) {
            Some(r) => match as_array(Some(r)) {
                Some(runs) => Seq::new(runs.len(), |i: int| run_plan(runs[i])),
                None => Seq::empty(),
            },
            None => seq![run_plan(v)],
        }
    } else {
        seq![plain_run(cell_text(v))]
    }
}

/// The paragraph that a value describes.
pub open spec fn para_plan(v: Json) -> ParaView {
    ParaView {
        runs: para_runs(v),
        align: match as_text(field(v, "align"@)) {
            Some(a) => Some(align_named(a)),
            None => None,
        },
    }
}

pub fn docx_para(v: &Value) -> (r: ParaPlan)
    ensures
        r.deep_view() == para_plan(v.deep_view()),
{
    let mut runs: Vec<RunPlan> = Vec::new();
    let ghost want = para_runs(v.deep_view());
    if v.is_object() {
        match v.get("runs") {
            Some(list) => {
                match list.as_array() {
                    Some(a) => {
                        let mut i: usize = 0;
                        while i < a.len()
                            invariant
                                i <= a@.len(),
                                want == Seq::new(
                                    a.deep_view().len(),
                                    |i: int| run_plan(a.deep_view()[i]),
                                ),
                                runs.deep_view() == want.take(i as int),
                            decreases a@.len() - i,
                        {
                            assert(a.deep_view()[i as int] == a@[i as int].deep_view());
                            push_deep(&mut runs, docx_run(&a[i]));
                            i = i + 1;
                            assert(runs.deep_view() =~= want.take(i as int));
                        }
                        assert(want.take(i as int) =~= want);
                    },
                    None => {},
                }
            },
            None => {
                push_deep(&mut runs, docx_run(v));
            },
        }
    } else {
        push_deep(&mut runs, text_run(cell_to_string(v)));
    }
    assert(runs.deep_view() =~= want);
    let align = match v.text_at("align") {
        Some(a) => Some(docx_align(a)),
        None => None,
    };
    ParaPlan { runs, align }
}

// ── table cells ─────────────────────────────────────────────────────────────

#[derive(Clone, Copy, PartialEq, Eq, Structural)]
pub enum VAlign {
    Top,
    Center,
    Bottom,
}

pub struct CellPlan {
    pub para: ParaPlan,
    pub bg: Option<String>,
    pub span: Option<u64>,
    pub width: Option<u64>,
    pub valign: Option<VAlign>,
}

#[verifier::ext_equal]
pub struct CellView {
    pub para: ParaView,
    pub bg: Option<Seq<char>>,
    pub span: Option<u64>,
    pub width: Option<u64>,
    pub valign: Option<VAlign>,
}

impl DeepView for CellPlan {
    type V = CellView;

    open spec fn deep_view(&self) -> CellView {
        CellView {
            para: self.para.deep_view(),
            bg: opt_text(self.bg),
            span: self.span,
            width: self.width,
            valign: self.valign,
        }
    }
}

pub open spec fn valign_of(t: Option<Seq<char>>) -> Option<VAlign> {
    match t {
        Some(v) => Some(
            if v == "top"@ {
                VAlign::Top
            } else if v == "bottom"@ {
                VAlign::Bottom
            } else {
                VAlign::Center
            },
        ),
        None => None,
    }
}

pub open spec fn cell_plan(c: Json) -> CellView {
    CellView {
        para: para_plan(c),
        bg: opt_unhashed(as_text(field(c, "bg"@))),
        span: as_u64(field(c, "span"@)),
        width: as_u64(field(c, "width"@)),
        valign: valign_of(as_text(field(c, "valign"@))),
    }
}

fn make_cell(c: &Value) -> (r: CellPlan)
    ensures
        r.deep_view() == cell_plan(c.deep_view()),
{
    let bg = match c.text_at("bg") {
        Some(s) => Some(without_hashes(s)),
        None => None,
    };
    let valign = match c.text_at("valign") {
        Some(v) => Some(
            if same(v, "top") {
                VAlign::Top
            } else if same(v, "bottom") {
                VAlign::Bottom
            } else {
                VAlign::Center
            },
        ),
        None => None,
    };
    CellPlan { para: docx_para(c), bg, span: c.u64_at("span"), width: c.u64_at("width"), valign }
}

pub open spec fn cell_plans(row: Json) -> Seq<CellView> {
    match as_array(Some(row)) {
        Some(cells) => Seq::new(cells.len(), |i: int| cell_plan(cells[i])),
        None => Seq::empty(),
    }
}

fn make_cells(row: &Value) -> (r: Vec<CellPlan>)
    ensures
        r.deep_view() == cell_plans(row.deep_view()),
{
    let mut out: Vec<CellPlan> = Vec::new();
    let ghost want = cell_plans(row.deep_view());
    match row.as_array() {
        Some(a) => {
            let mut i: usize = 0;
            while i < a.len()
                invariant
                    i <= a@.len(),
                    want == Seq::new(a.deep_view().len(), |i: int| cell_plan(a.deep_view()[i])),
                    out.deep_view() == want.take(i as int),
                decreases a@.len() - i,
            {
                assert(a.deep_view()[i as int] == a@[i as int].deep_view());
                push_deep(&mut out, make_cell(&a[i]));
                i = i + 1;
                assert(out.deep_view() =~= want.take(i as int));
            }
        },
        None => {},
    }
    assert(out.deep_view() =~= want);
    out
}

/// The rows of a table block.
pub open spec fn table_plan(b: Json) -> Seq<Seq<CellView>> {
    match as_array(field(b, "rows"@)) {
        Some(rows) => Seq::new(rows.len(), |i: int| cell_plans(rows[i])),
        None => Seq::empty(),
    }
}

fn make_table_rows(b: &Value) -> (r: Vec<Vec<CellPlan>>)
    ensures
        r.deep_view() == table_plan(b.deep_view()),
{
    let mut out: Vec<Vec<CellPlan>> = Vec::new();
    let ghost want = table_plan(b.deep_view());
    match b.array_at("rows") {
        Some(a) => {
            let mut i: usize = 0;
            while i < a.len()
                invariant
                    i <= a@.len(),
                    want == Seq::new(a.deep_view().len(), |i: int| cell_plans(a.deep_view()[i])),
                    out.deep_view() == want.take(i as int),
                decreases a@.len() - i,
            {
                assert(a.deep_view()[i as int] == a@[i as int].deep_view());
                push_deep(&mut out, make_cells(&a[i]));
                i = i + 1;
                assert(out.deep_view() =~= want.take(i as int));
            }
        },
        None => {},
    }
    assert(out.deep_view() =~= want);
    out
}

// ── commands ────────────────────────────────────────────────────────────────

/// What is done to a document.
pub enum DocCmd {
    PageSize(u32, u32),
    /// Defines the numbered list (1) and the bulleted list (2).
    DefineLists,
    Header(String),
    /// A footer text, and whether page numbers follow it.
    Footer(Option<String>, bool),
    /// The list and the text of an item.
    ListItem(u64, String),
    Link { url: String, text: String },
    Table(Vec<Vec<CellPlan>>),
    /// The path of an image and its size in English metric units.
    Image(String, Option<(u32, u32)>),
    PageBreak,
    Para(ParaPlan),
    Heading(u64, ParaPlan),
}

#[verifier::ext_equal]
pub enum DocCmdView {
    PageSize(u32, u32),
    DefineLists,
    Header(Seq<char>),
    Footer(Option<Seq<char>>, bool),
    ListItem(u64, Seq<char>),
    Link { url: Seq<char>, text: Seq<char> },
    Table(Seq<Seq<CellView>>),
    Image(Seq<char>, Option<(u32, u32)>),
    PageBreak,
    Para(ParaView),
    Heading(u64, ParaView),
}

impl DeepView for DocCmd {
    type V = DocCmdView;

    open spec fn deep_view(&self) -> DocCmdView {
        match self {
            DocCmd::PageSize(w, h) => DocCmdView::PageSize(*w, *h),
            DocCmd::DefineLists => DocCmdView::DefineLists,
            DocCmd::Header(t) => DocCmdView::Header(t@),
            DocCmd::Footer(t, p) => DocCmdView::Footer(opt_text(*t), *p),
            DocCmd::ListItem(n, t) => DocCmdView::ListItem(*n, t@),
            DocCmd::Link { url, text } => DocCmdView::Link { url: url@, text: text@ },
            DocCmd::Table(rows) => DocCmdView::Table(rows.deep_view()),
            DocCmd::Image(p, s) => DocCmdView::Image(p@, *s),
            DocCmd::PageBreak => DocCmdView::PageBreak,
            DocCmd::Para(p) => DocCmdView::Para(p.deep_view()),
            DocCmd::Heading(l, p) => DocCmdView::Heading(*l, p.deep_view()),
        }
    }
}

/// The level of a heading block, brought into 1 to 9; 1 where it names none.
pub open spec fn heading_1_9(b: Json) -> u64 {
    match as_u64(field(b, "level"@)) {
        Some(v) => if v < 1 {
            1
        } else if v > 9 {
            9
        } else {
            v
        },
        None => 1,
    }
}

/// The items of a list block.
pub open spec fn item_cmds(b: Json) -> Seq<DocCmdView> {
    let num = if is_set(b, "ordered"@) {
        1u64
    } else {
        2u64
    };
    match as_array(field(b, "items"@)) {
        Some(items) => Seq::new(
            items.len(),
            |i: int| DocCmdView::ListItem(num, cell_text(items[i])),
        ),
        None => Seq::empty(),
    }
}

/// A pixel length in English metric units, in 32 bits.
pub open spec fn emu(px: u64) -> u32 {
    (((px as u32) as int * 9525) % 0x1_0000_0000) as u32
}

/// The commands of one block, or what is wrong with it.
pub open spec fn block_cmds(b: Json) -> Result<Seq<DocCmdView>, Seq<char>> {
    let k = kind_of(b);
    if k == "list"@ {
        Ok(item_cmds(b))
    } else if k == "link"@ {
        match required_text(b, "url"@) {
            Ok(url) => Ok(
                seq![
                    DocCmdView::Link {
                        url,
                        text: match as_text(field(b, "text"@)) {
                            Some(t) => t,
                            None => url,
                        },
                    },
                ],
            ),
            Err(e) => Err(e),
        }
    } else if k == "table"@ {
        Ok(seq![DocCmdView::Table(table_plan(b))])
    } else if k == "image"@ {
        match required_text(b, "path"@) {
            Ok(path) => Ok(
                seq![
                    DocCmdView::Image(
                        path,
                        match (as_u64(field(b, "width"@)), as_u64(field(b, "height"@))) {
                            (Some(w), Some(h)) => Some((emu(w), emu(h))),
                            _ => None,
                        },
                    ),
                ],
            ),
            Err(e) => Err(e),
        }
    } else if k == "pagebreak"@ {
        Ok(seq![DocCmdView::PageBreak])
    } else if k == "heading"@ {
        Ok(seq![DocCmdView::Heading(heading_1_9(b), para_plan(b))])
    } else {
        Ok(seq![DocCmdView::Para(para_plan(b))])
    }
}

/// The commands of the first `n` blocks, up to the first one that is wrong, and
/// what is wrong with it.
pub open spec fn blocks_cmds(blocks: Seq<Json>, n: nat) -> (Seq<DocCmdView>, Option<Seq<char>>)
    decreases n,
{
    if n == 0 || n > blocks.len() {
        (Seq::empty(), None)
    } else {
        let (before, error) = blocks_cmds(blocks, (n - 1) as nat);
        if error is Some {
            (before, error)
        } else {
            match block_cmds(blocks[n - 1]) {
                Ok(cmds) => (before + cmds, None),
                Err(e) => (before, Some(e)),
            }
        }
    }
}

pub open spec fn has_list(blocks: Seq<Json>) -> bool {
    exists|i: int|
        0 <= i < blocks.len() && as_text(field(#[trigger] blocks[i], "kind"@)) == Some("list"@)
}

pub open spec fn maybe(b: bool, c: DocCmdView) -> Seq<DocCmdView> {
    if b {
        seq![c]
    } else {
        Seq::empty()
    }
}

/// Page size, list definitions, header and footer.
pub open spec fn frame_cmds(blocks: Seq<Json>, opts: Json) -> Seq<DocCmdView> {
    let footer = as_text(field(opts, "footer"@));
    let pages = is_set(opts, "page_numbers"@);
    (match pair_of(field(opts, "page_size"@)) {
        Some(p) => seq![DocCmdView::PageSize(p.0 as u32, p.1 as u32)],
        None => Seq::empty(),
    }) + maybe(has_list(blocks), DocCmdView::DefineLists) + (match as_text(
        field(opts, "header"@),
    ) {
        Some(h) => seq![DocCmdView::Header(h)],
        None => Seq::empty(),
    }) + maybe(footer is Some || pages, DocCmdView::Footer(footer, pages))
}

/// What is written into a document, and the error, if any, at which it stops.
pub struct DocPlan {
    pub cmds: Vec<DocCmd>,
    pub error: Option<String>,
}

fn make_items(b: &Value) -> (r: Vec<DocCmd>)
    ensures
        r.deep_view() == item_cmds(b.deep_view()),
{
    let num: u64 = if set_at(b, "ordered") {
        1
    } else {
        2
    };
    let mut out: Vec<DocCmd> = Vec::new();
    let ghost want = item_cmds(b.deep_view());
    match b.array_at("items") {
        Some(a) => {
            let mut i: usize = 0;
            while i < a.len()
                invariant
                    i <= a@.len(),
                    want == Seq::new(
                        a.deep_view().len(),
                        |i: int| DocCmdView::ListItem(num, cell_text(a.deep_view()[i])),
                    ),
                    out.deep_view() == want.take(i as int),
                decreases a@.len() - i,
            {
                assert(a.deep_view()[i as int] == a@[i as int].deep_view());
                push_deep(&mut out, DocCmd::ListItem(num, cell_to_string(&a[i])));
                i = i + 1;
                assert(out.deep_view() =~= want.take(i as int));
            }
        },
        None => {},
    }
    assert(out.deep_view() =~= want);
    out
}

fn to_emu(px: u64) -> (r: u32)
    ensures
        r == emu(px),
{
    let p = px as u32;
    p.wrapping_mul(9525)
}

fn single(c: DocCmd) -> (r: Vec<DocCmd>)
    ensures
        r.deep_view() == seq![c.deep_view()],
{
    let mut out: Vec<DocCmd> = Vec::new();
    push_deep(&mut out, c);
    assert(out.deep_view() =~= seq![c.deep_view()]);
    out
}

fn make_block(b: &Value) -> (r: Result<Vec<DocCmd>, String>)
    ensures
        match r {
            Ok(c) => block_cmds(b.deep_view()) == Ok::<Seq<DocCmdView>, Seq<char>>(c.deep_view()),
            Err(e) => block_cmds(b.deep_view()) == Err::<Seq<DocCmdView>, Seq<char>>(e@),
        },
{
    let k = block_kind(b);
    if same(k, "list") {
        Ok(make_items(b))
    } else if same(k, "link") {
        match req_str(b, "url") {
            Ok(url) => {
                let text = match b.text_at("text") {
                    Some(t) => copy_text(t),
                    None => copy_text(url),
                };
                Ok(single(DocCmd::Link { url: copy_text(url), text }))
            },
            Err(e) => Err(e),
        }
    } else if same(k, "table") {
        Ok(single(DocCmd::Table(make_table_rows(b))))
    } else if same(k, "image") {
        match req_str(b, "path") {
            Ok(path) => {
                let size = match (b.u64_at("width"), b.u64_at("height")) {
                    (Some(w), Some(h)) => Some((to_emu(w), to_emu(h))),
                    _ => None,
                };
                Ok(single(DocCmd::Image(copy_text(path), size)))
            },
            Err(e) => Err(e),
        }
    } else if same(k, "pagebreak") {
        Ok(single(DocCmd::PageBreak))
    } else if same(k, "heading") {
        let level: u64 = match b.u64_at("level") {
            Some(v) => if v < 1 {
                1
            } else if v > 9 {
                9
            } else {
                v
            },
            None => 1,
        };
        Ok(single(DocCmd::Heading(level, docx_para(b))))
    } else {
        Ok(single(DocCmd::Para(docx_para(b))))
    }
}

fn any_list(blocks: &Vec<Value>) -> (r: bool)
    ensures
        r == has_list(blocks.deep_view()),
{
    let mut i: usize = 0;
    while i < blocks.len()
        invariant
            i <= blocks@.len(),
            forall|k: int|
                0 <= k < i ==> as_text(field(#[trigger] blocks.deep_view()[k], "kind"@)) != Some(
                    "list"@,
                ),
        decreases blocks@.len() - i,
    {
        assert(blocks.deep_view()[i as int] == blocks@[i as int].deep_view());
        match blocks[i].text_at("kind") {
            Some(k) => {
                if same(k, "list") {
                    return true;
                }
            },
            None => {},
        }
        i = i + 1;
    }
    false
}

fn add_cmd(out: &mut Vec<DocCmd>, c: Option<DocCmd>)
    ensures
        final(out).deep_view() == old(out).deep_view() + (match c {
            Some(x) => seq![x.deep_view()],
            None => Seq::empty(),
        }),
{
    let ghost before = out.deep_view();
    match c {
        Some(x) => {
            push_deep(out, x);
            assert(out.deep_view() =~= before + seq![x.deep_view()]);
        },
        None => {
            assert(out.deep_view() =~= before + Seq::<DocCmdView>::empty());
        },
    }
}

fn make_frame(blocks: &Vec<Value>, opts: &Value) -> (r: Vec<DocCmd>)
    ensures
        r.deep_view() == frame_cmds(blocks.deep_view(), opts.deep_view()),
{
    let mut out: Vec<DocCmd> = Vec::new();
    let size = match pair_at(opts, "page_size") {
        Some(p) => Some(DocCmd::PageSize(p.0 as u32, p.1 as u32)),
        None => None,
    };
    add_cmd(&mut out, size);
    assert(out.deep_view() =~= (match pair_of(field(opts.deep_view(), "page_size"@)) {
        Some(p) => seq![DocCmdView::PageSize(p.0 as u32, p.1 as u32)],
        None => Seq::empty(),
    }));
    add_cmd(
        &mut out,
        if any_list(blocks) {
            Some(DocCmd::DefineLists)
        } else {
            None
        },
    );
    add_cmd(
        &mut out,
        match copy_at(opts, "header") {
            Some(h) => Some(DocCmd::Header(h)),
            None => None,
        },
    );
    let footer = copy_at(opts, "footer");
    let pages = set_at(opts, "page_numbers");
    add_cmd(
        &mut out,
        if footer.is_some() || pages {
            Some(DocCmd::Footer(footer, pages))
        } else {
            None
        },
    );
    out
}

/// The plan of a document made of blocks: the frame first, then the blocks.
pub fn write_docx(blocks: &Vec<Value>, opts: &Value) -> (r: DocPlan)
    ensures
        r.cmds.deep_view() == frame_cmds(blocks.deep_view(), opts.deep_view()) + blocks_cmds(
            blocks.deep_view(),
            blocks@.len(),
        ).0,
        opt_text(r.error) == blocks_cmds(blocks.deep_view(), blocks@.len()).1,
{
    let mut body: Vec<DocCmd> = Vec::new();
    let mut error: Option<String> = None;
    let mut i: usize = 0;
    assert(body.deep_view() =~= Seq::<DocCmdView>::empty());
    while i < blocks.len()
        invariant
            i <= blocks@.len(),
            (body.deep_view(), opt_text(error)) == blocks_cmds(blocks.deep_view(), i as nat),
        decreases blocks@.len() - i,
    {
        assert(blocks.deep_view()[i as int] == blocks@[i as int].deep_view());
        if error.is_none() {
            match make_block(&blocks[i]) {
                Ok(cmds) => {
                    append_deep(&mut body, cmds);
                },
                Err(e) => {
                    error = Some(e);
                },
            }
        }
        i = i + 1;
    }
    let mut cmds = make_frame(blocks, opts);
    append_deep(&mut cmds, body);
    DocPlan { cmds, error }
}

} // verus!
