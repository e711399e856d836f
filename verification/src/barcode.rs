//! Barcodes and QR codes: what is encoded, and the images that are drawn of it.

use crate::color::{background_of, color_of, parse_color, read_background, Pixel};
use crate::raster::{build, picture, Image, Picture};
use crate::text::{
    all_digits, char_upper, chars_of, concat2, copy_text, is_digit, lower, same, upper, upper_char,
};
use crate::value::{as_text, as_u64, field, Json, Value};
use vstd::prelude::*;

verus! {

// ── QR codes ────────────────────────────────────────────────────────────────

/// How much of a QR code may be damaged.
#[derive(PartialEq, Eq, Structural, Clone, Copy)]
pub enum Level {
    L,
    M,
    Q,
    H,
}

/// The level that options ask for: `M` unless they name another.
pub open spec fn wanted_level(opts: Json) -> Level {
    match as_text(field(opts, "ec"@)) {
        Some(t) => if upper(t) == "L"@ {
            Level::L
        } else if upper(t) == "Q"@ {
            Level::Q
        } else if upper(t) == "H"@ {
            Level::H
        } else {
            Level::M
        },
        None => Level::M,
    }
}

pub fn read_level(opts: &Value) -> (r: Level)
    ensures
        r == wanted_level(opts.deep_view()),
{
    match opts.text_at("ec") {
        Some(t) => {
            let u = crate::text::ascii_upper(t);
            if same(u.as_str(), "L") {
                Level::L
            } else if same(u.as_str(), "Q") {
                Level::Q
            } else if same(u.as_str(), "H") {
                Level::H
            } else {
                Level::M
            }
        },
        None => Level::M,
    }
}

/// The width of the quiet zone: `quiet`, else `border`, else 4 modules.
pub open spec fn wanted_quiet(opts: Json) -> u32 {
    let v = match field(opts, "quiet"@) {
        Some(q) => Some(q),
        None => field(opts, "border"@),
    };
    match as_u64(v) {
        Some(n) => (n % 0x1_0000_0000) as u32,
        None => 4,
    }
}

pub fn read_quiet(opts: &Value) -> (r: u32)
    ensures
        r == wanted_quiet(opts.deep_view()),
{
    let v = match opts.get("quiet") {
        Some(q) => q.as_u64(),
        None => opts.u64_at("border"),
    };
    match v {
        Some(n) => (n % 0x1_0000_0000) as u32,
        None => 4,
    }
}

/// The QR code of bytes: how many modules it has on a side, and which of them are dark, row
/// by row; or why there is none.
pub uninterp spec fn qr_matrix(data: Seq<u8>, level: Level) -> Result<
    (nat, Seq<bool>),
    Seq<char>,
>;

/// `qrcode::QrCode::with_error_correction_level`, with `width` and `to_colors`: a square
/// of at most 177 modules on a side.
#[verifier::external_body]
fn qr_modules(data: &[u8], level: Level) -> (r: Result<(usize, Vec<bool>), String>)
    ensures
        match r {
            Ok(p) => {
                &&& qr_matrix(data@, level) == Ok::<(nat, Seq<bool>), Seq<char>>((p.0 as nat, p.1@))
                &&& p.0 <= 177
                &&& p.1@.len() == p.0 * p.0
            },
            Err(e) => qr_matrix(data@, level) == Err::<(nat, Seq<bool>), Seq<char>>(e@),
        },
{
    let ec = match level {
        Level::L => qrcode::EcLevel::L,
        Level::M => qrcode::EcLevel::M,
        Level::Q => qrcode::EcLevel::Q,
        Level::H => qrcode::EcLevel::H,
    };
    let code = qrcode::QrCode::with_error_correction_level(data, ec).map_err(|e| e.to_string())?;
    let dark = code.to_colors().into_iter().map(|c| c == qrcode::Color::Dark).collect();
    Ok((code.width(), dark))
}

/// Whether the module under a pixel is dark; the quiet zone is not.
pub open spec fn is_dark(n: int, modules: Seq<bool>, scale: int, quiet: int, x: int, y: int) -> bool {
    let mx = x / scale - quiet;
    let my = y / scale - quiet;
    0 <= mx < n && 0 <= my < n && modules[my * n + mx]
}

/// The picture of a QR code.
pub open spec fn qr_picture(
    n: nat,
    modules: Seq<bool>,
    scale: nat,
    quiet: nat,
    fg: Pixel,
    bg: Pixel,
) -> Picture {
    let side = (n + 2 * quiet) * scale;
    picture(
        side,
        side,
        |x: int, y: int|
            if is_dark(n as int, modules, scale as int, quiet as int, x, y) {
                fg
            } else {
                bg
            },
    )
}

fn find_dark(n: usize, modules: &Vec<bool>, scale: u32, quiet: u32, x: usize, y: usize) -> (r: bool)
    requires
        scale > 0,
        n <= 177,
        modules@.len() == n * n,
    ensures
        r == is_dark(n as int, modules@, scale as int, quiet as int, x as int, y as int),
{
    let kx: usize = x / scale as usize;
    let ky: usize = y / scale as usize;
    let q: usize = quiet as usize;
    if kx < q || ky < q {
        return false;
    }
    let mx: usize = kx - q;
    let my: usize = ky - q;
    if mx >= n || my >= n {
        return false;
    }
    assert(my * n + mx < n * n && my * n <= 177 * 177) by (nonlinear_arith)
        requires
            mx < n,
            my < n,
            n <= 177,
    ;
    modules[my * n + mx]
}

/// Draws a QR code: its modules as squares, with a quiet zone round them.
pub fn qr_image(n: usize, modules: &Vec<bool>, scale: u32, quiet: u32, fg: Pixel, bg: Pixel) -> (r:
    Image)
    requires
        scale > 0,
        n <= 177,
        modules@.len() == n * n,
        (n + 2 * quiet) * scale <= u32::MAX,
    ensures
        r.wf(),
        r.width == (n + 2 * quiet) * scale,
        r@ == qr_picture(n as nat, modules@, scale as nat, quiet as nat, fg, bg),
{
    assert((n + 2 * quiet) * scale >= n + 2 * quiet) by (nonlinear_arith)
        requires
            scale > 0,
    ;
    let across: u32 = n as u32 + 2 * quiet;
    let side: u32 = across * scale;
    let f = |x: usize, y: usize| -> (p: Pixel)
        requires
            scale > 0,
            n <= 177,
            modules@.len() == n * n,
        ensures
            p == (if is_dark(n as int, modules@, scale as int, quiet as int, x as int, y as int) {
                fg
            } else {
                bg
            }),
        {
            if find_dark(n, modules, scale, quiet, x, y) {
                fg
            } else {
                bg
            }
        };
    let ghost g = |x: int, y: int|
        if is_dark(n as int, modules@, scale as int, quiet as int, x, y) {
            fg
        } else {
            bg
        };
    let r = build(side, side, &f, Ghost(g));
    proof {
        let want = qr_picture(n as nat, modules@, scale as nat, quiet as nat, fg, bg);
        assert(want.len() == side);
        assert forall|y: int| 0 <= y < r@.len() implies r@[y] == want[y] by {
            assert(r@[y] =~= want[y]);
        }
        assert(r@ =~= want);
    }
    r
}

/// Draws the QR code of a text; also says how many modules it has on a side. There is no
/// image where it would be too large.
pub fn op_barcode_qr(
    data: &str,
    level: Level,
    scale: u32,
    quiet: u32,
    fg: Pixel,
    bg: Pixel,
) -> (r: Result<Option<(Image, usize)>, String>)
    requires
        scale > 0,
    ensures
        match (r, qr_matrix(vstd::utf8::encode_utf8(data@), level)) {
            (Err(e), Err(m)) => e@ == "qr: "@ + m,
            (Ok(Some(p)), Ok(q)) => {
                &&& (q.0 + 2 * quiet) * scale <= u32::MAX
                &&& p.1 == q.0
                &&& p.0.wf()
                &&& p.0@ == qr_picture(q.0, q.1, scale as nat, quiet as nat, fg, bg)
            },
            (Ok(None), Ok(q)) => (q.0 + 2 * quiet) * scale > u32::MAX,
            _ => false,
        },
{
    let bytes = crate::container::bytes_of_text(data);
    match qr_modules(bytes.as_slice(), level) {
        Err(e) => Err(concat2("qr: ", e.as_str())),
        Ok(p) => {
            let (n, modules) = p;
            let across: u64 = n as u64 + 2 * (quiet as u64);
            assert(across * scale <= 0x3_0000_0000 * 0x1_0000_0000) by (nonlinear_arith)
                requires
                    across <= 0x3_0000_0000,
                    scale <= 0x1_0000_0000,
            ;
            let side: u128 = across as u128 * scale as u128;
            if side > u32::MAX as u128 {
                return Ok(None);
            }
            Ok(Some((qr_image(n, &modules, scale, quiet, fg, bg), n)))
        },
    }
}

// ── linear codes ────────────────────────────────────────────────────────────

/// The bars of a text in Code 128, or why there are none.
pub uninterp spec fn code128_bars(s: Seq<char>) -> Result<Seq<u8>, Seq<char>>;

/// The bars of a text in Code 39.
pub uninterp spec fn code39_bars(s: Seq<char>) -> Result<Seq<u8>, Seq<char>>;

/// The bars of a text in Code 93.
pub uninterp spec fn code93_bars(s: Seq<char>) -> Result<Seq<u8>, Seq<char>>;

/// The bars of a text in Code 11.
pub uninterp spec fn code11_bars(s: Seq<char>) -> Result<Seq<u8>, Seq<char>>;

/// The bars of a text in Codabar.
pub uninterp spec fn codabar_bars(s: Seq<char>) -> Result<Seq<u8>, Seq<char>>;

/// The bars of a number in EAN-13.
pub uninterp spec fn ean13_bars(s: Seq<char>) -> Result<Seq<u8>, Seq<char>>;

/// The bars of a number in EAN-8.
pub uninterp spec fn ean8_bars(s: Seq<char>) -> Result<Seq<u8>, Seq<char>>;

/// The bars of a number in interleaved 2 of 5.
pub uninterp spec fn itf_bars(s: Seq<char>) -> Result<Seq<u8>, Seq<char>>;

/// The bars of a number in standard 2 of 5.
pub uninterp spec fn stf_bars(s: Seq<char>) -> Result<Seq<u8>, Seq<char>>;

pub open spec fn res_bars(r: Result<Vec<u8>, String>) -> Result<Seq<u8>, Seq<char>> {
    match r {
        Ok(v) => Ok(v@),
        Err(e) => Err(e@),
    }
}

/// The value of a character in a set of Code 128, where the set has it.
pub open spec fn code128_value(set: char, c: char) -> Option<nat> {
    let n = c as nat;
    if set == '\u{0106}' {
        if c == '\u{0181}' {
            Some(100)
        } else if c == '\u{00C0}' {
            Some(101)
        } else if c == '\u{0179}' {
            Some(102)
        } else {
            None
        }
    } else if c == '\u{017B}' {
        Some(96)
    } else if c == '\u{017A}' {
        Some(97)
    } else if c == '\u{017D}' {
        Some(98)
    } else if c == '\u{0106}' {
        Some(99)
    } else if c == '\u{0179}' {
        Some(102)
    } else if set == '\u{00C0}' {
        if n < 32 {
            Some(n + 64)
        } else if n < 96 {
            Some((n - 32) as nat)
        } else if c == '\u{0181}' {
            Some(100)
        } else if c == '\u{017C}' {
            Some(101)
        } else {
            None
        }
    } else {
        if 32 <= n < 127 {
            Some((n - 32) as nat)
        } else if c == '\u{00F7}' {
            Some(95)
        } else if c == '\u{017C}' {
            Some(100)
        } else if c == '\u{00C0}' {
            Some(101)
        } else {
            None
        }
    }
}

/// What has been read of a Code 128 text: the set, the first digit of an open pair, how many
/// values there are, and their sum, each times its place.
#[verifier::ext_equal]
pub struct Code128Sum {
    pub set: char,
    pub carry: Option<nat>,
    pub count: nat,
    pub sum: nat,
}

pub open spec fn code128_next(st: Code128Sum, c: char) -> Option<Code128Sum> {
    if st.set == '\u{0106}' && is_digit(c) {
        let d = (c as nat - 48) as nat;
        match st.carry {
            None => Some(Code128Sum { carry: Some(d), ..st }),
            Some(n) => Some(
                Code128Sum {
                    set: st.set,
                    carry: None,
                    count: st.count + 1,
                    sum: st.sum + (10 * n + d) * st.count,
                },
            ),
        }
    } else if is_selector(c) && st.set == '\u{0106}' && st.carry is Some {
        None
    } else {
        match code128_value(st.set, c) {
            Some(v) => Some(
                Code128Sum {
                    set: if is_selector(c) {
                        c
                    } else {
                        st.set
                    },
                    carry: st.carry,
                    count: st.count + 1,
                    sum: st.sum + v * st.count,
                },
            ),
            None => None,
        }
    }
}

/// What has been read of a Code 128 text after its first `n` characters; nothing where it is
/// refused. The first one selects the set, and is worth 103 to 105.
pub open spec fn code128_sum(s: Seq<char>, n: nat) -> Option<Code128Sum>
    decreases n,
{
    if n == 0 || n > s.len() || !is_selector(s[0]) {
        None
    } else if n == 1 {
        let first: nat = if s[0] == '\u{00C0}' {
            103
        } else if s[0] == '\u{0181}' {
            104
        } else {
            105
        };
        Some(Code128Sum { set: s[0], carry: None, count: 1, sum: first })
    } else {
        match code128_sum(s, (n - 1) as nat) {
            Some(st) => code128_next(st, s[n - 1]),
            None => None,
        }
    }
}

/// Whether the checksum of a Code 128 text, where it has one, is taken of a sum that fits 32
/// bits with a sign.
pub open spec fn has_code128_check(s: Seq<char>) -> bool {
    match code128_sum(s, s.len()) {
        Some(st) => st.carry is None ==> st.sum <= 0x7fff_ffff,
        None => true,
    }
}

/// The digits of a number below position `n`, added up: those at even places three times.
pub open spec fn itf_sum(s: Seq<char>, n: nat) -> nat
    decreases n,
{
    if n == 0 || n > s.len() {
        0
    } else {
        let d = (s[n - 1] as nat - 48) as nat;
        itf_sum(s, (n - 1) as nat) + if n % 2 == 1 {
            3 * d
        } else {
            d
        }
    }
}

/// Whether the check digit of an interleaved number, where it needs one, is taken of a sum
/// that fits eight bits.
pub open spec fn has_itf_check(s: Seq<char>) -> bool {
    s.len() % 2 == 0 || !all_digits(s) || itf_sum(s, s.len()) <= 255
}

/// `barcoders`' `Code128::new` and `encode`. Its checksum is computed in 32 bits, which
/// some long texts overflow.
#[verifier::external_body]
fn encode_code128(s: &str) -> (r: Result<Vec<u8>, String>)
    requires
        has_code128_check(s@),
    ensures
        res_bars(r) == code128_bars(s@),
{
    barcoders::sym::code128::Code128::new(s).map(|b| b.encode()).map_err(|e| e.to_string())
}

/// `barcoders`' `Code39::new` and `encode`.
#[verifier::external_body]
fn encode_code39(s: &str) -> (r: Result<Vec<u8>, String>)
    ensures
        res_bars(r) == code39_bars(s@),
{
    barcoders::sym::code39::Code39::new(s).map(|b| b.encode()).map_err(|e| e.to_string())
}

/// `barcoders`' `Code93::new` and `encode`.
#[verifier::external_body]
fn encode_code93(s: &str) -> (r: Result<Vec<u8>, String>)
    ensures
        res_bars(r) == code93_bars(s@),
{
    barcoders::sym::code93::Code93::new(s).map(|b| b.encode()).map_err(|e| e.to_string())
}

/// `barcoders`' `Code11::new` and `encode`.
#[verifier::external_body]
fn encode_code11(s: &str) -> (r: Result<Vec<u8>, String>)
    ensures
        res_bars(r) == code11_bars(s@),
{
    barcoders::sym::code11::Code11::new(s).map(|b| b.encode()).map_err(|e| e.to_string())
}

/// `barcoders`' `Codabar::new` and `encode`.
#[verifier::external_body]
fn encode_codabar(s: &str) -> (r: Result<Vec<u8>, String>)
    ensures
        res_bars(r) == codabar_bars(s@),
{
    barcoders::sym::codabar::Codabar::new(s).map(|b| b.encode()).map_err(|e| e.to_string())
}

/// `barcoders`' `EAN13::new` and `encode`.
#[verifier::external_body]
fn encode_ean13(s: &str) -> (r: Result<Vec<u8>, String>)
    ensures
        res_bars(r) == ean13_bars(s@),
{
    barcoders::sym::ean13::EAN13::new(s).map(|b| b.encode()).map_err(|e| e.to_string())
}

/// `barcoders`' `EAN8::new` and `encode`.
#[verifier::external_body]
fn encode_ean8(s: &str) -> (r: Result<Vec<u8>, String>)
    ensures
        res_bars(r) == ean8_bars(s@),
{
    barcoders::sym::ean8::EAN8::new(s).map(|b| b.encode()).map_err(|e| e.to_string())
}

/// `barcoders`' `TF::interleaved` and `encode`. A number of an odd length gets a check
/// digit, which is computed in eight bits: some longer numbers overflow them.
#[verifier::external_body]
fn encode_itf(s: &str) -> (r: Result<Vec<u8>, String>)
    requires
        has_itf_check(s@),
    ensures
        res_bars(r) == itf_bars(s@),
{
    barcoders::sym::tf::TF::interleaved(s).map(|b| b.encode()).map_err(|e| e.to_string())
}

/// `barcoders`' `TF::standard` and `encode`.
#[verifier::external_body]
fn encode_stf(s: &str) -> (r: Result<Vec<u8>, String>)
    ensures
        res_bars(r) == stf_bars(s@),
{
    barcoders::sym::tf::TF::standard(s).map(|b| b.encode()).map_err(|e| e.to_string())
}

/// Whether a character selects a character set of Code 128.
pub open spec fn is_selector(c: char) -> bool {
    c == '\u{00C0}' || c == '\u{0181}' || c == '\u{0106}'
}

/// What Code 128 is to encode: the text, with a selector before it unless it has one.
pub open spec fn code128_payload(data: Seq<char>, set: char) -> Seq<char> {
    if data.len() > 0 && is_selector(data[0]) {
        data
    } else {
        seq![set] + data
    }
}

pub open spec fn is_code128(sym: Seq<char>) -> bool {
    sym == "code128"@ || sym == "128"@
}

pub open spec fn is_itf(sym: Seq<char>) -> bool {
    sym == "itf"@ || sym == "interleaved"@ || sym == "i2of5"@
}

/// Names the encoder in its complaint.
pub open spec fn complaint(r: Result<Seq<u8>, Seq<char>>) -> Result<Seq<u8>, Seq<char>> {
    match r {
        Ok(v) => Ok(v),
        Err(e) => Err("barcode: "@ + e),
    }
}

/// The bars of a text in a symbology, or why there are none. UPC-A is EAN-13 with a zero
/// before it.
pub open spec fn bars_of(sym: Seq<char>, data: Seq<char>, set: char) -> Result<
    Seq<u8>,
    Seq<char>,
> {
    if is_code128(sym) {
        complaint(code128_bars(code128_payload(data, set)))
    } else if sym == "code39"@ || sym == "39"@ {
        complaint(code39_bars(data))
    } else if sym == "code93"@ || sym == "93"@ {
        complaint(code93_bars(data))
    } else if sym == "code11"@ || sym == "11"@ {
        complaint(code11_bars(data))
    } else if sym == "codabar"@ {
        complaint(codabar_bars(data))
    } else if sym == "ean13"@ || sym == "ean"@ {
        complaint(ean13_bars(data))
    } else if sym == "ean8"@ {
        complaint(ean8_bars(data))
    } else if sym == "upca"@ || sym == "upc"@ || sym == "upc-a"@ {
        complaint(ean13_bars("0"@ + data))
    } else if is_itf(sym) {
        complaint(itf_bars(data))
    } else if sym == "std2of5"@ || sym == "2of5"@ || sym == "tf"@ {
        complaint(stf_bars(data))
    } else {
        Err("unknown symbology: "@ + sym)
    }
}

fn complain(r: Result<Vec<u8>, String>) -> (o: Result<Vec<u8>, String>)
    ensures
        res_bars(o) == complaint(res_bars(r)),
{
    match r {
        Ok(v) => Ok(v),
        Err(e) => Err(concat2("barcode: ", e.as_str())),
    }
}

/// Whether a text can be encoded without its checksum overflowing.
pub open spec fn is_encodable(sym: Seq<char>, data: Seq<char>, set: char) -> bool {
    &&& is_code128(sym) ==> has_code128_check(code128_payload(data, set))
    &&& is_itf(sym) ==> has_itf_check(data)
}

fn value_in_set(set: char, c: char) -> (r: Option<u64>)
    ensures
        match r {
            Some(v) => code128_value(set, c) == Some(v as nat) && v <= 102,
            None => code128_value(set, c) is None,
        },
{
    let n: u64 = c as u64;
    if set == '\u{0106}' {
        if c == '\u{0181}' {
            Some(100)
        } else if c == '\u{00C0}' {
            Some(101)
        } else if c == '\u{0179}' {
            Some(102)
        } else {
            None
        }
    } else if c == '\u{017B}' {
        Some(96)
    } else if c == '\u{017A}' {
        Some(97)
    } else if c == '\u{017D}' {
        Some(98)
    } else if c == '\u{0106}' {
        Some(99)
    } else if c == '\u{0179}' {
        Some(102)
    } else if set == '\u{00C0}' {
        if n < 32 {
            Some(n + 64)
        } else if n < 96 {
            Some(n - 32)
        } else if c == '\u{0181}' {
            Some(100)
        } else if c == '\u{017C}' {
            Some(101)
        } else {
            None
        }
    } else {
        if 32 <= n && n < 127 {
            Some(n - 32)
        } else if c == '\u{00F7}' {
            Some(95)
        } else if c == '\u{017C}' {
            Some(100)
        } else if c == '\u{00C0}' {
            Some(101)
        } else {
            None
        }
    }
}

proof fn lemma_refused(s: Seq<char>, i: nat, n: nat)
    requires
        i <= n <= s.len(),
        code128_sum(s, i) is None,
        i > 0,
    ensures
        code128_sum(s, n) is None,
    decreases n - i,
{
    if i < n {
        lemma_refused(s, i, (n - 1) as nat);
    }
}

/// One value more: the sum, or that it is too large.
fn add_value(sum: u64, v: u64, count: u64) -> (r: u64)
    requires
        sum <= 0x8000_0000,
        v <= 105,
    ensures
        r <= 0x8000_0000,
        r == if sum + v * count <= 0x7fff_ffff {
            sum + v * count
        } else {
            0x8000_0000
        },
{
    assert(0 <= v * count <= 105 * 0xffff_ffff_ffff_ffff) by (nonlinear_arith)
        requires
            0 <= v <= 105,
            0 <= count <= 0xffff_ffff_ffff_ffff,
    ;
    let all: u128 = sum as u128 + v as u128 * count as u128;
    if all <= 0x7fff_ffff {
        all as u64
    } else {
        0x8000_0000
    }
}

fn check_code128(cs: &Vec<char>) -> (r: bool)
    ensures
        r == has_code128_check(cs@),
{
    if cs.len() == 0 || !(cs[0] == '\u{00C0}' || cs[0] == '\u{0181}' || cs[0] == '\u{0106}') {
        return true;
    }
    let mut set: char = cs[0];
    let mut carry: Option<u64> = None;
    let mut sum: u64 = if set == '\u{00C0}' {
        103
    } else if set == '\u{0181}' {
        104
    } else {
        105
    };
    let mut count: u64 = 1;
    let mut i: usize = 1;
    while i < cs.len()
        invariant
            1 <= i <= cs@.len(),
            count <= i,
            sum <= 0x8000_0000,
            is_selector(cs@[0]),
            match code128_sum(cs@, i as nat) {
                Some(st) => {
                    &&& st.set == set
                    &&& st.count == count
                    &&& match carry {
                        Some(d) => st.carry == Some(d as nat) && d <= 9,
                        None => st.carry is None,
                    }
                    &&& sum == if st.sum <= 0x7fff_ffff {
                        st.sum
                    } else {
                        0x8000_0000
                    }
                },
                None => false,
            },
        decreases cs@.len() - i,
    {
        let ghost st = code128_sum(cs@, i as nat)->0;
        let c = cs[i];
        let picks = c == '\u{00C0}' || c == '\u{0181}' || c == '\u{0106}';
        if set == '\u{0106}' && '0' <= c && c <= '9' {
            let d: u64 = c as u64 - 48;
            match carry {
                None => {
                    carry = Some(d);
                },
                Some(n) => {
                    assert((10 * n + d) * count >= 0) by (nonlinear_arith);
                    sum = add_value(sum, 10 * n + d, count);
                    count = count + 1;
                    carry = None;
                },
            }
        } else if picks && set == '\u{0106}' && carry.is_some() {
            proof {
                lemma_refused(cs@, (i + 1) as nat, cs@.len());
            }
            return true;
        } else {
            match value_in_set(set, c) {
                Some(v) => {
                    assert(v * count >= 0) by (nonlinear_arith);
                    sum = add_value(sum, v, count);
                    count = count + 1;
                    if picks {
                        set = c;
                    }
                },
                None => {
                    proof {
                        lemma_refused(cs@, (i + 1) as nat, cs@.len());
                    }
                    return true;
                },
            }
        }
        i = i + 1;
    }
    carry.is_some() || sum <= 0x7fff_ffff
}

fn check_itf(cs: &Vec<char>) -> (r: bool)
    ensures
        r == has_itf_check(cs@),
{
    if cs.len() % 2 == 0 {
        return true;
    }
    let mut sum: u64 = 0;
    let mut i: usize = 0;
    while i < cs.len()
        invariant
            i <= cs@.len(),
            forall|k: int| 0 <= k < i ==> is_digit(#[trigger] cs@[k]),
            sum <= 256,
            sum == if itf_sum(cs@, i as nat) <= 255 {
                itf_sum(cs@, i as nat)
            } else {
                256
            },
        decreases cs@.len() - i,
    {
        if cs[i] < '0' || cs[i] > '9' {
            assert(!is_digit(cs@[i as int]));
            return true;
        }
        let d: u64 = cs[i] as u64 - 48;
        let all: u64 = sum + if i % 2 == 0 {
            3 * d
        } else {
            d
        };
        sum = if all <= 255 {
            all
        } else {
            256
        };
        i = i + 1;
    }
    sum <= 255
}

pub fn encodable(sym: &str, data: &str, set: char) -> (r: bool)
    ensures
        r == is_encodable(sym@, data@, set),
{
    let cs = chars_of(data);
    if same(sym, "code128") || same(sym, "128") {
        if cs.len() > 0 && (cs[0] == '\u{00C0}' || cs[0] == '\u{0181}' || cs[0] == '\u{0106}') {
            if !check_code128(&cs) {
                return false;
            }
        } else {
            let mut payload: Vec<char> = Vec::new();
            payload.push(set);
            let mut i: usize = 0;
            assert(payload@ =~= seq![set] + cs@.take(0));
            while i < cs.len()
                invariant
                    i <= cs@.len(),
                    payload@ == seq![set] + cs@.take(i as int),
                decreases cs@.len() - i,
            {
                payload.push(cs[i]);
                i = i + 1;
                assert(payload@ =~= seq![set] + cs@.take(i as int));
            }
            assert(cs@.take(i as int) =~= cs@);
            if !check_code128(&payload) {
                return false;
            }
        }
    }
    !(same(sym, "itf") || same(sym, "interleaved") || same(sym, "i2of5")) || check_itf(&cs)
}

/// The bars of a text in a symbology.
pub fn encode_1d(sym: &str, data: &str, set: char) -> (r: Result<Vec<u8>, String>)
    requires
        is_encodable(sym@, data@, set),
    ensures
        res_bars(r) == bars_of(sym@, data@, set),
{
    if same(sym, "code128") || same(sym, "128") {
        let cs = chars_of(data);
        let selected = cs.len() > 0 && (cs[0] == '\u{00C0}' || cs[0] == '\u{0181}' || cs[0]
            == '\u{0106}');
        if selected {
            complain(encode_code128(data))
        } else {
            let mut payload = String::new();
            payload.push(set);
            payload.push_str(data);
            assert(payload@ =~= seq![set] + data@);
            complain(encode_code128(payload.as_str()))
        }
    } else if same(sym, "code39") || same(sym, "39") {
        complain(encode_code39(data))
    } else if same(sym, "code93") || same(sym, "93") {
        complain(encode_code93(data))
    } else if same(sym, "code11") || same(sym, "11") {
        complain(encode_code11(data))
    } else if same(sym, "codabar") {
        complain(encode_codabar(data))
    } else if same(sym, "ean13") || same(sym, "ean") {
        complain(encode_ean13(data))
    } else if same(sym, "ean8") {
        complain(encode_ean8(data))
    } else if same(sym, "upca") || same(sym, "upc") || same(sym, "upc-a") {
        complain(encode_ean13(concat2("0", data).as_str()))
    } else if same(sym, "itf") || same(sym, "interleaved") || same(sym, "i2of5") {
        complain(encode_itf(data))
    } else if same(sym, "std2of5") || same(sym, "2of5") || same(sym, "tf") {
        complain(encode_stf(data))
    } else {
        Err(concat2("unknown symbology: ", sym))
    }
}

/// The selector of the character set that options name: that of set B unless they name A
/// or C.
pub open spec fn wanted_set(opts: Json) -> char {
    match as_text(field(opts, "set"@)) {
        Some(t) => if t.len() > 0 && upper_char(t[0]) == 'A' {
            '\u{00C0}'
        } else if t.len() > 0 && upper_char(t[0]) == 'C' {
            '\u{0106}'
        } else {
            '\u{0181}'
        },
        None => '\u{0181}',
    }
}

pub fn read_set(opts: &Value) -> (r: char)
    ensures
        r == wanted_set(opts.deep_view()),
{
    match opts.text_at("set") {
        Some(t) => {
            let cs = chars_of(t);
            if cs.len() > 0 && char_upper(cs[0]) == 'A' {
                '\u{00C0}'
            } else if cs.len() > 0 && char_upper(cs[0]) == 'C' {
                '\u{0106}'
            } else {
                '\u{0181}'
            }
        },
        None => '\u{0181}',
    }
}

/// The symbology that options name, in lower case: `symbology`, else `type`, else Code
/// 128.
pub open spec fn wanted_symbology(opts: Json) -> Seq<char> {
    let v = match field(opts, "symbology"@) {
        Some(s) => Some(s),
        None => field(opts, "type"@),
    };
    lower(
        match as_text(v) {
            Some(t) => t,
            None => "code128"@,
        },
    )
}

pub fn read_symbology(opts: &Value) -> (r: String)
    ensures
        r@ == wanted_symbology(opts.deep_view()),
{
    let v = match opts.get("symbology") {
        Some(s) => s.as_str(),
        None => opts.text_at("type"),
    };
    match v {
        Some(t) => crate::text::ascii_lower(t),
        None => crate::text::ascii_lower("code128"),
    }
}

/// Whether the bar over a column is dark.
pub open spec fn is_bar(bars: Seq<u8>, scale: int, quiet: int, x: int) -> bool {
    let k = (x - quiet) / scale;
    x >= quiet && k < bars.len() && bars[k] == 1
}

/// The picture of bars.
pub open spec fn bar_picture(
    bars: Seq<u8>,
    scale: nat,
    height: nat,
    quiet: nat,
    fg: Pixel,
    bg: Pixel,
) -> Picture {
    picture(
        bars.len() * scale + 2 * quiet,
        height,
        |x: int, y: int|
            if is_bar(bars, scale as int, quiet as int, x) {
                fg
            } else {
                bg
            },
    )
}

/// Draws bars over the whole height, with a quiet zone at both sides.
pub fn bar_image(bars: &Vec<u8>, scale: u32, height: u32, quiet: u32, fg: Pixel, bg: Pixel) -> (r:
    Image)
    requires
        scale > 0,
        bars@.len() * scale + 2 * quiet <= u32::MAX,
    ensures
        r.wf(),
        r.width == bars@.len() * scale + 2 * quiet,
        r@ == bar_picture(bars@, scale as nat, height as nat, quiet as nat, fg, bg),
{
    assert(bars@.len() * scale >= bars@.len()) by (nonlinear_arith)
        requires
            scale > 0,
    ;
    let n: u32 = bars.len() as u32;
    let w: u32 = n * scale + 2 * quiet;
    let f = |x: usize, y: usize| -> (p: Pixel)
        requires
            scale > 0,
        ensures
            p == (if is_bar(bars@, scale as int, quiet as int, x as int) {
                fg
            } else {
                bg
            }),
        {
            if x >= quiet as usize {
                let k: usize = (x - quiet as usize) / scale as usize;
                if k < bars.len() && bars[k] == 1 {
                    fg
                } else {
                    bg
                }
            } else {
                bg
            }
        };
    let ghost g = |x: int, y: int|
        if is_bar(bars@, scale as int, quiet as int, x) {
            fg
        } else {
            bg
        };
    let r = build(w, height, &f, Ghost(g));
    proof {
        let want = bar_picture(bars@, scale as nat, height as nat, quiet as nat, fg, bg);
        assert forall|y: int| 0 <= y < r@.len() implies r@[y] == want[y] by {
            assert(r@[y] =~= want[y]);
        }
        assert(r@ =~= want);
    }
    r
}

/// How bars are drawn.
pub struct BarStyle {
    pub scale: u32,
    pub height: u32,
    pub quiet: u32,
    pub fg: Pixel,
    pub bg: Pixel,
}

/// What drawing bars gives: nothing where the image would be too large.
pub open spec fn is_drawn_as(
    r: Result<Option<(Image, usize)>, String>,
    bars: Seq<u8>,
    st: BarStyle,
) -> bool {
    if bars.len() == 0 {
        r is Err && r->Err_0@ == "barcode: empty encoding"@
    } else if bars.len() * st.scale + 2 * st.quiet > u32::MAX {
        r == Ok::<Option<(Image, usize)>, String>(None)
    } else {
        match r {
            Ok(Some(p)) => p.1 == bars.len() && p.0.wf() && p.0@ == bar_picture(
                bars,
                st.scale as nat,
                st.height as nat,
                st.quiet as nat,
                st.fg,
                st.bg,
            ),
            _ => false,
        }
    }
}

/// Draws the bars that a text was encoded to; also says how many there are.
pub fn draw_bars(bars: &Vec<u8>, st: &BarStyle) -> (r: Result<Option<(Image, usize)>, String>)
    requires
        st.scale > 0,
    ensures
        is_drawn_as(r, bars@, *st),
{
    if bars.len() == 0 {
        return Err(copy_text("barcode: empty encoding"));
    }
    let n: u128 = bars.len() as u128;
    assert(n * st.scale <= 0x1_0000_0000_0000_0000 * 0x1_0000_0000) by (nonlinear_arith)
        requires
            n <= 0x1_0000_0000_0000_0000,
            st.scale <= 0x1_0000_0000,
    ;
    let w: u128 = n * st.scale as u128 + 2 * (st.quiet as u128);
    if w > u32::MAX as u128 {
        return Ok(None);
    }
    Ok(Some((bar_image(bars, st.scale, st.height, st.quiet, st.fg, st.bg), bars.len())))
}

/// Draws the barcode of a text; also says how many bars it has.
pub fn op_barcode_1d(sym: &str, data: &str, set: char, st: &BarStyle) -> (r: Result<
    Option<(Image, usize)>,
    String,
>)
    requires
        is_encodable(sym@, data@, set),
        st.scale > 0,
    ensures
        match bars_of(sym@, data@, set) {
            Err(e) => r is Err && r->Err_0@ == e,
            Ok(bars) => is_drawn_as(r, bars, *st),
        },
{
    match encode_1d(sym, data, set) {
        Err(e) => Err(e),
        Ok(bars) => draw_bars(&bars, st),
    }
}

/// A size in 32 bits that is at least 1.
pub open spec fn size_at(opts: Json, key: Seq<char>, default: u32) -> u32 {
    let n = match as_u64(field(opts, key)) {
        Some(n) => (n % 0x1_0000_0000) as u32,
        None => default,
    };
    if n < 1 {
        1
    } else {
        n
    }
}

pub fn read_scale(opts: &Value, key: &str, default: u32) -> (r: u32)
    ensures
        r == size_at(opts.deep_view(), key@, default),
        r >= 1,
{
    let n: u32 = match opts.u64_at(key) {
        Some(n) => (n % 0x1_0000_0000) as u32,
        None => default,
    };
    if n < 1 {
        1
    } else {
        n
    }
}

/// How bars are to be drawn. The quiet zone is ten narrow bars wide where nothing is said.
pub fn read_bar_style(opts: &Value) -> (st: BarStyle)
    ensures
        st.scale == size_at(opts.deep_view(), "scale"@, 2),
        st.scale >= 1,
        st.height == size_at(opts.deep_view(), "height"@, 80),
        st.quiet == (match as_u64(field(opts.deep_view(), "quiet"@)) {
            Some(n) => (n % 0x1_0000_0000) as u32,
            None => ((st.scale * 10) % 0x1_0000_0000) as u32,
        }),
        st.fg == color_of(field(opts.deep_view(), "fg"@)),
        st.bg == background_of(opts.deep_view(), "bg"@, "background"@),
{
    let scale = read_scale(opts, "scale", 2);
    let quiet: u32 = match opts.u64_at("quiet") {
        Some(n) => (n % 0x1_0000_0000) as u32,
        None => ((scale as u64 * 10) % 0x1_0000_0000) as u32,
    };
    BarStyle {
        scale,
        height: read_scale(opts, "height", 80),
        quiet,
        fg: parse_color(opts.get("fg")),
        bg: read_background(opts, "bg", "background"),
    }
}

// ── what a code looks like ──────────────────────────────────────────────────

proof fn lemma_within_step(k: int, step: int, d: int)
    requires
        0 <= d < step,
    ensures
        (k * step + d) / step == k,
{
    vstd::arithmetic::div_mod::lemma_fundamental_div_mod_converse(k * step + d, step, k, d);
}

/// Each module of a code is a square of its color behind the quiet zone: dark where the module
/// is set, and light where it is not.
pub proof fn modules_are_drawn_as_squares(
    n: nat,
    modules: Seq<bool>,
    scale: nat,
    quiet: nat,
    fg: Pixel,
    bg: Pixel,
    at: (int, int),
    d: (int, int),
)
    requires
        modules.len() == n * n,
        0 <= at.0 < n,
        0 <= at.1 < n,
        0 <= d.0 < scale,
        0 <= d.1 < scale,
    ensures
        qr_picture(n, modules, scale, quiet, fg, bg).len() == (n + 2 * quiet) * scale,
        ({
            let x = (quiet + at.0) * scale + d.0;
            let y = (quiet + at.1) * scale + d.1;
            let p = qr_picture(n, modules, scale, quiet, fg, bg);
            &&& 0 <= y < p.len()
            &&& 0 <= x < p[y].len()
            &&& p[y][x] == if modules[at.1 * n + at.0] {
                fg
            } else {
                bg
            }
        }),
{
    let x = (quiet + at.0) * scale + d.0;
    let y = (quiet + at.1) * scale + d.1;
    lemma_within_step(quiet + at.0, scale as int, d.0);
    lemma_within_step(quiet + at.1, scale as int, d.1);
    lemma_in_side(n, quiet, scale, at.0, d.0);
    lemma_in_side(n, quiet, scale, at.1, d.1);
}

proof fn lemma_in_side(n: nat, quiet: nat, scale: nat, k: int, d: int)
    requires
        0 <= k < n,
        0 <= d < scale,
    ensures
        0 <= (quiet + k) * scale + d < (n + 2 * quiet) * scale,
{
    assert(0 <= (quiet + k) * scale + d < (n + 2 * quiet) * scale) by (nonlinear_arith)
        requires
            0 <= k < n,
            0 <= d < scale,
            quiet >= 0,
    ;
}

/// The quiet zone round a code is light on all four sides.
pub proof fn quiet_zones_are_light(
    n: nat,
    modules: Seq<bool>,
    scale: nat,
    quiet: nat,
    fg: Pixel,
    bg: Pixel,
    x: int,
    y: int,
)
    requires
        scale > 0,
        0 <= x < (n + 2 * quiet) * scale,
        0 <= y < (n + 2 * quiet) * scale,
        x < quiet * scale || y < quiet * scale || x >= (quiet + n) * scale || y >= (quiet + n)
            * scale,
    ensures
        qr_picture(n, modules, scale, quiet, fg, bg)[y][x] == bg,
{
    lemma_outside(n, quiet, scale, x);
    lemma_outside(n, quiet, scale, y);
}

proof fn lemma_outside(n: nat, quiet: nat, scale: nat, x: int)
    requires
        scale > 0,
        0 <= x,
    ensures
        x < quiet * scale ==> x / (scale as int) < quiet,
        x >= (quiet + n) * scale ==> x / (scale as int) >= quiet + n,
{
    let q = x / (scale as int);
    vstd::arithmetic::div_mod::lemma_fundamental_div_mod(x, scale as int);
    let r = x % (scale as int);
    if q >= quiet {
        assert(x >= quiet * scale) by (nonlinear_arith)
            requires
                x == scale * q + r,
                0 <= r,
                q >= quiet,
                scale > 0,
        ;
    }
    if q < quiet + n {
        assert(x < (quiet + n) * scale) by (nonlinear_arith)
            requires
                x == scale * q + r,
                r < scale,
                q + 1 <= quiet + n,
                scale > 0,
        ;
    }
}

/// Each bar is a stripe over the whole height behind the quiet zone: dark where the bar is, and
/// light in the gaps and in the quiet zones on both sides.
pub proof fn bars_are_drawn_as_stripes(
    bars: Seq<u8>,
    scale: nat,
    height: nat,
    quiet: nat,
    fg: Pixel,
    bg: Pixel,
    k: int,
    d: int,
    y: int,
)
    requires
        0 <= k < bars.len(),
        0 <= d < scale,
        0 <= y < height,
    ensures
        ({
            let p = bar_picture(bars, scale, height, quiet, fg, bg);
            &&& p.len() == height
            &&& p[y].len() == bars.len() * scale + 2 * quiet
            &&& quiet + k * scale + d < p[y].len()
            &&& p[y][quiet + k * scale + d] == if bars[k] == 1 {
                fg
            } else {
                bg
            }
            &&& forall|x: int|
                0 <= x < quiet || quiet + bars.len() * scale <= x < p[y].len() ==> #[trigger]
                    p[y][x] == bg
        }),
{
    let p = bar_picture(bars, scale, height, quiet, fg, bg);
    let x = quiet + k * scale + d;
    assert(0 <= k * scale && k * scale + d < bars.len() * scale) by (nonlinear_arith)
        requires
            0 <= k < bars.len(),
            0 <= d < scale,
    ;
    lemma_within_step(k, scale as int, d);
    assert forall|x: int|
        0 <= x < quiet || quiet + bars.len() * scale <= x < p[y].len() implies #[trigger] p[y][x]
        == bg by {
        if x >= quiet {
            lemma_outside(bars.len(), 0, scale, x - quiet);
        }
    }
}

/// UPC-A is EAN-13 with a zero before it, whatever it is called.
pub proof fn upc_is_ean_with_a_zero(data: Seq<char>, set: char)
    ensures
        bars_of("upca"@, data, set) == bars_of("ean13"@, "0"@ + data, set),
        bars_of("upc"@, data, set) == bars_of("ean13"@, "0"@ + data, set),
        bars_of("ean"@, data, set) == bars_of("ean13"@, data, set),
{
    reveal_strlit("code128");
    reveal_strlit("128");
    reveal_strlit("code39");
    reveal_strlit("39");
    reveal_strlit("code93");
    reveal_strlit("93");
    reveal_strlit("code11");
    reveal_strlit("11");
    reveal_strlit("codabar");
    reveal_strlit("ean13");
    reveal_strlit("ean");
    reveal_strlit("ean8");
    reveal_strlit("upca");
    reveal_strlit("upc");
    assert("128"@[0] == '1' && "code128"@.len() == 7 && "code39"@.len() == 6 && "code93"@.len()
        == 6 && "code11"@.len() == 6 && "39"@.len() == 2 && "93"@.len() == 2 && "11"@.len() == 2);
    assert("codabar"@.len() == 7 && "ean13"@.len() == 5 && "ean"@.len() == 3 && "ean8"@.len() == 4);
    assert("upca"@.len() == 4 && "upc"@.len() == 3);
    assert("ean"@[0] == 'e' && "upc"@[0] == 'u' && "upca"@[0] == 'u' && "ean8"@[0] == 'e');
}

} // verus!
