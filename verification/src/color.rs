//! Colors of pixels, and how options write them.

use crate::container::bytes_of_text;
use crate::value::{as_u64, field, opt_json, Json, Num, Value};
use vstd::prelude::*;
use vstd::utf8::encode_utf8;

verus! {

/// A pixel: red, green, blue and opacity.
#[derive(PartialEq, Eq, Structural, Clone, Copy)]
pub struct Pixel {
    pub r: u8,
    pub g: u8,
    pub b: u8,
    pub a: u8,
}

/// Opaque black.
pub open spec fn black() -> Pixel {
    Pixel { r: 0, g: 0, b: 0, a: 255 }
}

/// Opaque white.
pub open spec fn white() -> Pixel {
    Pixel { r: 255, g: 255, b: 255, a: 255 }
}

/// The value of a hexadecimal digit.
pub open spec fn hex_of_byte(b: u8) -> Option<u8> {
    if 0x30 <= b <= 0x39 {
        Some((b - 0x30) as u8)
    } else if 0x41 <= b <= 0x46 {
        Some((b - 0x41 + 10) as u8)
    } else if 0x61 <= b <= 0x66 {
        Some((b - 0x61 + 10) as u8)
    } else {
        None
    }
}

fn byte_hex(b: u8) -> (r: Option<u8>)
    ensures
        r == hex_of_byte(b),
        r is Some ==> r->0 < 16,
{
    if b >= 0x30 && b <= 0x39 {
        Some(b - 0x30)
    } else if b >= 0x41 && b <= 0x46 {
        Some(b - 0x41 + 10)
    } else if b >= 0x61 && b <= 0x66 {
        Some(b - 0x61 + 10)
    } else {
        None
    }
}

/// The number that the two bytes at `i` write in hexadecimal, with a plus sign in place of
/// the first digit allowed; 0 where they write none.
pub open spec fn hex_pair(bytes: Seq<u8>, i: int) -> u8 {
    if i < 0 || i + 2 > bytes.len() {
        0
    } else {
        match (hex_of_byte(bytes[i]), hex_of_byte(bytes[i + 1])) {
            (Some(h), Some(l)) => (h * 16 + l) as u8,
            (None, Some(l)) => if bytes[i] == 0x2b {
                l
            } else {
                0
            },
            _ => 0,
        }
    }
}

fn read_pair(bytes: &Vec<u8>, i: usize) -> (r: u8)
    requires
        i + 2 <= bytes@.len(),
    ensures
        r == hex_pair(bytes@, i as int),
{
    let total: usize = bytes.len();
    assert(i + 2 <= total);
    match (byte_hex(bytes[i]), byte_hex(bytes[i + 1])) {
        (Some(h), Some(l)) => h * 16 + l,
        (None, Some(l)) => if bytes[i] == 0x2b {
            l
        } else {
            0
        },
        _ => 0,
    }
}

/// How many hash signs stand at the start, from `i` on.
pub open spec fn hashes_end(bytes: Seq<u8>, i: int) -> int
    decreases bytes.len() - i,
{
    if 0 <= i < bytes.len() && bytes[i] == 0x23 {
        hashes_end(bytes, i + 1)
    } else {
        i
    }
}

/// The color that a text writes: eight hexadecimal digits, or six for an opaque one,
/// behind any hash signs; opaque black where there are fewer.
pub open spec fn text_color(s: Seq<char>) -> Pixel {
    let all = encode_utf8(s);
    let h = all.skip(hashes_end(all, 0));
    if h.len() >= 8 {
        Pixel { r: hex_pair(h, 0), g: hex_pair(h, 2), b: hex_pair(h, 4), a: hex_pair(h, 6) }
    } else if h.len() >= 6 {
        Pixel { r: hex_pair(h, 0), g: hex_pair(h, 2), b: hex_pair(h, 4), a: 255 }
    } else {
        black()
    }
}

/// Item `i` of a list in eight bits; a default where it is no whole number.
pub open spec fn channel_at(a: Seq<Json>, i: int, default: u8) -> u8 {
    if 0 <= i < a.len() {
        match as_u64(Some(a[i])) {
            Some(u) => (u % 256) as u8,
            None => default,
        }
    } else {
        default
    }
}

/// The color that a value stands for: a text, or a list of three or four numbers; opaque
/// black for anything else.
pub open spec fn color_of(v: Option<Json>) -> Pixel {
    match v {
        Some(Json::Text(s)) => text_color(s),
        Some(Json::Array(a)) => Pixel {
            r: channel_at(a, 0, 0),
            g: channel_at(a, 1, 0),
            b: channel_at(a, 2, 0),
            a: channel_at(a, 3, 255),
        },
        _ => black(),
    }
}

fn read_channel(a: &Vec<Value>, i: usize, default: u8) -> (r: u8)
    ensures
        r == channel_at(a.deep_view(), i as int, default),
{
    assert(a.deep_view().len() == a@.len());
    if i < a.len() {
        assert(a.deep_view()[i as int] == a@[i as int].deep_view());
        match a[i].as_u64() {
            Some(u) => (u % 256) as u8,
            None => default,
        }
    } else {
        default
    }
}

/// The color that a value stands for.
pub fn parse_color(v: Option<&Value>) -> (r: Pixel)
    ensures
        r == color_of(opt_json(v)),
{
    match v {
        Some(Value::Text(s)) => {
            let all = bytes_of_text(s.as_str());
            let mut k: usize = 0;
            while k < all.len() && all[k] == 0x23
                invariant
                    k <= all@.len(),
                    hashes_end(all@, 0) == hashes_end(all@, k as int),
                decreases all@.len() - k,
            {
                k = k + 1;
            }
            let ghost h = all@.skip(k as int);
            let n: usize = all.len() - k;
            if n >= 6 {
                let r = read_pair(&all, k);
                let g = read_pair(&all, k + 2);
                let b = read_pair(&all, k + 4);
                assert(r == hex_pair(h, 0) && g == hex_pair(h, 2) && b == hex_pair(h, 4));
                if n >= 8 {
                    let a = read_pair(&all, k + 6);
                    assert(a == hex_pair(h, 6));
                    Pixel { r, g, b, a }
                } else {
                    Pixel { r, g, b, a: 255 }
                }
            } else {
                Pixel { r: 0, g: 0, b: 0, a: 255 }
            }
        },
        Some(Value::Array(a)) => {
            proof {
                crate::value::lemma_array_view(a);
            }
            Pixel {
                r: read_channel(a, 0, 0),
                g: read_channel(a, 1, 0),
                b: read_channel(a, 2, 0),
                a: read_channel(a, 3, 255),
            }
        },
        _ => Pixel { r: 0, g: 0, b: 0, a: 255 },
    }
}

/// The color of a background: that of the first key, else that of the second, else white.
pub open spec fn background_of(opts: Json, first: Seq<char>, second: Seq<char>) -> Pixel {
    match field(opts, first) {
        Some(v) => color_of(Some(v)),
        None => match field(opts, second) {
            Some(v) => color_of(Some(v)),
            None => white(),
        },
    }
}

pub fn read_background(opts: &Value, first: &str, second: &str) -> (r: Pixel)
    ensures
        r == background_of(opts.deep_view(), first@, second@),
{
    match opts.get(first) {
        Some(v) => parse_color(Some(v)),
        None => match opts.get(second) {
            Some(v) => parse_color(Some(v)),
            None => Pixel { r: 255, g: 255, b: 255, a: 255 },
        },
    }
}

/// The lightness of a color, from 0 to 255.
pub open spec fn luma(r: u8, g: u8, b: u8) -> u8 {
    ((r * 299 + g * 587 + b * 114) / 1000) as u8
}

pub fn luma601(r: u8, g: u8, b: u8) -> (l: u8)
    ensures
        l == luma(r, g, b),
{
    ((r as u32 * 299 + g as u32 * 587 + b as u32 * 114) / 1000) as u8
}

/// Gray is as light as its channels.
pub proof fn gray_keeps_its_lightness(v: u8)
    ensures
        luma(v, v, v) == v,
{
    assert(v * 299 + v * 587 + v * 114 == v * 1000);
}

/// A hexadecimal digit.
pub open spec fn hex_char(d: int) -> char {
    if d < 10 {
        ('0' as u32 + d) as char
    } else {
        ('a' as u32 + (d - 10)) as char
    }
}

/// A byte in two hexadecimal digits.
pub open spec fn hex_byte(b: u8) -> Seq<char> {
    seq![hex_char((b / 16) as int), hex_char((b % 16) as int)]
}

fn push_hex_digit(s: &mut String, d: u8)
    requires
        d < 16,
    ensures
        final(s)@ == old(s)@.push(hex_char(d as int)),
{
    let c: char = if d < 10 {
        (0x30u8 + d) as char
    } else {
        (0x61u8 + (d - 10)) as char
    };
    s.push(c);
}

/// A color as a web page writes it.
pub open spec fn web_color(r: u8, g: u8, b: u8) -> Seq<char> {
    seq!['#'] + hex_byte(r) + hex_byte(g) + hex_byte(b)
}

pub fn make_web_color(r: u8, g: u8, b: u8) -> (s: String)
    ensures
        s@ == web_color(r, g, b),
{
    let mut s = String::new();
    s.push('#');
    push_hex_digit(&mut s, r / 16);
    push_hex_digit(&mut s, r % 16);
    push_hex_digit(&mut s, g / 16);
    push_hex_digit(&mut s, g % 16);
    push_hex_digit(&mut s, b / 16);
    push_hex_digit(&mut s, b % 16);
    assert(s@ =~= web_color(r, g, b));
    s
}

/// The lightness of a color weighs red, green and blue with 299, 587 and 114 thousandths.
pub proof fn lightness_weighs_the_channels(r: u8, g: u8, b: u8)
    ensures
        1000 * luma(r, g, b) <= 299 * r + 587 * g + 114 * b < 1000 * (luma(r, g, b) + 1),
{
}

/// A color that is written for a web page reads back.
pub proof fn web_colors_read_back(r: u8, g: u8, b: u8)
    ensures
        text_color(web_color(r, g, b)) == (Pixel { r, g, b, a: 255 }),
{
    let s = web_color(r, g, b);
    assert(s.len() == 7);
    assert forall|i: int| 0 <= i < s.len() implies '\0' <= #[trigger] s[i] <= '\u{7f}' by {
        if i == 1 {
            lemma_hex_char((r / 16) as int);
        } else if i == 2 {
            lemma_hex_char((r % 16) as int);
        } else if i == 3 {
            lemma_hex_char((g / 16) as int);
        } else if i == 4 {
            lemma_hex_char((g % 16) as int);
        } else if i == 5 {
            lemma_hex_char((b / 16) as int);
        } else if i == 6 {
            lemma_hex_char((b % 16) as int);
        }
    }
    lemma_plain_bytes(s);
    let all = encode_utf8(s);
    lemma_hex_char((r / 16) as int);
    lemma_hex_char((r % 16) as int);
    lemma_hex_char((g / 16) as int);
    lemma_hex_char((g % 16) as int);
    lemma_hex_char((b / 16) as int);
    lemma_hex_char((b % 16) as int);
    assert(all[0] == 0x23);
    assert(all[1] == s[1] as u8);
    assert(hashes_end(all, 1) == 1);
    assert(hashes_end(all, 0) == 1);
    let h = all.skip(1);
    assert(h[0] == s[1] as u8 && h[1] == s[2] as u8 && h[2] == s[3] as u8);
    assert(h[3] == s[4] as u8 && h[4] == s[5] as u8 && h[5] == s[6] as u8);
}

proof fn lemma_hex_char(d: int)
    requires
        0 <= d < 16,
    ensures
        '\0' <= hex_char(d) <= '\u{7f}',
        hex_char(d) as u8 != 0x23,
        hex_of_byte(hex_char(d) as u8) == Some(d as u8),
{
}

/// The bytes of an ASCII text are its characters.
proof fn lemma_plain_bytes(s: Seq<char>)
    requires
        forall|i: int| 0 <= i < s.len() ==> '\0' <= #[trigger] s[i] <= '\u{7f}',
    ensures
        encode_utf8(s) == Seq::new(s.len(), |i: int| s[i] as u8),
{
    vstd::utf8::is_ascii_chars_encode_utf8(s);
    assert(encode_utf8(s) =~= Seq::new(s.len(), |i: int| s[i] as u8));
}

/// A color that is written as a list has its numbers, and is opaque without a fourth one.
pub proof fn listed_colors_have_their_numbers(r: u8, g: u8, b: u8, a: u8)
    ensures
        color_of(
            Some(
                Json::Array(
                    seq![
                        Json::Number(Num::Unsigned(r as u64)),
                        Json::Number(Num::Unsigned(g as u64)),
                        Json::Number(Num::Unsigned(b as u64)),
                        Json::Number(Num::Unsigned(a as u64)),
                    ],
                ),
            ),
        ) == (Pixel { r, g, b, a }),
        color_of(
            Some(
                Json::Array(
                    seq![
                        Json::Number(Num::Unsigned(r as u64)),
                        Json::Number(Num::Unsigned(g as u64)),
                        Json::Number(Num::Unsigned(b as u64)),
                    ],
                ),
            ),
        ) == (Pixel { r, g, b, a: 255 }),
{
}

} // verus!
