//! Text as a sequence of characters: trimming, splitting, joining, replacing,
//! and the decimal form of numbers.

use crate::deep::push_deep;
use vstd::prelude::*;

verus! {

/// `String::push` appends one character.
pub assume_specification[ String::push ](s: &mut String, c: char)
    ensures
        final(s)@ == old(s)@.push(c),
;

/// `String::push_str` appends a string slice.
pub assume_specification[ String::push_str ](s: &mut String, t: &str)
    ensures
        final(s)@ == old(s)@ + t@,
;

/// Two string slices compare equal exactly when they hold the same characters.
pub assume_specification[ <str as PartialEq>::eq ](a: &str, b: &str) -> (r: bool)
    ensures
        r == (a@ == b@),
;

/// Whether a character is whitespace: the characters with the Unicode property
/// `White_Space`.
pub open spec fn is_space(c: char) -> bool {
    let u = c as u32;
    9 <= u <= 13 || u == 32 || u == 0x85 || u == 0xa0 || u == 0x1680 || 0x2000 <= u <= 0x200a || u
        == 0x2028 || u == 0x2029 || u == 0x202f || u == 0x205f || u == 0x3000
}

pub fn char_is_space(c: char) -> (r: bool)
    ensures
        r == is_space(c),
{
    let u: u32 = c as u32;
    (9 <= u && u <= 13) || u == 32 || u == 0x85 || u == 0xa0 || u == 0x1680 || (0x2000 <= u && u
        <= 0x200a) || u == 0x2028 || u == 0x2029 || u == 0x202f || u == 0x205f || u == 0x3000
}

pub open spec fn is_ascii(c: char) -> bool {
    (c as u32) < 128
}

pub open spec fn all_ascii(s: Seq<char>) -> bool {
    forall|i: int| 0 <= i < s.len() ==> is_ascii(#[trigger] s[i])
}

/// Whether `char::is_alphanumeric` holds of a character that is not ASCII.
pub uninterp spec fn is_wide_alnum(c: char) -> bool;

/// Whether a character is alphanumeric.
pub open spec fn is_alnum(c: char) -> bool {
    if is_ascii(c) {
        is_letter(c) || is_digit(c)
    } else {
        is_wide_alnum(c)
    }
}

/// `char::is_alphanumeric`: among the ASCII characters it holds of letters and digits; of
/// others its answer is named, not spelled out.
#[verifier::external_body]
pub(crate) fn char_is_alnum(c: char) -> (r: bool)
    ensures
        r == if is_ascii(c) {
            is_letter(c) || is_digit(c)
        } else {
            is_wide_alnum(c)
        },
{
    c.is_alphanumeric()
}

/// What `str::to_lowercase` makes of a text that is not ASCII.
pub uninterp spec fn wide_lowercase(s: Seq<char>) -> Seq<char>;

/// The lowercase form of a text.
pub open spec fn lowercase(s: Seq<char>) -> Seq<char> {
    if all_ascii(s) {
        lower(s)
    } else {
        wide_lowercase(s)
    }
}

/// `str::to_lowercase`: of an ASCII text its ASCII lowercase form; of others the result is
/// named, not spelled out.
#[verifier::external_body]
pub(crate) fn to_lowercase(s: &str) -> (r: String)
    ensures
        r@ == if all_ascii(s@) {
            lower(s@)
        } else {
            wide_lowercase(s@)
        },
{
    s.to_lowercase()
}

/// What `str::to_uppercase` makes of a text that is not ASCII.
pub uninterp spec fn wide_uppercase(s: Seq<char>) -> Seq<char>;

/// The uppercase form of a text.
pub open spec fn uppercase(s: Seq<char>) -> Seq<char> {
    if all_ascii(s) {
        upper(s)
    } else {
        wide_uppercase(s)
    }
}

/// `str::to_uppercase`: of an ASCII text its ASCII uppercase form; of others the result is
/// named, not spelled out.
#[verifier::external_body]
pub(crate) fn to_uppercase(s: &str) -> (r: String)
    ensures
        r@ == if all_ascii(s@) {
            upper(s@)
        } else {
            wide_uppercase(s@)
        },
{
    s.to_uppercase()
}

/// Whether two texts are the same.
pub fn same(a: &str, b: &str) -> (r: bool)
    ensures
        r == (a@ == b@),
{
    a.eq(b)
}

/// The characters of a text.
pub fn chars_of(s: &str) -> (r: Vec<char>)
    ensures
        r@ == s@,
{
    let mut out: Vec<char> = Vec::new();
    for c in it: s.chars()
        invariant
            out@ == it.seq().take(it.index() as int),
            it.seq() == s@,
    {
        out.push(c);
    }
    out
}

/// Appends the characters `cs[from..to]`.
pub fn push_chars(out: &mut String, cs: &Vec<char>, from: usize, to: usize)
    requires
        from <= to <= cs@.len(),
    ensures
        final(out)@ == old(out)@ + cs@.subrange(from as int, to as int),
{
    let ghost before = out@;
    let mut i: usize = from;
    while i < to
        invariant
            from <= i <= to <= cs@.len(),
            out@ == before + cs@.subrange(from as int, i as int),
        decreases to - i,
    {
        out.push(cs[i]);
        i = i + 1;
        assert(before + cs@.subrange(from as int, i as int) == (before + cs@.subrange(
            from as int,
            i - 1,
        )).push(cs@[i - 1]));
    }
}

/// The text made of `cs[from..to]`.
pub fn slice_text(cs: &Vec<char>, from: usize, to: usize) -> (r: String)
    requires
        from <= to <= cs@.len(),
    ensures
        r@ == cs@.subrange(from as int, to as int),
{
    let mut out = String::new();
    push_chars(&mut out, cs, from, to);
    out
}

/// A copy of a text.
pub fn copy_text(s: &str) -> (r: String)
    ensures
        r@ == s@,
{
    s.to_owned()
}

/// `a` followed by `b`.
pub fn concat2(a: &str, b: &str) -> (r: String)
    ensures
        r@ == a@ + b@,
{
    let mut out = a.to_owned();
    out.push_str(b);
    out
}

/// `a`, `b` and `c` one after the other.
pub fn concat3(a: &str, b: &str, c: &str) -> (r: String)
    ensures
        r@ == a@ + b@ + c@,
{
    let mut out = a.to_owned();
    out.push_str(b);
    out.push_str(c);
    out
}

// ── characters ──────────────────────────────────────────────────────────────

pub open spec fn is_digit(c: char) -> bool {
    '0' <= c <= '9'
}

pub open spec fn is_upper_ascii(c: char) -> bool {
    'A' <= c <= 'Z'
}

pub open spec fn is_lower_ascii(c: char) -> bool {
    'a' <= c <= 'z'
}

pub open spec fn is_letter(c: char) -> bool {
    is_upper_ascii(c) || is_lower_ascii(c)
}

pub fn char_is_digit(c: char) -> (r: bool)
    ensures
        r == is_digit(c),
{
    '0' <= c && c <= '9'
}

pub fn char_is_letter(c: char) -> (r: bool)
    ensures
        r == is_letter(c),
{
    ('A' <= c && c <= 'Z') || ('a' <= c && c <= 'z')
}

/// The ASCII lowercase form of a character.
pub open spec fn lower_char(c: char) -> char {
    if is_upper_ascii(c) {
        (c as u32 + 32) as char
    } else {
        c
    }
}

/// The ASCII uppercase form of a character.
pub open spec fn upper_char(c: char) -> char {
    if is_lower_ascii(c) {
        (c as u32 - 32) as char
    } else {
        c
    }
}

pub fn char_lower(c: char) -> (r: char)
    ensures
        r == lower_char(c),
{
    if 'A' <= c && c <= 'Z' {
        ((c as u32 + 32) as u8) as char
    } else {
        c
    }
}

pub fn char_upper(c: char) -> (r: char)
    ensures
        r == upper_char(c),
{
    if 'a' <= c && c <= 'z' {
        ((c as u32 - 32) as u8) as char
    } else {
        c
    }
}

/// The ASCII lowercase form of a text.
pub open spec fn lower(s: Seq<char>) -> Seq<char> {
    Seq::new(s.len(), |i: int| lower_char(s[i]))
}

/// The ASCII uppercase form of a text.
pub open spec fn upper(s: Seq<char>) -> Seq<char> {
    Seq::new(s.len(), |i: int| upper_char(s[i]))
}

pub fn ascii_lower(s: &str) -> (r: String)
    ensures
        r@ == lower(s@),
{
    let cs = chars_of(s);
    let mut out = String::new();
    let mut i: usize = 0;
    while i < cs.len()
        invariant
            i <= cs@.len(),
            out@ == lower(cs@).take(i as int),
        decreases cs@.len() - i,
    {
        out.push(char_lower(cs[i]));
        i = i + 1;
        assert(lower(cs@).take(i as int) == lower(cs@).take(i - 1).push(lower_char(cs@[i - 1])));
    }
    assert(lower(cs@).take(i as int) == lower(cs@));
    out
}

pub fn ascii_upper(s: &str) -> (r: String)
    ensures
        r@ == upper(s@),
{
    let cs = chars_of(s);
    let mut out = String::new();
    let mut i: usize = 0;
    while i < cs.len()
        invariant
            i <= cs@.len(),
            out@ == upper(cs@).take(i as int),
        decreases cs@.len() - i,
    {
        out.push(char_upper(cs[i]));
        i = i + 1;
        assert(upper(cs@).take(i as int) == upper(cs@).take(i - 1).push(upper_char(cs@[i - 1])));
    }
    assert(upper(cs@).take(i as int) == upper(cs@));
    out
}

// ── trimming ────────────────────────────────────────────────────────────────

/// The first position at or after `i` that holds no whitespace.
pub open spec fn skip_space(s: Seq<char>, i: int) -> int
    decreases s.len() - i,
{
    if 0 <= i < s.len() && is_space(s[i]) {
        skip_space(s, i + 1)
    } else {
        i
    }
}

/// The last position at or before `j` that follows no whitespace, but not before `i`.
pub open spec fn back_space(s: Seq<char>, i: int, j: int) -> int
    decreases j - i,
{
    if 0 <= i < j <= s.len() && is_space(s[j - 1]) {
        back_space(s, i, j - 1)
    } else {
        j
    }
}

/// A text without the whitespace at its two ends.
pub open spec fn trim(s: Seq<char>) -> Seq<char> {
    let a = skip_space(s, 0);
    s.subrange(a, back_space(s, a, s.len() as int))
}

/// The bounds of `trim` within `cs`.
pub fn trim_bounds(cs: &Vec<char>) -> (r: (usize, usize))
    ensures
        r.0 <= r.1 <= cs@.len(),
        r.0 == skip_space(cs@, 0),
        r.1 == back_space(cs@, r.0 as int, cs@.len() as int),
        trim(cs@) == cs@.subrange(r.0 as int, r.1 as int),
{
    let mut a: usize = 0;
    while a < cs.len() && char_is_space(cs[a])
        invariant
            a <= cs@.len(),
            skip_space(cs@, 0) == skip_space(cs@, a as int),
        decreases cs@.len() - a,
    {
        a = a + 1;
    }
    let mut b: usize = cs.len();
    while b > a && char_is_space(cs[b - 1])
        invariant
            a <= b <= cs@.len(),
            back_space(cs@, a as int, cs@.len() as int) == back_space(cs@, a as int, b as int),
        decreases b,
    {
        b = b - 1;
    }
    (a, b)
}

pub fn trim_text(s: &str) -> (r: String)
    ensures
        r@ == trim(s@),
{
    let cs = chars_of(s);
    let (a, b) = trim_bounds(&cs);
    slice_text(&cs, a, b)
}

// ── decimal numbers ─────────────────────────────────────────────────────────

pub open spec fn digit_char(d: int) -> char {
    (('0' as int) + d) as char
}

/// The decimal form of a natural number.
pub open spec fn decimal(n: nat) -> Seq<char>
    decreases n,
{
    if n < 10 {
        seq![digit_char(n as int)]
    } else {
        decimal(n / 10).push(digit_char((n % 10) as int))
    }
}

fn digit_of(d: u64) -> (c: char)
    requires
        d < 10,
    ensures
        c == digit_char(d as int),
{
    (48u8 + d as u8) as char
}

pub fn push_decimal(out: &mut String, n: u64)
    ensures
        final(out)@ == old(out)@ + decimal(n as nat),
    decreases n,
{
    let ghost before = out@;
    if n >= 10 {
        push_decimal(out, n / 10);
        out.push(digit_of(n % 10));
        assert(out@ == before + decimal(n as nat));
    } else {
        out.push(digit_of(n));
        assert(out@ == before + decimal(n as nat));
    }
}

pub fn decimal_text(n: u64) -> (r: String)
    ensures
        r@ == decimal(n as nat),
{
    let mut out = String::new();
    push_decimal(&mut out, n);
    assert(out@ == decimal(n as nat));
    out
}

/// The value of a run of decimal digits.
pub open spec fn digits_value(s: Seq<char>) -> nat
    decreases s.len(),
{
    if s.len() == 0 {
        0
    } else {
        digits_value(s.drop_last()) * 10 + ((s.last() as int) - ('0' as int)) as nat
    }
}

pub open spec fn all_digits(s: Seq<char>) -> bool {
    forall|i: int| 0 <= i < s.len() ==> is_digit(#[trigger] s[i])
}

/// The number that a text of decimal digits stands for, with an optional leading
/// `+`; nothing for any other text or for a number beyond `max`.
pub open spec fn parse_nat(s: Seq<char>, max: nat) -> Option<nat> {
    let d = if s.len() > 0 && s[0] == '+' {
        s.drop_first()
    } else {
        s
    };
    if d.len() > 0 && all_digits(d) && digits_value(d) <= max {
        Some(digits_value(d))
    } else {
        None
    }
}

pub proof fn lemma_digits_grow(s: Seq<char>, i: int)
    requires
        all_digits(s),
        0 <= i <= s.len(),
    ensures
        digits_value(s.take(i)) <= digits_value(s),
    decreases s.len() - i,
{
    if i < s.len() {
        lemma_digits_grow(s, i + 1);
        assert(s.take(i + 1).drop_last() == s.take(i));
        assert(is_digit(s[i]));
    } else {
        assert(s.take(i) == s);
    }
}

/// `parse_nat` of `cs[from..to]` for 64-bit numbers.
pub fn parse_u64_at(cs: &Vec<char>, from: usize, to: usize) -> (r: Option<u64>)
    requires
        from <= to <= cs@.len(),
    ensures
        match r {
            Some(v) => parse_nat(cs@.subrange(from as int, to as int), u64::MAX as nat) == Some(
                v as nat,
            ),
            None => parse_nat(cs@.subrange(from as int, to as int), u64::MAX as nat) is None,
        },
{
    let ghost whole = cs@.subrange(from as int, to as int);
    let plus = from < to && cs[from] == '+';
    let a: usize = if plus {
        from + 1
    } else {
        from
    };
    let ghost d = cs@.subrange(a as int, to as int);
    proof {
        if plus {
            assert(whole.drop_first() == d);
        }
    }
    if a >= to {
        return None;
    }
    let mut v: u64 = 0;
    let mut i: usize = a;
    while i < to
        invariant
            a <= i <= to <= cs@.len(),
            from <= a,
            whole == cs@.subrange(from as int, to as int),
            d == cs@.subrange(a as int, to as int),
            d.len() > 0,
            parse_nat(whole, u64::MAX as nat) == (if all_digits(d) && digits_value(d)
                <= u64::MAX {
                Some(digits_value(d))
            } else {
                None
            }),
            all_digits(d.take(i - a)),
            digits_value(d.take(i - a)) == v,
        decreases to - i,
    {
        assert(d[i - a] == cs@[i as int]);
        if !char_is_digit(cs[i]) {
            assert(!is_digit(d[i - a]));
            return None;
        }
        let dig: u64 = (cs[i] as u32 - 48) as u64;
        proof {
            assert(d.take(i + 1 - a).drop_last() == d.take(i - a));
            assert(d.take(i + 1 - a).last() == d[i - a]);
            assert(digits_value(d.take(i + 1 - a)) == v * 10 + dig);
        }
        if v > (u64::MAX - dig) / 10 {
            proof {
                if all_digits(d) {
                    lemma_digits_grow(d, i + 1 - a);
                    assert(v * 10 + dig > u64::MAX) by (nonlinear_arith)
                        requires
                            v > (u64::MAX - dig) / 10,
                            dig < 10,
                    ;
                }
            }
            return None;
        }
        assert(v * 10 + dig <= u64::MAX) by (nonlinear_arith)
            requires
                v <= (u64::MAX - dig) / 10,
                dig < 10,
        ;
        v = v * 10 + dig;
        i = i + 1;
        assert(all_digits(d.take(i - a))) by {
            assert forall|k: int| 0 <= k < i - a implies is_digit(#[trigger] d.take(i - a)[k]) by {
                if k < i - 1 - a {
                    assert(d.take(i - 1 - a)[k] == d[k]);
                }
            }
        }
    }
    assert(d.take(i - a) == d);
    Some(v)
}

/// The decimal form of a number reads back as that number.
pub proof fn decimal_reads_back(n: nat)
    ensures
        parse_nat(decimal(n), n) == Some(n),
    decreases n,
{
    lemma_decimal_digits(n);
    assert(is_digit(decimal(n)[0]));
}

pub proof fn lemma_decimal_digits(n: nat)
    ensures
        decimal(n).len() > 0,
        all_digits(decimal(n)),
        digits_value(decimal(n)) == n,
    decreases n,
{
    if n < 10 {
        let s = decimal(n);
        assert(s.drop_last() == Seq::<char>::empty());
        assert(digits_value(s.drop_last()) == 0);
    } else {
        lemma_decimal_digits(n / 10);
        let s = decimal(n);
        assert(s.drop_last() == decimal(n / 10));
        assert forall|i: int| 0 <= i < s.len() implies is_digit(#[trigger] s[i]) by {
            if i < s.len() - 1 {
                assert(s[i] == decimal(n / 10)[i]);
            }
        }
    }
}


// ── searching ───────────────────────────────────────────────────────────────

/// The first position at or after `i` that holds `c`, or the length.
pub open spec fn next_char(s: Seq<char>, c: char, i: int) -> int
    decreases s.len() - i,
{
    if 0 <= i < s.len() && s[i] != c {
        next_char(s, c, i + 1)
    } else {
        i
    }
}

pub proof fn lemma_next_char(s: Seq<char>, c: char, i: int)
    requires
        0 <= i <= s.len(),
    ensures
        i <= next_char(s, c, i) <= s.len(),
        forall|k: int| i <= k < next_char(s, c, i) ==> s[k] != c,
        next_char(s, c, i) < s.len() ==> s[next_char(s, c, i)] == c,
    decreases s.len() - i,
{
    if i < s.len() && s[i] != c {
        lemma_next_char(s, c, i + 1);
    }
}

pub fn find_char(cs: &Vec<char>, c: char, i: usize) -> (r: usize)
    requires
        i <= cs@.len(),
    ensures
        r == next_char(cs@, c, i as int),
        i <= r <= cs@.len(),
{
    let mut k: usize = i;
    while k < cs.len() && cs[k] != c
        invariant
            i <= k <= cs@.len(),
            next_char(cs@, c, i as int) == next_char(cs@, c, k as int),
        decreases cs@.len() - k,
    {
        k = k + 1;
    }
    k
}

/// Whether a text holds a character.
pub fn has_char(s: &str, c: char) -> (r: bool)
    ensures
        r == s@.contains(c),
{
    let cs = chars_of(s);
    let k = find_char(&cs, c, 0);
    proof {
        lemma_next_char(cs@, c, 0);
        if k < cs@.len() {
            assert(cs@[k as int] == c);
        }
    }
    k < cs.len()
}

/// Whether `pat` stands in `s` at position `i`.
pub open spec fn matches_at(s: Seq<char>, pat: Seq<char>, i: int) -> bool {
    0 <= i && i + pat.len() <= s.len() && s.subrange(i, i + pat.len()) == pat
}

pub fn stands_at(s: &Vec<char>, pat: &Vec<char>, i: usize) -> (r: bool)
    ensures
        r == matches_at(s@, pat@, i as int),
{
    if pat.len() > s.len() || i > s.len() - pat.len() {
        return false;
    }
    let ghost part = s@.subrange(i as int, i + pat@.len());
    let mut k: usize = 0;
    while k < pat.len()
        invariant
            k <= pat@.len(),
            i + pat@.len() <= s@.len(),
            s.len() == s@.len(),
            part == s@.subrange(i as int, i + pat@.len()),
            forall|m: int| 0 <= m < k ==> part[m] == pat@[m],
        decreases pat@.len() - k,
    {
        assert(part[k as int] == s@[i + k]);
        if s[i + k] != pat[k] {
            return false;
        }
        k = k + 1;
    }
    assert(part =~= pat@);
    true
}

/// The first position at or after `i` where `pat` stands.
pub open spec fn find_from(s: Seq<char>, pat: Seq<char>, i: int) -> Option<int>
    decreases s.len() + 1 - i,
{
    if i < 0 || i > s.len() {
        None
    } else if matches_at(s, pat, i) {
        Some(i)
    } else {
        find_from(s, pat, i + 1)
    }
}

/// A text is found at the first place where it stands, and only where it stands.
pub proof fn texts_are_found_first(s: Seq<char>, pat: Seq<char>, i: int)
    requires
        0 <= i,
    ensures
        match find_from(s, pat, i) {
            Some(p) => i <= p && p + pat.len() <= s.len() && s.subrange(p, p + pat.len()) == pat
                && forall|k: int|
                #![trigger s.subrange(k, k + pat.len())]
                i <= k < p && k + pat.len() <= s.len() ==> s.subrange(k, k + pat.len()) != pat,
            None => forall|k: int|
                #![trigger s.subrange(k, k + pat.len())]
                i <= k && k + pat.len() <= s.len() ==> s.subrange(k, k + pat.len()) != pat,
        },
    decreases s.len() + 1 - i,
{
    if i <= s.len() && !matches_at(s, pat, i) {
        texts_are_found_first(s, pat, i + 1);
    }
}

pub fn find_text(s: &Vec<char>, pat: &Vec<char>, from: usize) -> (r: Option<usize>)
    ensures
        match r {
            Some(p) => find_from(s@, pat@, from as int) == Some(p as int) && matches_at(
                s@,
                pat@,
                p as int,
            ) && from <= p,
            None => find_from(s@, pat@, from as int) is None,
        },
{
    if from > s.len() {
        return None;
    }
    let mut i: usize = from;
    while i < s.len()
        invariant
            from <= i <= s@.len(),
            find_from(s@, pat@, from as int) == find_from(s@, pat@, i as int),
        decreases s@.len() - i,
    {
        if stands_at(s, pat, i) {
            return Some(i);
        }
        i = i + 1;
    }
    if stands_at(s, pat, i) {
        Some(i)
    } else {
        assert(find_from(s@, pat@, i + 1) is None);
        None
    }
}

/// The last position at or before `i` where `pat` stands.
pub open spec fn find_back(s: Seq<char>, pat: Seq<char>, i: int) -> Option<int>
    decreases i + 1,
{
    if i < 0 {
        None
    } else if matches_at(s, pat, i) {
        Some(i)
    } else {
        find_back(s, pat, i - 1)
    }
}

pub fn rfind_text(s: &Vec<char>, pat: &Vec<char>) -> (r: Option<usize>)
    ensures
        match r {
            Some(p) => find_back(s@, pat@, s@.len() as int) == Some(p as int) && matches_at(
                s@,
                pat@,
                p as int,
            ),
            None => find_back(s@, pat@, s@.len() as int) is None,
        },
{
    let mut i: usize = s.len();
    loop
        invariant
            i <= s@.len(),
            find_back(s@, pat@, s@.len() as int) == find_back(s@, pat@, i as int),
        decreases i,
    {
        if stands_at(s, pat, i) {
            return Some(i);
        }
        if i == 0 {
            assert(find_back(s@, pat@, -1) is None);
            return None;
        }
        i = i - 1;
    }
}

/// Whether `pat` occurs in `s`.
pub open spec fn contains_text(s: Seq<char>, pat: Seq<char>) -> bool {
    find_from(s, pat, 0) is Some
}

pub fn has_text(s: &str, pat: &str) -> (r: bool)
    ensures
        r == contains_text(s@, pat@),
{
    let a = chars_of(s);
    let b = chars_of(pat);
    find_text(&a, &b, 0).is_some()
}

// ── replacing ───────────────────────────────────────────────────────────────

/// `s` from position `i` on, with each occurrence of `pat`, from the left and
/// without overlap, replaced by `rep`.
pub open spec fn replace_from(s: Seq<char>, pat: Seq<char>, rep: Seq<char>, i: int) -> Seq<char>
    decreases s.len() - i,
{
    if i < 0 || i >= s.len() || pat.len() == 0 {
        Seq::empty()
    } else if matches_at(s, pat, i) {
        rep + replace_from(s, pat, rep, i + pat.len())
    } else {
        seq![s[i]] + replace_from(s, pat, rep, i + 1)
    }
}

/// `s` with each occurrence of `pat` replaced by `rep`.
pub open spec fn replaced(s: Seq<char>, pat: Seq<char>, rep: Seq<char>) -> Seq<char> {
    replace_from(s, pat, rep, 0)
}

pub fn replace_text(s: &str, pat: &str, rep: &str) -> (r: String)
    requires
        pat@.len() > 0,
    ensures
        r@ == replaced(s@, pat@, rep@),
{
    let cs = chars_of(s);
    let ps = chars_of(pat);
    let mut out = String::new();
    let mut i: usize = 0;
    assert(out@ + replace_from(s@, pat@, rep@, 0) =~= replaced(s@, pat@, rep@));
    while i < cs.len()
        invariant
            i <= cs@.len(),
            cs@ == s@,
            ps@ == pat@,
            pat@.len() > 0,
            out@ + replace_from(s@, pat@, rep@, i as int) == replaced(s@, pat@, rep@),
        decreases cs@.len() - i,
    {
        let ghost before = out@;
        if stands_at(&cs, &ps, i) {
            out.push_str(rep);
            let ghost rest = replace_from(s@, pat@, rep@, i + pat@.len());
            assert(before + (rep@ + rest) =~= (before + rep@) + rest);
            i = i + ps.len();
        } else {
            out.push(cs[i]);
            let ghost rest = replace_from(s@, pat@, rep@, i + 1);
            assert(before + (seq![s@[i as int]] + rest) =~= before.push(s@[i as int]) + rest);
            i = i + 1;
        }
    }
    assert(out@ =~= replaced(s@, pat@, rep@));
    out
}

/// What each character of the first `n` is replaced by, one after the other.
pub open spec fn mapped_chars(s: Seq<char>, f: spec_fn(char) -> Seq<char>, n: nat) -> Seq<char>
    decreases n,
{
    if n == 0 || n > s.len() {
        Seq::empty()
    } else {
        mapped_chars(s, f, (n - 1) as nat) + f(s[n - 1])
    }
}

// ── splitting and joining ───────────────────────────────────────────────────

/// The pieces of `s` from position `i` on, between the occurrences of `c`.
pub open spec fn split_from(s: Seq<char>, c: char, i: int) -> Seq<Seq<char>>
    decreases s.len() - i,
{
    let e = next_char(s, c, i);
    if 0 <= i <= e < s.len() {
        seq![s.subrange(i, e)] + split_from(s, c, e + 1)
    } else {
        seq![s.subrange(i, s.len() as int)]
    }
}

/// The pieces of `s` between the occurrences of `c`.
pub open spec fn split(s: Seq<char>, c: char) -> Seq<Seq<char>> {
    split_from(s, c, 0)
}

pub fn split_text(s: &str, c: char) -> (r: Vec<String>)
    ensures
        r.deep_view() == split(s@, c),
{
    let cs = chars_of(s);
    let mut out: Vec<String> = Vec::new();
    let mut i: usize = 0;
    assert(out.deep_view() + split_from(s@, c, 0) =~= split(s@, c));
    loop
        invariant_except_break
            i <= cs@.len(),
            cs@ == s@,
            out.deep_view() + split_from(s@, c, i as int) == split(s@, c),
        ensures
            out.deep_view() == split(s@, c),
        decreases cs@.len() - i,
    {
        let e = find_char(&cs, c, i);
        let ghost before = out.deep_view();
        push_deep(&mut out, slice_text(&cs, i, e));
        if e >= cs.len() {
            assert(out.deep_view() =~= before + split_from(s@, c, i as int));
            break;
        }
        assert(out.deep_view() + split_from(s@, c, e + 1) =~= before + (seq![
            s@.subrange(i as int, e as int),
        ] + split_from(s@, c, e + 1)));
        i = e + 1;
    }
    out
}

/// The parts with `sep` between each two.
pub open spec fn join(parts: Seq<Seq<char>>, sep: Seq<char>) -> Seq<char>
    decreases parts.len(),
{
    if parts.len() == 0 {
        Seq::empty()
    } else if parts.len() == 1 {
        parts[0]
    } else {
        join(parts.drop_last(), sep) + sep + parts.last()
    }
}

pub fn join_texts(parts: &Vec<String>, sep: &str) -> (r: String)
    ensures
        r@ == join(parts.deep_view(), sep@),
{
    let mut out = String::new();
    let mut i: usize = 0;
    while i < parts.len()
        invariant
            i <= parts@.len(),
            out@ == join(parts.deep_view().take(i as int), sep@),
        decreases parts@.len() - i,
    {
        if i > 0 {
            out.push_str(sep);
        }
        out.push_str(parts[i].as_str());
        i = i + 1;
        let ghost now = parts.deep_view().take(i as int);
        assert(now.drop_last() =~= parts.deep_view().take(i - 1));
        assert(now.last() == parts@[i - 1]@);
        assert(out@ =~= join(now, sep@));
    }
    assert(parts.deep_view().take(i as int) =~= parts.deep_view());
    out
}

/// The line that starts at `i` and whose end is `e`: a carriage return right
/// before the line feed is not part of it.
pub open spec fn line_at(s: Seq<char>, i: int, e: int) -> Seq<char> {
    if e < s.len() && i < e && s[e - 1] == '\r' {
        s.subrange(i, e - 1)
    } else {
        s.subrange(i, e)
    }
}

/// The lines of `s` from position `i` on.
pub open spec fn lines_from(s: Seq<char>, i: int) -> Seq<Seq<char>>
    decreases s.len() + 1 - i,
{
    let e = next_char(s, '\n', i);
    if 0 <= i < s.len() && i <= e <= s.len() {
        seq![line_at(s, i, e)] + lines_from(s, e + 1)
    } else {
        Seq::empty()
    }
}

/// The lines of a text, without their line ends.
pub open spec fn lines(s: Seq<char>) -> Seq<Seq<char>> {
    lines_from(s, 0)
}

pub fn text_lines(s: &str) -> (r: Vec<String>)
    ensures
        r.deep_view() == lines(s@),
{
    let cs = chars_of(s);
    let mut out: Vec<String> = Vec::new();
    let mut i: usize = 0;
    assert(out.deep_view() + lines_from(s@, 0) =~= lines(s@));
    while i < cs.len()
        invariant
            0 <= i <= cs@.len() + 1,
            cs@ == s@,
            out.deep_view() + lines_from(s@, i as int) == lines(s@),
        decreases cs@.len() + 1 - i,
    {
        let e = find_char(&cs, '\n', i);
        let ghost before = out.deep_view();
        let line = if e < cs.len() && i < e && cs[e - 1] == '\r' {
            slice_text(&cs, i, e - 1)
        } else {
            slice_text(&cs, i, e)
        };
        push_deep(&mut out, line);
        assert(out.deep_view() + lines_from(s@, e + 1) =~= before + (seq![
            line_at(s@, i as int, e as int),
        ] + lines_from(s@, e + 1)));
        if e >= cs.len() {
            assert(lines_from(s@, e + 1) =~= Seq::<Seq<char>>::empty());
            assert(lines_from(s@, e as int) =~= Seq::<Seq<char>>::empty());
            i = e;
        } else {
            i = e + 1;
        }
    }
    assert(out.deep_view() =~= lines(s@));
    out
}

/// The first position at or after `i` that holds whitespace, or the length.
pub open spec fn word_end(s: Seq<char>, i: int) -> int
    decreases s.len() - i,
{
    if 0 <= i < s.len() && !is_space(s[i]) {
        word_end(s, i + 1)
    } else {
        i
    }
}

pub proof fn lemma_word_end(s: Seq<char>, i: int)
    requires
        0 <= i <= s.len(),
    ensures
        i <= word_end(s, i) <= s.len(),
        i < s.len() && !is_space(s[i]) ==> i < word_end(s, i),
    decreases s.len() - i,
{
    if i < s.len() && !is_space(s[i]) {
        lemma_word_end(s, i + 1);
    }
}

/// The words of `s` from position `i` on: its longest runs without whitespace.
pub open spec fn words_from(s: Seq<char>, i: int) -> Seq<Seq<char>>
    decreases s.len() - i,
{
    let a = skip_space(s, i);
    let b = word_end(s, a);
    if 0 <= i <= a < b <= s.len() {
        seq![s.subrange(a, b)] + words_from(s, b)
    } else {
        Seq::empty()
    }
}

/// The words of a text.
pub open spec fn words(s: Seq<char>) -> Seq<Seq<char>> {
    words_from(s, 0)
}

pub fn text_words(s: &str) -> (r: Vec<String>)
    ensures
        r.deep_view() == words(s@),
{
    let cs = chars_of(s);
    let mut out: Vec<String> = Vec::new();
    let mut i: usize = 0;
    assert(out.deep_view() + words_from(s@, 0) =~= words(s@));
    loop
        invariant_except_break
            i <= cs@.len(),
            cs@ == s@,
            out.deep_view() + words_from(s@, i as int) == words(s@),
        ensures
            out.deep_view() == words(s@),
        decreases cs@.len() - i,
    {
        let mut a: usize = i;
        while a < cs.len() && char_is_space(cs[a])
            invariant
                i <= a <= cs@.len(),
                cs@ == s@,
                skip_space(s@, i as int) == skip_space(s@, a as int),
            decreases cs@.len() - a,
        {
            a = a + 1;
        }
        if a >= cs.len() {
            assert(words_from(s@, i as int) =~= Seq::<Seq<char>>::empty());
            assert(out.deep_view() =~= words(s@));
            break;
        }
        let mut b: usize = a;
        while b < cs.len() && !char_is_space(cs[b])
            invariant
                a <= b <= cs@.len(),
                cs@ == s@,
                word_end(s@, a as int) == word_end(s@, b as int),
            decreases cs@.len() - b,
        {
            b = b + 1;
        }
        proof {
            lemma_word_end(s@, a as int);
        }
        let ghost before = out.deep_view();
        push_deep(&mut out, slice_text(&cs, a, b));
        assert(out.deep_view() + words_from(s@, b as int) =~= before + (seq![
            s@.subrange(a as int, b as int),
        ] + words_from(s@, b as int)));
        i = b;
    }
    out
}

/// The words of a text with one space between each two.
pub open spec fn squeezed(s: Seq<char>) -> Seq<char> {
    join(words(s), " "@)
}

pub fn squeeze(s: &str) -> (r: String)
    ensures
        r@ == squeezed(s@),
{
    join_texts(&text_words(s), " ")
}

// ── words and lines ─────────────────────────────────────────────────────────

proof fn lemma_spaces_end(s: Seq<char>, i: int, e: int)
    requires
        0 <= i <= e <= s.len(),
        forall|k: int| i <= k < e ==> is_space(#[trigger] s[k]),
        e < s.len() ==> !is_space(s[e]),
    ensures
        skip_space(s, i) == e,
    decreases e - i,
{
    if i < e {
        lemma_spaces_end(s, i + 1, e);
    }
}

proof fn lemma_run_ends(s: Seq<char>, i: int, e: int)
    requires
        0 <= i <= e <= s.len(),
        forall|k: int| i <= k < e ==> !is_space(#[trigger] s[k]),
        e < s.len() ==> is_space(s[e]),
    ensures
        word_end(s, i) == e,
    decreases e - i,
{
    if i < e {
        lemma_run_ends(s, i + 1, e);
    }
}

proof fn lemma_skip_within(s: Seq<char>, i: int)
    requires
        0 <= i <= s.len(),
    ensures
        i <= skip_space(s, i) <= s.len(),
        skip_space(s, i) < s.len() ==> !is_space(s[skip_space(s, i)]),
    decreases s.len() - i,
{
    if i < s.len() && is_space(s[i]) {
        lemma_skip_within(s, i + 1);
    }
}

proof fn lemma_shifted(s: Seq<char>, t: Seq<char>, d: int, i: int)
    requires
        0 <= d,
        0 <= i <= t.len(),
        s == s.take(d) + t,
        d <= s.len(),
    ensures
        skip_space(s, d + i) == d + skip_space(t, i),
        word_end(s, d + i) == d + word_end(t, i),
        forall|c: char| #[trigger] next_char(s, c, d + i) == d + next_char(t, c, i),
    decreases t.len() - i,
{
    assert(s.len() == d + t.len());
    if i < t.len() {
        assert(s[d + i] == t[i]);
        lemma_shifted(s, t, d, i + 1);
        assert forall|c: char| #[trigger] next_char(s, c, d + i) == d + next_char(t, c, i) by {
            if t[i] != c {
                assert(next_char(s, c, d + (i + 1)) == d + next_char(t, c, i + 1));
            }
        }
    }
}

proof fn lemma_words_shifted(s: Seq<char>, t: Seq<char>, d: int, i: int)
    requires
        0 <= d <= s.len(),
        0 <= i <= t.len(),
        s == s.take(d) + t,
    ensures
        words_from(s, d + i) == words_from(t, i),
    decreases t.len() - i,
{
    lemma_shifted(s, t, d, i);
    lemma_skip_within(t, i);
    let a = skip_space(t, i);
    let b = word_end(t, a);
    lemma_word_end(t, a);
    lemma_shifted(s, t, d, a);
    if a < b {
        lemma_words_shifted(s, t, d, b);
        assert(s.subrange(d + a, d + b) =~= t.subrange(a, b));
    }
}

/// Words are what stands between white space: what is white before them and between them does
/// not count, and a word reaches as far as nothing is white.
pub proof fn words_stand_between_white_space(white: Seq<char>, word: Seq<char>, rest: Seq<char>)
    requires
        forall|i: int| 0 <= i < white.len() ==> is_space(#[trigger] white[i]),
        forall|i: int| 0 <= i < word.len() ==> !is_space(#[trigger] word[i]),
        word.len() > 0,
        rest.len() > 0 ==> is_space(rest[0]),
    ensures
        words(white).len() == 0,
        words(white + word + rest) == seq![word] + words(rest),
{
    lemma_spaces_end(white, 0, white.len() as int);
    let s = white + word + rest;
    let a = white.len() as int;
    let b = a + word.len();
    assert forall|k: int| 0 <= k < a implies is_space(#[trigger] s[k]) by {
        assert(s[k] == white[k]);
    }
    assert forall|k: int| a <= k < b implies !is_space(#[trigger] s[k]) by {
        assert(s[k] == word[k - a]);
    }
    assert(s[a] == word[0]);
    lemma_spaces_end(s, 0, a);
    if b < s.len() {
        assert(s[b] == rest[0]);
    }
    lemma_run_ends(s, a, b);
    assert(s =~= s.take(b) + rest);
    lemma_words_shifted(s, rest, b, 0);
    assert(s.subrange(a, b) =~= word);
}

proof fn lemma_lines_shifted(s: Seq<char>, t: Seq<char>, d: int, i: int)
    requires
        0 <= d <= s.len(),
        0 <= i,
        s == s.take(d) + t,
    ensures
        lines_from(s, d + i) == lines_from(t, i),
    decreases t.len() + 1 - i,
{
    assert(s.len() == d + t.len());
    if i < t.len() {
        lemma_shifted(s, t, d, i);
        lemma_next_char(t, '\n', i);
        let e = next_char(t, '\n', i);
        assert(next_char(s, '\n', d + i) == d + e);
        lemma_lines_shifted(s, t, d, e + 1);
        if i < e {
            assert(s[d + e - 1] == t[e - 1]);
        }
        assert(line_at(s, d + i, d + e) =~= line_at(t, i, e));
    }
}

/// Lines are what stands before line feeds, without a carriage return before one, and what
/// stands behind the last one where anything does.
pub proof fn lines_stand_before_line_feeds(line: Seq<char>, rest: Seq<char>)
    requires
        !line.contains('\n'),
        line.len() > 0 ==> line.last() != '\r',
    ensures
        lines(line) == if line.len() == 0 {
            Seq::empty()
        } else {
            seq![line]
        },
        lines(line + seq!['\n'] + rest) == seq![line] + lines(rest),
        lines(line + seq!['\r', '\n'] + rest) == seq![line] + lines(rest),
{
    let n = line.len() as int;
    lemma_next_char(line, '\n', 0);
    if n > 0 {
        assert(next_char(line, '\n', 0) == n) by {
            let e = next_char(line, '\n', 0);
            if e < n {
                assert(line[e] == '\n');
            }
        }
        assert(line.subrange(0, n) =~= line);
        assert(lines_from(line, n + 1) =~= Seq::empty());
    } else {
        assert(lines(line) =~= Seq::empty());
    }
    let s = line + seq!['\n'] + rest;
    lemma_next_char(s, '\n', 0);
    assert(s[n] == '\n');
    assert forall|k: int| 0 <= k < n implies #[trigger] s[k] != '\n' by {
        assert(s[k] == line[k]);
    }
    assert(next_char(s, '\n', 0) == n) by {
        let e = next_char(s, '\n', 0);
        if e < n {
            assert(s[e] != '\n');
        }
    }
    if n > 0 {
        assert(s[n - 1] == line.last());
    }
    assert(line_at(s, 0, n) =~= line);
    assert(s =~= s.take(n + 1) + rest);
    lemma_lines_shifted(s, rest, n + 1, 0);
    let r = line + seq!['\r', '\n'] + rest;
    lemma_next_char(r, '\n', 0);
    assert(r[n] == '\r');
    assert(r[n + 1] == '\n');
    assert forall|k: int| 0 <= k < n + 1 implies #[trigger] r[k] != '\n' by {
        if k < n {
            assert(r[k] == line[k]);
        }
    }
    assert(next_char(r, '\n', 0) == n + 1) by {
        let e = next_char(r, '\n', 0);
        if e < n + 1 {
            assert(r[e] != '\n');
        }
    }
    assert(line_at(r, 0, n + 1) =~= line);
    assert(r =~= r.take(n + 2) + rest);
    lemma_lines_shifted(r, rest, n + 2, 0);
}

/// Searched backwards, a text is found at its last place that is not behind `i`.
pub proof fn texts_are_found_last(s: Seq<char>, pat: Seq<char>, i: int)
    requires
        0 <= i <= s.len(),
    ensures
        match find_back(s, pat, i) {
            Some(p) => {
                &&& 0 <= p <= i
                &&& matches_at(s, pat, p)
                &&& forall|k: int| p < k <= i ==> !#[trigger] matches_at(s, pat, k)
            },
            None => forall|k: int| 0 <= k <= i ==> !#[trigger] matches_at(s, pat, k),
        },
    decreases i,
{
    if i > 0 && !matches_at(s, pat, i) {
        texts_are_found_last(s, pat, i - 1);
    } else {
        assert(find_back(s, pat, -1) is None);
    }
}

} // verus!
