//! Bytes written with sixty-four letters, four letters for three bytes.

use crate::text::{chars_of, copy_text};
use vstd::prelude::*;

verus! {

/// Letter `v` of the alphabet.
pub open spec fn letter(v: int) -> char {
    if v < 26 {
        ('A' as u32 + v) as char
    } else if v < 52 {
        ('a' as u32 + (v - 26)) as char
    } else if v < 62 {
        ('0' as u32 + (v - 52)) as char
    } else if v == 62 {
        '+'
    } else {
        '/'
    }
}

/// The place of a letter in the alphabet.
pub open spec fn place(c: char) -> Option<u32> {
    if 'A' <= c <= 'Z' {
        Some((c as u32 - 'A' as u32) as u32)
    } else if 'a' <= c <= 'z' {
        Some((c as u32 - 'a' as u32 + 26) as u32)
    } else if '0' <= c <= '9' {
        Some((c as u32 - '0' as u32 + 52) as u32)
    } else if c == '+' {
        Some(62)
    } else if c == '/' {
        Some(63)
    } else {
        None
    }
}

fn make_letter(v: u32) -> (c: char)
    requires
        v < 64,
    ensures
        c == letter(v as int),
{
    if v < 26 {
        (0x41u8 + v as u8) as char
    } else if v < 52 {
        (0x61u8 + (v - 26) as u8) as char
    } else if v < 62 {
        (0x30u8 + (v - 52) as u8) as char
    } else if v == 62 {
        '+'
    } else {
        '/'
    }
}

fn find_place(c: char) -> (r: Option<u32>)
    ensures
        r == place(c),
        r is Some ==> r->0 < 64,
{
    if 'A' <= c && c <= 'Z' {
        Some(c as u32 - 'A' as u32)
    } else if 'a' <= c && c <= 'z' {
        Some(c as u32 - 'a' as u32 + 26)
    } else if '0' <= c && c <= '9' {
        Some(c as u32 - '0' as u32 + 52)
    } else if c == '+' {
        Some(62)
    } else if c == '/' {
        Some(63)
    } else {
        None
    }
}

/// Byte `i`, zero behind the end.
pub open spec fn byte_at(data: Seq<u8>, i: int) -> int {
    if 0 <= i < data.len() {
        data[i] as int
    } else {
        0
    }
}

/// Three bytes as one number.
pub open spec fn triple(data: Seq<u8>, i: int) -> int {
    byte_at(data, i) * 65536 + byte_at(data, i + 1) * 256 + byte_at(data, i + 2)
}

/// The four letters of the bytes at `i`; an equals sign stands for what no byte fills.
pub open spec fn four_letters(data: Seq<u8>, i: int) -> Seq<char> {
    let n = triple(data, i);
    seq![
        letter(n / 262144),
        letter(n / 4096 % 64),
        if i + 1 < data.len() {
            letter(n / 64 % 64)
        } else {
            '='
        },
        if i + 2 < data.len() {
            letter(n % 64)
        } else {
            '='
        },
    ]
}

/// The letters of the bytes from `i` on.
pub open spec fn encoded_from(data: Seq<u8>, i: int) -> Seq<char>
    decreases data.len() + 3 - i,
{
    if i < 0 || i >= data.len() {
        Seq::empty()
    } else {
        four_letters(data, i) + encoded_from(data, i + 3)
    }
}

/// Bytes written with letters.
pub open spec fn encoded(data: Seq<u8>) -> Seq<char> {
    encoded_from(data, 0)
}

pub fn base64_encode(data: &[u8]) -> (r: String)
    ensures
        r@ == encoded(data@),
{
    let mut out = String::new();
    let mut i: usize = 0;
    let total: usize = data.len();
    assert(out@ + encoded_from(data@, 0) =~= encoded(data@));
    while i < total
        invariant
            i <= total || i >= total,
            total == data@.len(),
            out@ + encoded_from(data@, i as int) == encoded(data@),
        decreases total - i,
    {
        let ghost before = out@;
        let b0: u32 = data[i] as u32;
        let b1: u32 = if total - i > 1 {
            data[i + 1] as u32
        } else {
            0
        };
        let b2: u32 = if total - i > 2 {
            data[i + 2] as u32
        } else {
            0
        };
        let n: u32 = b0 * 65536 + b1 * 256 + b2;
        assert(n == triple(data@, i as int));
        out.push(make_letter(n / 262144));
        out.push(make_letter(n / 4096 % 64));
        if total - i > 1 {
            out.push(make_letter(n / 64 % 64));
        } else {
            out.push('=');
        }
        if total - i > 2 {
            out.push(make_letter(n % 64));
        } else {
            out.push('=');
        }
        assert(out@ =~= before + four_letters(data@, i as int));
        assert(out@ + encoded_from(data@, i + 3) =~= before + (four_letters(data@, i as int)
            + encoded_from(data@, i + 3)));
        if total - i > 3 {
            i = i + 3;
        } else {
            assert(encoded_from(data@, i + 3) =~= Seq::<char>::empty());
            assert(encoded_from(data@, total as int) =~= Seq::<char>::empty());
            i = total;
        }
    }
    assert(encoded_from(data@, i as int) =~= Seq::<char>::empty());
    assert(out@ =~= encoded(data@));
    out
}

/// Whether a character is passed over: an equals sign or white space.
pub open spec fn is_passed(c: char) -> bool {
    c == '=' || c == ' ' || c == '\t' || c == '\n' || c == '\u{c}' || c == '\r'
}

/// The places of the letters from `i` on; nothing where there is another character.
pub open spec fn places_from(s: Seq<char>, i: int) -> Option<Seq<u32>>
    decreases s.len() - i,
{
    if i < 0 || i >= s.len() {
        Some(Seq::empty())
    } else if is_passed(s[i]) {
        places_from(s, i + 1)
    } else {
        match (place(s[i]), places_from(s, i + 1)) {
            (Some(v), Some(rest)) => Some(seq![v] + rest),
            _ => None,
        }
    }
}

/// Place `i`, zero behind the end.
pub open spec fn place_at(v: Seq<u32>, i: int) -> int {
    if 0 <= i < v.len() {
        v[i] as int
    } else {
        0
    }
}

/// Four places as one number.
pub open spec fn quadruple(v: Seq<u32>, i: int) -> int {
    place_at(v, i) * 262144 + place_at(v, i + 1) * 4096 + place_at(v, i + 2) * 64 + place_at(
        v,
        i + 3,
    )
}

/// The bytes that the four places at `i` fill.
pub open spec fn three_bytes(v: Seq<u32>, i: int) -> Seq<u8> {
    let n = quadruple(v, i);
    let a = (n / 65536 % 256) as u8;
    let b = (n / 256 % 256) as u8;
    let c = (n % 256) as u8;
    if i + 3 < v.len() {
        seq![a, b, c]
    } else if i + 2 < v.len() {
        seq![a, b]
    } else if i + 1 < v.len() {
        seq![a]
    } else {
        Seq::empty()
    }
}

/// The bytes that the places from `i` on fill.
pub open spec fn decoded_from(v: Seq<u32>, i: int) -> Seq<u8>
    decreases v.len() + 4 - i,
{
    if i < 0 || i >= v.len() {
        Seq::empty()
    } else {
        three_bytes(v, i) + decoded_from(v, i + 4)
    }
}

/// The bytes that letters stand for.
pub open spec fn decoded(s: Seq<char>) -> Result<Seq<u8>, Seq<char>> {
    match places_from(s, 0) {
        Some(v) => Ok(decoded_from(v, 0)),
        None => Err("invalid base64 character"@),
    }
}

proof fn lemma_bad_letter(s: Seq<char>, i: int, k: int)
    requires
        0 <= i <= k < s.len(),
        !is_passed(s[k]),
        place(s[k]) is None,
    ensures
        places_from(s, i) is None,
    decreases k - i,
{
    if i < k {
        lemma_bad_letter(s, i + 1, k);
    }
}

fn read_places(cs: &Vec<char>) -> (r: Option<Vec<u32>>)
    ensures
        match r {
            Some(v) => places_from(cs@, 0) == Some(v@) && forall|i: int|
                0 <= i < v@.len() ==> #[trigger] v@[i] < 64,
            None => places_from(cs@, 0) is None,
        },
{
    let mut out: Vec<u32> = Vec::new();
    let mut i: usize = 0;
    proof {
        if places_from(cs@, 0) is Some {
            assert(out@ + places_from(cs@, 0)->0 =~= places_from(cs@, 0)->0);
        }
    }
    while i < cs.len()
        invariant
            i <= cs@.len(),
            forall|k: int| 0 <= k < out@.len() ==> #[trigger] out@[k] < 64,
            places_from(cs@, 0) is Some <==> places_from(cs@, i as int) is Some,
            places_from(cs@, i as int) is Some ==> out@ + places_from(cs@, i as int)->0
                == places_from(cs@, 0)->0,
        decreases cs@.len() - i,
    {
        let c = cs[i];
        let ghost before = out@;
        let passed = c == '=' || c == ' ' || c == '\t' || c == '\n' || c == '\u{c}' || c == '\r';
        if !passed {
            match find_place(c) {
                Some(v) => {
                    out.push(v);
                    proof {
                        if places_from(cs@, i + 1) is Some {
                            let rest = places_from(cs@, i + 1)->0;
                            assert(out@ + rest =~= before + (seq![v] + rest));
                        }
                    }
                },
                None => {
                    proof {
                        lemma_bad_letter(cs@, 0, i as int);
                    }
                    return None;
                },
            }
        }
        i = i + 1;
    }
    assert(places_from(cs@, i as int) == Some(Seq::<u32>::empty()));
    assert(out@ + Seq::<u32>::empty() =~= out@);
    Some(out)
}

pub fn base64_decode(s: &str) -> (r: Result<Vec<u8>, String>)
    ensures
        match (r, decoded(s@)) {
            (Ok(v), Ok(b)) => v@ == b,
            (Err(e), Err(m)) => e@ == m,
            _ => false,
        },
{
    let cs = chars_of(s);
    let v = match read_places(&cs) {
        Some(v) => v,
        None => {
            return Err(copy_text("invalid base64 character"));
        },
    };
    let total: usize = v.len();
    let mut out: Vec<u8> = Vec::new();
    let mut i: usize = 0;
    let ghost all = decoded_from(v@, 0);
    assert(out@ + decoded_from(v@, 0) =~= all);
    while i < total
        invariant
            total == v@.len(),
            forall|k: int| 0 <= k < v@.len() ==> #[trigger] v@[k] < 64,
            out@ + decoded_from(v@, i as int) == all,
        decreases total - i,
    {
        let ghost before = out@;
        let left: usize = total - i;
        let v0: u32 = v[i];
        let v1: u32 = if left > 1 {
            v[i + 1]
        } else {
            0
        };
        let v2: u32 = if left > 2 {
            v[i + 2]
        } else {
            0
        };
        let v3: u32 = if left > 3 {
            v[i + 3]
        } else {
            0
        };
        let n: u32 = v0 * 262144 + v1 * 4096 + v2 * 64 + v3;
        assert(n == quadruple(v@, i as int));
        if left > 1 {
            out.push((n / 65536 % 256) as u8);
        }
        if left > 2 {
            out.push((n / 256 % 256) as u8);
        }
        if left > 3 {
            out.push((n % 256) as u8);
        }
        assert(out@ =~= before + three_bytes(v@, i as int));
        assert(out@ + decoded_from(v@, i + 4) =~= before + (three_bytes(v@, i as int)
            + decoded_from(v@, i + 4)));
        if left > 4 {
            i = i + 4;
        } else {
            assert(decoded_from(v@, i + 4) =~= Seq::<u8>::empty());
            assert(decoded_from(v@, total as int) =~= Seq::<u8>::empty());
            i = total;
        }
    }
    assert(decoded_from(v@, i as int) =~= Seq::<u8>::empty());
    assert(out@ =~= all);
    Ok(out)
}

// ── reading back ────────────────────────────────────────────────────────────

proof fn lemma_letter(v: int)
    requires
        0 <= v < 64,
    ensures
        !is_passed(letter(v)),
        place(letter(v)) == Some(v as u32),
{
}

/// The places of the letters of the bytes at `i`.
spec fn four_places(data: Seq<u8>, i: int) -> Seq<u32> {
    let n = triple(data, i);
    let a = seq![(n / 262144) as u32, (n / 4096 % 64) as u32];
    if i + 2 < data.len() {
        a + seq![(n / 64 % 64) as u32, (n % 64) as u32]
    } else if i + 1 < data.len() {
        a + seq![(n / 64 % 64) as u32]
    } else {
        a
    }
}

/// The places of the letters of the bytes from `i` on.
spec fn all_places(data: Seq<u8>, i: int) -> Seq<u32>
    decreases data.len() + 3 - i,
{
    if i < 0 || i >= data.len() {
        Seq::empty()
    } else {
        four_places(data, i) + all_places(data, i + 3)
    }
}

proof fn lemma_places_behind(a: Seq<char>, b: Seq<char>, i: int)
    requires
        0 <= i <= b.len(),
    ensures
        places_from(a + b, a.len() + i) == places_from(b, i),
    decreases b.len() - i,
{
    if i < b.len() {
        lemma_places_behind(a, b, i + 1);
        assert((a + b)[a.len() + i] == b[i]);
    }
}

proof fn lemma_places_of_four(data: Seq<u8>, i: int, rest: Seq<char>)
    requires
        0 <= i < data.len(),
        places_from(rest, 0) is Some,
    ensures
        places_from(four_letters(data, i) + rest, 0) == Some(
            four_places(data, i) + places_from(rest, 0)->0,
        ),
{
    let n = triple(data, i);
    let four = four_letters(data, i);
    let s = four + rest;
    assert(0 <= n < 16777216);
    assert(0 <= n / 262144 < 64);
    lemma_letter(n / 262144);
    lemma_letter(n / 4096 % 64);
    lemma_letter(n / 64 % 64);
    lemma_letter(n % 64);
    lemma_places_behind(four, rest, 0);
    let r = places_from(rest, 0)->0;
    assert(places_from(s, 4) == Some(r));
    assert(s[0] == four[0] && s[1] == four[1] && s[2] == four[2] && s[3] == four[3]);
    if i + 2 < data.len() {
        assert(places_from(s, 3) == Some(seq![(n % 64) as u32] + r));
        assert(places_from(s, 2) == Some(seq![(n / 64 % 64) as u32] + (seq![(n % 64) as u32] + r)));
    } else if i + 1 < data.len() {
        assert(places_from(s, 3) == Some(r));
        assert(places_from(s, 2) == Some(seq![(n / 64 % 64) as u32] + r));
    } else {
        assert(places_from(s, 3) == Some(r));
        assert(places_from(s, 2) == Some(r));
    }
    let t = places_from(s, 2)->0;
    assert(places_from(s, 1) == Some(seq![(n / 4096 % 64) as u32] + t));
    assert(places_from(s, 0) == Some(
        seq![(n / 262144) as u32] + (seq![(n / 4096 % 64) as u32] + t),
    ));
    assert(seq![(n / 262144) as u32] + (seq![(n / 4096 % 64) as u32] + t) =~= four_places(data, i)
        + r);
}

proof fn lemma_places(data: Seq<u8>, i: int)
    requires
        0 <= i,
    ensures
        places_from(encoded_from(data, i), 0) == Some(all_places(data, i)),
    decreases data.len() + 3 - i,
{
    if i < data.len() {
        lemma_places(data, i + 3);
        lemma_places_of_four(data, i, encoded_from(data, i + 3));
    }
}

proof fn lemma_decoded_behind(a: Seq<u32>, b: Seq<u32>, i: int)
    requires
        0 <= i <= b.len(),
    ensures
        decoded_from(a + b, a.len() + i) == decoded_from(b, i),
    decreases b.len() - i,
{
    if i < b.len() {
        let s = a + b;
        let k = a.len() + i;
        assert(s[k] == b[i]);
        assert(forall|j: int| 0 <= j < b.len() ==> s[a.len() + j] == b[j]);
        assert(place_at(s, k) == place_at(b, i));
        assert(place_at(s, k + 1) == place_at(b, i + 1));
        assert(place_at(s, k + 2) == place_at(b, i + 2));
        assert(place_at(s, k + 3) == place_at(b, i + 3));
        if i + 4 <= b.len() {
            lemma_decoded_behind(a, b, i + 4);
        } else {
            assert(decoded_from(s, k + 4) =~= decoded_from(b, i + 4));
        }
        assert(three_bytes(s, k) =~= three_bytes(b, i));
    }
}

proof fn lemma_split_number(n: int)
    requires
        0 <= n < 16777216,
    ensures
        0 <= n / 262144 < 64,
        (n / 262144) * 262144 + (n / 4096 % 64) * 4096 + (n / 64 % 64) * 64 + n % 64 == n,
{
    assert(n / 4096 == (n / 262144) * 64 + n / 4096 % 64);
    assert(n / 64 == (n / 4096) * 64 + n / 64 % 64);
    assert(n == (n / 64) * 64 + n % 64);
}

proof fn lemma_bytes_of_triple(b0: int, b1: int, b2: int)
    requires
        0 <= b0 < 256,
        0 <= b1 < 256,
        0 <= b2 < 256,
    ensures
        ({
            let n = b0 * 65536 + b1 * 256 + b2;
            &&& 0 <= n < 16777216
            &&& n / 65536 % 256 == b0
            &&& n / 256 % 256 == b1
            &&& n % 256 == b2
            &&& b2 == 0 ==> n % 64 == 0
            &&& b1 == 0 && b2 == 0 ==> n / 64 % 64 == 0 && n % 64 == 0
        }),
{
    let n = b0 * 65536 + b1 * 256 + b2;
    assert(n / 256 == b0 * 256 + b1);
    assert(n / 65536 == b0);
    if b1 == 0 && b2 == 0 {
        assert(n / 64 == b0 * 1024);
    }
}

proof fn lemma_group(data: Seq<u8>, i: int)
    requires
        0 <= i < data.len(),
    ensures
        three_bytes(four_places(data, i), 0) == data.subrange(
            i,
            if i + 3 <= data.len() {
                i + 3
            } else {
                data.len() as int
            },
        ),
{
    let n = triple(data, i);
    let b0 = byte_at(data, i);
    let b1 = byte_at(data, i + 1);
    let b2 = byte_at(data, i + 2);
    lemma_bytes_of_triple(b0, b1, b2);
    lemma_split_number(n);
    let four = four_places(data, i);
    assert(place_at(four, 0) == n / 262144);
    assert(place_at(four, 1) == n / 4096 % 64);
    assert(place_at(four, 2) == n / 64 % 64) by {
        if i + 1 >= data.len() {
            assert(b1 == 0 && b2 == 0);
        }
    }
    assert(place_at(four, 3) == n % 64) by {
        if i + 2 >= data.len() {
            assert(b2 == 0);
        }
    }
    assert(quadruple(four, 0) == n);
    if i + 2 < data.len() {
        assert(four.len() == 4);
        assert(three_bytes(four, 0) =~= data.subrange(i, i + 3));
    } else if i + 1 < data.len() {
        assert(four.len() == 3);
        assert(three_bytes(four, 0) =~= data.subrange(i, data.len() as int));
    } else {
        assert(four.len() == 2);
        assert(three_bytes(four, 0) =~= data.subrange(i, data.len() as int));
    }
}

proof fn lemma_decoded(data: Seq<u8>, i: int)
    requires
        0 <= i,
    ensures
        decoded_from(all_places(data, i), 0) == (if i < data.len() {
            data.skip(i)
        } else {
            Seq::empty()
        }),
    decreases data.len() + 3 - i,
{
    if i < data.len() {
        lemma_decoded(data, i + 3);
        lemma_group(data, i);
        let four = four_places(data, i);
        let rest = all_places(data, i + 3);
        let v = four + rest;
        if i + 3 < data.len() {
            assert(four.len() == 4);
            lemma_decoded_behind(four, rest, 0);
            assert(place_at(v, 0) == place_at(four, 0));
            assert(place_at(v, 1) == place_at(four, 1));
            assert(place_at(v, 2) == place_at(four, 2));
            assert(place_at(v, 3) == place_at(four, 3));
            assert(three_bytes(v, 0) == three_bytes(four, 0));
            assert(data.subrange(i, i + 3) + data.skip(i + 3) =~= data.skip(i));
        } else {
            assert(rest =~= Seq::<u32>::empty());
            assert(v =~= four);
            assert(decoded_from(v, 4) =~= Seq::<u8>::empty());
            assert(data.subrange(i, data.len() as int) =~= data.skip(i));
            assert(three_bytes(v, 0) + Seq::<u8>::empty() =~= data.skip(i));
        }
    }
}

/// Bytes written with letters read back as the same bytes.
pub proof fn letters_read_back(data: Seq<u8>)
    ensures
        decoded(encoded(data)) == Ok::<Seq<u8>, Seq<char>>(data),
{
    lemma_places(data, 0);
    lemma_decoded(data, 0);
    if data.len() > 0 {
        assert(data.skip(0) =~= data);
    } else {
        assert(data =~= Seq::<u8>::empty());
    }
}

} // verus!
