//! The JSON-shaped value that options, cells, blocks and results are made of.

use crate::deep::push_deep;
use crate::text::{
    ascii_lower, concat2, copy_text, decimal, decimal_text, lower, mapped_chars, same,
};
use vstd::prelude::*;

verus! {

/// A JSON number. `Float` carries what only floating-point code can tell of it.
pub enum Number {
    /// A number that is zero or above and fits 64 bits.
    Unsigned(u64),
    /// A number below zero that fits 64 bits.
    Negative(i64),
    /// Any other number: the bits of its double-precision form and its text.
    Float { bits: u64, text: String },
}

/// A JSON value. An object keeps its members in order; a key is looked up from the front.
pub enum Value {
    Null,
    Bool(bool),
    Number(Number),
    Text(String),
    Array(Vec<Value>),
    Object(Vec<(String, Value)>),
}

/// What a [`Number`] stands for.
#[verifier::ext_equal]
pub enum Num {
    Unsigned(u64),
    Negative(i64),
    Float { bits: u64, text: Seq<char> },
}

/// What a [`Value`] stands for.
#[verifier::ext_equal]
pub enum Json {
    Null,
    Bool(bool),
    Number(Num),
    Text(Seq<char>),
    Array(Seq<Json>),
    Object(Seq<(Seq<char>, Json)>),
}

impl DeepView for Number {
    type V = Num;

    open spec fn deep_view(&self) -> Num {
        match self {
            Number::Unsigned(u) => Num::Unsigned(*u),
            Number::Negative(i) => Num::Negative(*i),
            Number::Float { bits, text } => Num::Float { bits: *bits, text: text@ },
        }
    }
}

/// The mathematical content of a value.
pub open spec fn json(v: &Value) -> Json
    decreases v,
{
    match v {
        Value::Null => Json::Null,
        Value::Bool(b) => Json::Bool(*b),
        Value::Number(n) => Json::Number(n.deep_view()),
        Value::Text(s) => Json::Text(s@),
        Value::Array(a) => Json::Array(
            Seq::new(
                a@.len(),
                |i: int|
                    if 0 <= i < a@.len() {
                        json(&a@[i])
                    } else {
                        Json::Null
                    },
            ),
        ),
        Value::Object(o) => Json::Object(
            Seq::new(
                o@.len(),
                |i: int|
                    if 0 <= i < o@.len() {
                        (o@[i].0@, json(&o@[i].1))
                    } else {
                        (Seq::empty(), Json::Null)
                    },
            ),
        ),
    }
}

impl DeepView for Value {
    type V = Json;

    open spec fn deep_view(&self) -> Json {
        json(self)
    }
}


// ── reading ─────────────────────────────────────────────────────────────────

/// The position of the first member named `key`, or the number of members.
pub open spec fn member_pos(o: Seq<(Seq<char>, Json)>, key: Seq<char>, i: int) -> int
    decreases o.len() - i,
{
    if 0 <= i < o.len() && o[i].0 != key {
        member_pos(o, key, i + 1)
    } else {
        i
    }
}

/// The member of an object under a key.
pub open spec fn field(j: Json, key: Seq<char>) -> Option<Json> {
    match j {
        Json::Object(o) => {
            let p = member_pos(o, key, 0);
            if 0 <= p < o.len() {
                Some(o[p].1)
            } else {
                None
            }
        },
        _ => None,
    }
}

pub open spec fn as_text(j: Option<Json>) -> Option<Seq<char>> {
    match j {
        Some(Json::Text(s)) => Some(s),
        _ => None,
    }
}

pub open spec fn as_bool(j: Option<Json>) -> Option<bool> {
    match j {
        Some(Json::Bool(b)) => Some(b),
        _ => None,
    }
}

pub open spec fn as_u64(j: Option<Json>) -> Option<u64> {
    match j {
        Some(Json::Number(Num::Unsigned(u))) => Some(u),
        _ => None,
    }
}

pub open spec fn as_i64(j: Option<Json>) -> Option<i64> {
    match j {
        Some(Json::Number(Num::Unsigned(u))) => if u <= i64::MAX {
            Some(u as i64)
        } else {
            None
        },
        Some(Json::Number(Num::Negative(i))) => Some(i),
        _ => None,
    }
}

pub open spec fn as_array(j: Option<Json>) -> Option<Seq<Json>> {
    match j {
        Some(Json::Array(a)) => Some(a),
        _ => None,
    }
}

/// Reads a borrowed optional value as its content.
pub open spec fn opt_json(v: Option<&Value>) -> Option<Json> {
    match v {
        Some(x) => Some(x.deep_view()),
        None => None,
    }
}

pub proof fn lemma_array_view(a: &Vec<Value>)
    ensures
        json(&Value::Array(*a)) == Json::Array(a.deep_view()),
{
    assert(json(&Value::Array(*a))->Array_0 =~= a.deep_view());
}

pub proof fn lemma_object_view(o: &Vec<(String, Value)>)
    ensures
        json(&Value::Object(*o)) == Json::Object(o.deep_view()),
{
    assert(json(&Value::Object(*o))->Object_0 =~= o.deep_view());
}

proof fn lemma_item_below(v: &Value, a: &Vec<Value>, i: int)
    requires
        v == &Value::Array(*a),
        0 <= i < a@.len(),
    ensures
        decreases_to!(*v => a@[i]),
{
    assert(decreases_to!(*v => v->Array_0));
    assert(decreases_to!(v->Array_0 => v->Array_0@));
    assert(decreases_to!(v->Array_0@ => v->Array_0@[i]));
}

proof fn lemma_member_below(v: &Value, o: &Vec<(String, Value)>, i: int)
    requires
        v == &Value::Object(*o),
        0 <= i < o@.len(),
    ensures
        decreases_to!(*v => o@[i].1),
{
    assert(decreases_to!(*v => v->Object_0));
    assert(decreases_to!(v->Object_0 => v->Object_0@));
    assert(decreases_to!(v->Object_0@ => v->Object_0@[i]));
    assert(decreases_to!(v->Object_0@[i] => v->Object_0@[i].1));
}

impl Number {
    pub fn dup(&self) -> (r: Number)
        ensures
            r.deep_view() == self.deep_view(),
    {
        match self {
            Number::Unsigned(u) => Number::Unsigned(*u),
            Number::Negative(i) => Number::Negative(*i),
            Number::Float { bits, text } => Number::Float { bits: *bits, text: text.clone() },
        }
    }
}

impl Value {
    /// A copy with the same content.
    pub fn dup(&self) -> (r: Value)
        ensures
            r.deep_view() == self.deep_view(),
        decreases self,
    {
        match self {
            Value::Null => Value::Null,
            Value::Bool(b) => Value::Bool(*b),
            Value::Number(n) => Value::Number(n.dup()),
            Value::Text(s) => Value::Text(s.clone()),
            Value::Array(a) => {
                let mut out: Vec<Value> = Vec::new();
                let mut i: usize = 0;
                while i < a.len()
                    invariant
                        i <= a@.len(),
                        self == &Value::Array(*a),
                        out.deep_view() == a.deep_view().take(i as int),
                    decreases a@.len() - i,
                {
                    proof {
                        lemma_item_below(self, a, i as int);
                    }
                    push_deep(&mut out, a[i].dup());
                    i = i + 1;
                    assert(out.deep_view() =~= a.deep_view().take(i as int));
                }
                assert(a.deep_view().take(i as int) =~= a.deep_view());
                proof {
                    lemma_array_view(a);
                    lemma_array_view(&out);
                }
                Value::Array(out)
            },
            Value::Object(o) => {
                let mut out: Vec<(String, Value)> = Vec::new();
                let mut i: usize = 0;
                while i < o.len()
                    invariant
                        i <= o@.len(),
                        self == &Value::Object(*o),
                        out.deep_view() == o.deep_view().take(i as int),
                    decreases o@.len() - i,
                {
                    proof {
                        lemma_member_below(self, o, i as int);
                    }
                    push_deep(&mut out, (o[i].0.clone(), o[i].1.dup()));
                    assert(out.deep_view().last() == (o@[i as int].0@, o@[i as int].1.deep_view()));
                    i = i + 1;
                    assert(out.deep_view() =~= o.deep_view().take(i as int));
                }
                assert(o.deep_view().take(i as int) =~= o.deep_view());
                proof {
                    lemma_object_view(o);
                    lemma_object_view(&out);
                }
                Value::Object(out)
            },
        }
    }

    /// The member under `key`, where this is an object that has one.
    pub fn get(&self, key: &str) -> (r: Option<&Value>)
        ensures
            opt_json(r) == field(self.deep_view(), key@),
    {
        match self {
            Value::Object(o) => {
                proof {
                    lemma_object_view(o);
                }
                let mut i: usize = 0;
                while i < o.len()
                    invariant
                        i <= o@.len(),
                        self.deep_view() == Json::Object(o.deep_view()),
                        member_pos(o.deep_view(), key@, 0) == member_pos(
                            o.deep_view(),
                            key@,
                            i as int,
                        ),
                    decreases o@.len() - i,
                {
                    assert(o.deep_view()[i as int] == (o@[i as int].0@, json(&o@[i as int].1)));
                    if same(o[i].0.as_str(), key) {
                        return Some(&o[i].1);
                    }
                    i = i + 1;
                }
                None
            },
            _ => None,
        }
    }

    pub fn as_str(&self) -> (r: Option<&str>)
        ensures
            match r {
                Some(s) => as_text(Some(self.deep_view())) == Some(s@),
                None => as_text(Some(self.deep_view())) is None,
            },
    {
        match self {
            Value::Text(s) => Some(s.as_str()),
            _ => None,
        }
    }

    pub fn as_bool(&self) -> (r: Option<bool>)
        ensures
            r == as_bool(Some(self.deep_view())),
    {
        match self {
            Value::Bool(b) => Some(*b),
            _ => None,
        }
    }

    pub fn as_u64(&self) -> (r: Option<u64>)
        ensures
            r == as_u64(Some(self.deep_view())),
    {
        match self {
            Value::Number(Number::Unsigned(u)) => Some(*u),
            _ => None,
        }
    }

    pub fn as_i64(&self) -> (r: Option<i64>)
        ensures
            r == as_i64(Some(self.deep_view())),
    {
        match self {
            Value::Number(Number::Unsigned(u)) => if *u <= 0x7fff_ffff_ffff_ffff {
                Some(*u as i64)
            } else {
                None
            },
            Value::Number(Number::Negative(i)) => Some(*i),
            _ => None,
        }
    }

    pub fn as_array(&self) -> (r: Option<&Vec<Value>>)
        ensures
            match r {
                Some(a) => as_array(Some(self.deep_view())) == Some(a.deep_view()),
                None => as_array(Some(self.deep_view())) is None,
            },
    {
        match self {
            Value::Array(a) => {
                proof {
                    lemma_array_view(a);
                }
                Some(a)
            },
            _ => None,
        }
    }

    pub fn is_null(&self) -> (r: bool)
        ensures
            r == (self.deep_view() == Json::Null),
    {
        matches!(self, Value::Null)
    }

    pub fn is_object(&self) -> (r: bool)
        ensures
            r == (self.deep_view() is Object),
    {
        matches!(self, Value::Object(_))
    }

    /// The text under `key`.
    pub fn text_at(&self, key: &str) -> (r: Option<&str>)
        ensures
            match r {
                Some(s) => as_text(field(self.deep_view(), key@)) == Some(s@),
                None => as_text(field(self.deep_view(), key@)) is None,
            },
    {
        match self.get(key) {
            Some(v) => v.as_str(),
            None => None,
        }
    }

    /// The unsigned number under `key`.
    pub fn u64_at(&self, key: &str) -> (r: Option<u64>)
        ensures
            r == as_u64(field(self.deep_view(), key@)),
    {
        match self.get(key) {
            Some(v) => v.as_u64(),
            None => None,
        }
    }

    /// The whole number under `key`.
    pub fn i64_at(&self, key: &str) -> (r: Option<i64>)
        ensures
            r == as_i64(field(self.deep_view(), key@)),
    {
        match self.get(key) {
            Some(v) => v.as_i64(),
            None => None,
        }
    }

    /// The boolean under `key`.
    pub fn bool_at(&self, key: &str) -> (r: Option<bool>)
        ensures
            r == as_bool(field(self.deep_view(), key@)),
    {
        match self.get(key) {
            Some(v) => v.as_bool(),
            None => None,
        }
    }

    /// The array under `key`.
    pub fn array_at(&self, key: &str) -> (r: Option<&Vec<Value>>)
        ensures
            match r {
                Some(a) => as_array(field(self.deep_view(), key@)) == Some(a.deep_view()),
                None => as_array(field(self.deep_view(), key@)) is None,
            },
    {
        match self.get(key) {
            Some(v) => v.as_array(),
            None => None,
        }
    }
}

// ── options ─────────────────────────────────────────────────────────────────

/// The text option under `key`; an error naming the key where there is none.
pub open spec fn required_text(opts: Json, key: Seq<char>) -> Result<Seq<char>, Seq<char>> {
    match as_text(field(opts, key)) {
        Some(s) => Ok(s),
        None => Err("missing "@ + key),
    }
}

pub fn req_str<'a>(v: &'a Value, key: &str) -> (r: Result<&'a str, String>)
    ensures
        match r {
            Ok(s) => required_text(v.deep_view(), key@) == Ok::<Seq<char>, Seq<char>>(s@),
            Err(e) => required_text(v.deep_view(), key@) == Err::<Seq<char>, Seq<char>>(e@),
        },
{
    match v.text_at(key) {
        Some(s) => Ok(s),
        None => Err(concat2("missing ", key)),
    }
}

/// The unsigned option under `key`; an error naming the key where there is none.
pub open spec fn required_u64(opts: Json, key: Seq<char>) -> Result<u64, Seq<char>> {
    match as_u64(field(opts, key)) {
        Some(u) => Ok(u),
        None => Err("missing "@ + key),
    }
}

pub fn req_u64_img(v: &Value, key: &str) -> (r: Result<u64, String>)
    ensures
        match r {
            Ok(u) => required_u64(v.deep_view(), key@) == Ok::<u64, Seq<char>>(u),
            Err(e) => required_u64(v.deep_view(), key@) == Err::<u64, Seq<char>>(e@),
        },
{
    match v.u64_at(key) {
        Some(u) => Ok(u),
        None => Err(concat2("missing ", key)),
    }
}

/// The whole number under `key`, or `default`.
pub fn opt_i64(v: &Value, key: &str, default: i64) -> (r: i64)
    ensures
        r == as_i64(field(v.deep_view(), key@)).unwrap_or(default),
{
    match v.i64_at(key) {
        Some(i) => i,
        None => default,
    }
}

/// The unsigned number under `key` cut down to its low 32 bits, or `default`.
pub fn opt_u32(v: &Value, key: &str, default: u32) -> (r: u32)
    ensures
        r == (match as_u64(field(v.deep_view(), key@)) {
            Some(u) => u as u32,
            None => default,
        }),
{
    match v.u64_at(key) {
        Some(u) => {
            #[verifier::truncate]
            let low = u as u32;
            low
        },
        None => default,
    }
}

/// Whether the bits are those of positive or negative zero.
pub open spec fn is_zero_bits(bits: u64) -> bool {
    bits == 0 || bits == 0x8000_0000_0000_0000
}

/// A lenient boolean: true and false themselves, any number but zero, the words
/// `true`, `1`, `yes`, `on` in any ASCII case. Null is no flag at all.
pub open spec fn flag(j: Json) -> Option<bool> {
    match j {
        Json::Bool(b) => Some(b),
        Json::Number(Num::Unsigned(u)) => Some(u != 0),
        Json::Number(Num::Negative(i)) => Some(i != 0),
        Json::Number(Num::Float { bits, text }) => Some(!is_zero_bits(bits)),
        Json::Text(s) => Some(
            lower(s) == "true"@ || lower(s) == "1"@ || lower(s) == "yes"@ || lower(s) == "on"@,
        ),
        Json::Null => None,
        _ => Some(false),
    }
}

pub fn flag_of(v: &Value) -> (r: Option<bool>)
    ensures
        r == flag(v.deep_view()),
{
    match v {
        Value::Bool(b) => Some(*b),
        Value::Number(Number::Unsigned(u)) => Some(*u != 0),
        Value::Number(Number::Negative(i)) => Some(*i != 0),
        Value::Number(Number::Float { bits, text: _ }) => Some(
            *bits != 0 && *bits != 0x8000_0000_0000_0000,
        ),
        Value::Text(s) => {
            let l = ascii_lower(s.as_str());
            Some(
                same(l.as_str(), "true") || same(l.as_str(), "1") || same(l.as_str(), "yes") || same(
                    l.as_str(),
                    "on",
                ),
            )
        },
        Value::Null => None,
        _ => Some(false),
    }
}

/// The flag under `key`.
pub open spec fn flag_at(opts: Json, key: Seq<char>) -> Option<bool> {
    match field(opts, key) {
        Some(j) => flag(j),
        None => None,
    }
}

pub fn opt_flag(opts: &Value, key: &str) -> (r: Option<bool>)
    ensures
        r == flag_at(opts.deep_view(), key@),
{
    match opts.get(key) {
        Some(v) => flag_of(v),
        None => None,
    }
}

// ── text ────────────────────────────────────────────────────────────────────

/// A digit of a number below 16.
pub open spec fn hex_letter(n: int) -> char {
    if n < 10 {
        (48 + n) as char
    } else {
        (87 + n) as char
    }
}

/// A character inside a JSON string literal: quotes, backslashes and control characters are
/// escaped.
pub open spec fn json_char(c: char) -> Seq<char> {
    let n = c as int;
    if c == '"' || c == '\\' {
        seq!['\\', c]
    } else if n == 8 {
        seq!['\\', 'b']
    } else if n == 9 {
        seq!['\\', 't']
    } else if n == 10 {
        seq!['\\', 'n']
    } else if n == 12 {
        seq!['\\', 'f']
    } else if n == 13 {
        seq!['\\', 'r']
    } else if n < 32 {
        seq!['\\', 'u', '0', '0', hex_letter(n / 16), hex_letter(n % 16)]
    } else {
        seq![c]
    }
}

/// A text as a JSON string literal.
pub open spec fn json_quoted(s: Seq<char>) -> Seq<char> {
    seq!['"'] + mapped_chars(s, |c: char| json_char(c), s.len()) + seq!['"']
}

/// `serde_json::Value::to_string` of a string: its JSON literal, in which a control character
/// without a letter of its own is written with two small hexadecimal digits.
#[verifier::external_body]
fn json_quote(s: &str) -> (r: String)
    ensures
        r@ == json_quoted(s@),
{
    serde_json::Value::String(s.to_owned()).to_string()
}

pub open spec fn num_text(n: Num) -> Seq<char> {
    match n {
        Num::Unsigned(u) => decimal(u as nat),
        Num::Negative(i) => if i < 0 {
            "-"@ + decimal((-i) as nat)
        } else {
            decimal(i as nat)
        },
        Num::Float { bits, text } => text,
    }
}

/// The compact JSON form of a value.
pub open spec fn json_text(j: Json) -> Seq<char>
    decreases j, 0nat,
{
    match j {
        Json::Null => "null"@,
        Json::Bool(b) => if b {
            "true"@
        } else {
            "false"@
        },
        Json::Number(n) => num_text(n),
        Json::Text(s) => json_quoted(s),
        Json::Array(a) => "["@ + items_text(a, a.len()) + "]"@,
        Json::Object(o) => "{"@ + members_text(o, o.len()) + "}"@,
    }
}

/// The first `n` items in JSON form, with commas between them.
pub open spec fn items_text(a: Seq<Json>, n: nat) -> Seq<char>
    decreases a, n,
{
    if n == 0 || n > a.len() {
        ""@
    } else if n == 1 {
        json_text(a[0])
    } else {
        items_text(a, (n - 1) as nat) + ","@ + json_text(a[n - 1])
    }
}

/// The first `n` members in JSON form, with commas between them.
pub open spec fn members_text(o: Seq<(Seq<char>, Json)>, n: nat) -> Seq<char>
    decreases o, n,
{
    if n == 0 || n > o.len() {
        ""@
    } else if n == 1 {
        json_quoted(o[0].0) + ":"@ + json_text(o[0].1)
    } else {
        members_text(o, (n - 1) as nat) + ","@ + json_quoted(o[n - 1].0) + ":"@ + json_text(
            o[n - 1].1,
        )
    }
}

pub fn number_text(n: &Number) -> (r: String)
    ensures
        r@ == num_text(n.deep_view()),
{
    match n {
        Number::Unsigned(u) => decimal_text(*u),
        Number::Negative(i) => {
            if *i < 0 {
                let m: u64 = (-(*i as i128)) as u64;
                concat2("-", decimal_text(m).as_str())
            } else {
                decimal_text(*i as u64)
            }
        },
        Number::Float { bits: _, text } => text.clone(),
    }
}

/// The compact JSON form of a value.
pub fn to_json(v: &Value) -> (r: String)
    ensures
        r@ == json_text(v.deep_view()),
    decreases v,
{
    match v {
        Value::Null => copy_text("null"),
        Value::Bool(b) => if *b {
            copy_text("true")
        } else {
            copy_text("false")
        },
        Value::Number(n) => number_text(n),
        Value::Text(s) => json_quote(s.as_str()),
        Value::Array(a) => {
            let mut out = copy_text("[");
            let mut i: usize = 0;
            assert(""@ =~= Seq::<char>::empty()) by {
                reveal_strlit("");
            }
            assert(out@ =~= "["@ + items_text(a.deep_view(), 0));
            while i < a.len()
                invariant
                    i <= a@.len(),
                    v == &Value::Array(*a),
                    ""@ =~= Seq::<char>::empty(),
                    out@ == "["@ + items_text(a.deep_view(), i as nat),
                decreases a@.len() - i,
            {
                proof {
                    lemma_item_below(v, a, i as int);
                }
                let ghost before = out@;
                if i > 0 {
                    out.push_str(",");
                }
                out.push_str(to_json(&a[i]).as_str());
                i = i + 1;
                assert(a.deep_view()[i - 1] == a@[i - 1].deep_view());
                assert(out@ =~= "["@ + items_text(a.deep_view(), i as nat));
            }
            out.push_str("]");
            proof {
                lemma_array_view(a);
            }
            out
        },
        Value::Object(o) => {
            let mut out = copy_text("{");
            let mut i: usize = 0;
            assert(""@ =~= Seq::<char>::empty()) by {
                reveal_strlit("");
            }
            assert(out@ =~= "{"@ + members_text(o.deep_view(), 0));
            while i < o.len()
                invariant
                    i <= o@.len(),
                    v == &Value::Object(*o),
                    ""@ =~= Seq::<char>::empty(),
                    out@ == "{"@ + members_text(o.deep_view(), i as nat),
                decreases o@.len() - i,
            {
                proof {
                    lemma_member_below(v, o, i as int);
                }
                if i > 0 {
                    out.push_str(",");
                }
                out.push_str(json_quote(o[i].0.as_str()).as_str());
                out.push_str(":");
                out.push_str(to_json(&o[i].1).as_str());
                i = i + 1;
                assert(o.deep_view()[i - 1] == (o@[i - 1].0@, o@[i - 1].1.deep_view()));
                assert(out@ =~= "{"@ + members_text(o.deep_view(), i as nat));
            }
            out.push_str("}");
            proof {
                lemma_object_view(o);
            }
            out
        },
    }
}

/// The display text of a cell: nothing for null, a text as it is, the JSON form
/// of anything else.
pub open spec fn cell_text(j: Json) -> Seq<char> {
    match j {
        Json::Null => Seq::empty(),
        Json::Text(s) => s,
        _ => json_text(j),
    }
}

pub fn cell_to_string(v: &Value) -> (r: String)
    ensures
        r@ == cell_text(v.deep_view()),
{
    match v {
        Value::Null => String::new(),
        Value::Text(s) => s.clone(),
        _ => to_json(v),
    }
}

/// The value a rich cell shows: its `v` member, else its `value` member, else null.
pub open spec fn shown(j: Json) -> Json {
    if j is Object {
        match field(j, "v"@) {
            Some(x) => x,
            None => match field(j, "value"@) {
                Some(x) => x,
                None => Json::Null,
            },
        }
    } else {
        j
    }
}

/// Display text of a sheet cell, unwrapping rich cells.
pub fn sheet_cell_disp(c: &Value) -> (r: String)
    ensures
        r@ == cell_text(shown(c.deep_view())),
{
    if c.is_object() {
        match c.get("v") {
            Some(x) => cell_to_string(x),
            None => match c.get("value") {
                Some(x) => cell_to_string(x),
                None => String::new(),
            },
        }
    } else {
        cell_to_string(c)
    }
}

/// A copy of an array.
pub fn copy_values(a: &Vec<Value>) -> (r: Vec<Value>)
    ensures
        r.deep_view() == a.deep_view(),
{
    let mut out: Vec<Value> = Vec::new();
    let mut i: usize = 0;
    while i < a.len()
        invariant
            i <= a@.len(),
            out.deep_view() == a.deep_view().take(i as int),
        decreases a@.len() - i,
    {
        push_deep(&mut out, a[i].dup());
        i = i + 1;
        assert(out.deep_view() =~= a.deep_view().take(i as int));
    }
    assert(a.deep_view().take(i as int) =~= a.deep_view());
    out
}

// ── building ────────────────────────────────────────────────────────────────

/// Appends a member to the members of an object under construction.
pub fn add_member(o: &mut Vec<(String, Value)>, key: &str, v: Value)
    ensures
        final(o).deep_view() == old(o).deep_view().push((key@, v.deep_view())),
{
    o.push((copy_text(key), v));
    assert(o.deep_view() =~= old(o).deep_view().push((key@, v.deep_view())));
}

pub fn object(o: Vec<(String, Value)>) -> (r: Value)
    ensures
        r.deep_view() == Json::Object(o.deep_view()),
{
    proof {
        lemma_object_view(&o);
    }
    Value::Object(o)
}

pub fn array(a: Vec<Value>) -> (r: Value)
    ensures
        r.deep_view() == Json::Array(a.deep_view()),
{
    proof {
        lemma_array_view(&a);
    }
    Value::Array(a)
}

pub fn text_value(s: &str) -> (r: Value)
    ensures
        r.deep_view() == Json::Text(s@),
{
    Value::Text(copy_text(s))
}

pub fn count_value(n: usize) -> (r: Value)
    ensures
        r.deep_view() == Json::Number(Num::Unsigned(n as u64)),
{
    Value::Number(Number::Unsigned(n as u64))
}

// ── what values show ────────────────────────────────────────────────────────

/// A field of an object is its first member of the name; what is no object has none.
pub proof fn fields_are_first_of_their_name(o: Seq<(Seq<char>, Json)>, key: Seq<char>, i: int)
    requires
        0 <= i < o.len(),
        forall|k: int| 0 <= k < i ==> (#[trigger] o[k]).0 != key,
    ensures
        o[i].0 == key ==> field(Json::Object(o), key) == Some(o[i].1),
        (forall|k: int| 0 <= k < o.len() ==> (#[trigger] o[k]).0 != key) ==> field(
            Json::Object(o),
            key,
        ) is None,
        field(Json::Array(Seq::empty()), key) is None,
        field(Json::Null, key) is None,
{
    lemma_member_place(o, key, 0);
}

proof fn lemma_member_place(o: Seq<(Seq<char>, Json)>, key: Seq<char>, from: int)
    requires
        0 <= from <= o.len(),
    ensures
        from <= member_pos(o, key, from) <= o.len(),
        member_pos(o, key, from) < o.len() ==> o[member_pos(o, key, from)].0 == key,
        forall|k: int| from <= k < member_pos(o, key, from) ==> (#[trigger] o[k]).0 != key,
    decreases o.len() - from,
{
    if from < o.len() && o[from].0 != key {
        lemma_member_place(o, key, from + 1);
    }
}

/// A cell shows a text as it is, nothing where it holds nothing, a truth value as its word, a
/// whole number in its digits with a sign before a negative one, and a fraction as it is
/// written.
pub proof fn cells_show_what_they_hold(t: Seq<char>, n: u64, i: i64, bits: u64)
    requires
        i < 0,
    ensures
        cell_text(Json::Null).len() == 0,
        cell_text(Json::Text(t)) == t,
        cell_text(Json::Bool(true)) == "true"@,
        cell_text(Json::Bool(false)) == "false"@,
        cell_text(Json::Number(Num::Unsigned(n))) == decimal(n as nat),
        cell_text(Json::Number(Num::Negative(i))) == "-"@ + decimal((-i) as nat),
        cell_text(Json::Number(Num::Float { bits, text: t })) == t,
{
}

/// A list shows its items in brackets and an object its members in braces, with commas between
/// them; a text within them stands in quotes.
pub proof fn lists_show_their_items(a: Seq<Json>, o: Seq<(Seq<char>, Json)>, x: Json, k: Seq<char>)
    ensures
        cell_text(Json::Array(a)) == "["@ + items_text(a, a.len()) + "]"@,
        items_text(Seq::empty(), 0) == ""@,
        items_text(seq![x], 1) == json_text(x),
        a.len() > 0 ==> items_text(a.push(x), a.len() + 1) == items_text(a, a.len()) + ","@
            + json_text(x),
        cell_text(Json::Object(o)) == "{"@ + members_text(o, o.len()) + "}"@,
        members_text(seq![(k, x)], 1) == json_quoted(k) + ":"@ + json_text(x),
        o.len() > 0 ==> members_text(o.push((k, x)), o.len() + 1) == members_text(o, o.len())
            + ","@ + json_quoted(k) + ":"@ + json_text(x),
{
    lemma_same_items(a.push(x), a, a.len());
    lemma_same_members(o.push((k, x)), o, o.len());
}

proof fn lemma_same_items(a: Seq<Json>, b: Seq<Json>, n: nat)
    requires
        n <= a.len(),
        n <= b.len(),
        forall|i: int| 0 <= i < n ==> a[i] == b[i],
    ensures
        items_text(a, n) == items_text(b, n),
    decreases n,
{
    if n > 1 {
        lemma_same_items(a, b, (n - 1) as nat);
    }
}

proof fn lemma_same_members(a: Seq<(Seq<char>, Json)>, b: Seq<(Seq<char>, Json)>, n: nat)
    requires
        n <= a.len(),
        n <= b.len(),
        forall|i: int| 0 <= i < n ==> a[i] == b[i],
    ensures
        members_text(a, n) == members_text(b, n),
    decreases n,
{
    if n > 1 {
        lemma_same_members(a, b, (n - 1) as nat);
    }
}

/// A cell that is an object shows what it holds under its value, and any other shows itself.
pub proof fn rich_cells_show_their_value(j: Json)
    ensures
        !(j is Object) ==> shown(j) == j,
        field(j, "v"@) is Some ==> shown(j) == field(j, "v"@)->0,
        field(j, "v"@) is None && field(j, "value"@) is Some ==> shown(j) == field(
            j,
            "value"@,
        )->0,
        j is Object && field(j, "v"@) is None && field(j, "value"@) is None ==> shown(j)
            == Json::Null,
{
}

/// A flag is set by what is true, by a number that is not zero and by the words for yes, and is
/// unset by any other number or word; a null says nothing.
pub proof fn flags_are_set_by_what_is_true(n: u64, i: i64, t: Seq<char>)
    requires
        i != 0,
        n != 0,
    ensures
        flag(Json::Bool(true)) == Some(true),
        flag(Json::Bool(false)) == Some(false),
        flag(Json::Null) is None,
        flag(Json::Number(Num::Unsigned(0))) == Some(false),
        flag(Json::Number(Num::Unsigned(n))) == Some(true),
        flag(Json::Number(Num::Negative(i))) == Some(true),
        flag(Json::Text(t)) == Some(
            lower(t) == "true"@ || lower(t) == "1"@ || lower(t) == "yes"@ || lower(t) == "on"@,
        ),
{
}

} // verus!
