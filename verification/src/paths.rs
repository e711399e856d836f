//! Paths with `/` between their parts: file names, extensions, and references
//! from one part of a container to another.

use crate::deep::push_deep;
use crate::text::{
    ascii_lower, chars_of, join, join_texts, lower, same, slice_text, split, split_text,
};
use crate::value::{as_text, field, Json, Value};
use vstd::prelude::*;

verus! {

/// Where the last named part of a path ends: before slashes and `/.` at its end.
pub open spec fn name_end(s: Seq<char>, n: int) -> int
    decreases n,
{
    if 0 < n <= s.len() && s[n - 1] == '/' {
        name_end(s, n - 1)
    } else if 1 < n <= s.len() && s[n - 1] == '.' && s[n - 2] == '/' {
        name_end(s, n - 1)
    } else {
        n
    }
}

/// The position after the last `c` among the first `n` characters, or 0.
pub open spec fn after_last(s: Seq<char>, c: char, n: int) -> int
    decreases n,
{
    if 0 < n <= s.len() && s[n - 1] != c {
        after_last(s, c, n - 1)
    } else if n < 0 {
        0
    } else {
        n
    }
}

/// The last part of a path; nothing for a path that ends in `..`, for the root
/// and for `.` itself.
pub open spec fn file_name(path: Seq<char>) -> Option<Seq<char>> {
    let e = name_end(path, path.len() as int);
    let name = path.subrange(after_last(path, '/', e), e);
    if name.len() == 0 || name == "."@ || name == ".."@ {
        None
    } else {
        Some(name)
    }
}

/// What follows the last dot of a file name, where the dot is not its first character.
pub open spec fn name_ext(name: Seq<char>) -> Option<Seq<char>> {
    let p = after_last(name, '.', name.len() as int);
    if p > 1 {
        Some(name.subrange(p, name.len() as int))
    } else {
        None
    }
}

/// A file name without its extension.
pub open spec fn name_stem(name: Seq<char>) -> Seq<char> {
    let p = after_last(name, '.', name.len() as int);
    if p > 1 {
        name.subrange(0, p - 1)
    } else {
        name
    }
}

/// The extension of a path in ASCII lower case; empty where it has none.
pub open spec fn extension(path: Seq<char>) -> Seq<char> {
    match file_name(path) {
        Some(name) => match name_ext(name) {
            Some(e) => lower(e),
            None => Seq::empty(),
        },
        None => Seq::empty(),
    }
}

fn find_after_last(cs: &Vec<char>, c: char, n: usize) -> (r: usize)
    requires
        n <= cs@.len(),
    ensures
        r == after_last(cs@, c, n as int),
        r <= n,
{
    let mut k: usize = n;
    while k > 0 && cs[k - 1] != c
        invariant
            k <= n <= cs@.len(),
            after_last(cs@, c, n as int) == after_last(cs@, c, k as int),
        decreases k,
    {
        k = k - 1;
    }
    k
}

/// The last part of a path.
pub fn base_name(path: &str) -> (r: Option<String>)
    ensures
        match r {
            Some(n) => file_name(path@) == Some(n@),
            None => file_name(path@) is None,
        },
{
    let cs = chars_of(path);
    let mut e: usize = cs.len();
    while e > 0 && (cs[e - 1] == '/' || (e > 1 && cs[e - 1] == '.' && cs[e - 2] == '/'))
        invariant
            e <= cs@.len(),
            name_end(cs@, cs@.len() as int) == name_end(cs@, e as int),
        decreases e,
    {
        e = e - 1;
    }
    let a = find_after_last(&cs, '/', e);
    let name = slice_text(&cs, a, e);
    if a >= e || same(name.as_str(), ".") || same(name.as_str(), "..") {
        None
    } else {
        Some(name)
    }
}

/// The extension of a path in ASCII lower case.
pub fn ext_of(path: &str) -> (r: String)
    ensures
        r@ == extension(path@),
{
    match base_name(path) {
        Some(name) => {
            let cs = chars_of(name.as_str());
            let p = find_after_last(&cs, '.', cs.len());
            if p > 1 {
                ascii_lower(slice_text(&cs, p, cs.len()).as_str())
            } else {
                String::new()
            }
        },
        None => String::new(),
    }
}

/// The last part of a path without its extension.
pub fn stem_of(path: &str) -> (r: Option<String>)
    ensures
        match r {
            Some(s) => file_name(path@) matches Some(n) && name_stem(n) == s@,
            None => file_name(path@) is None,
        },
{
    match base_name(path) {
        Some(name) => {
            let cs = chars_of(name.as_str());
            let p = find_after_last(&cs, '.', cs.len());
            if p > 1 {
                Some(slice_text(&cs, 0, p - 1))
            } else {
                Some(name)
            }
        },
        None => None,
    }
}

/// The format to write: the one that the options name, else the extension.
pub open spec fn wanted_ext(opts: Json, path: Seq<char>) -> Seq<char> {
    match as_text(field(opts, "format"@)) {
        Some(f) => lower(f),
        None => extension(path),
    }
}

pub fn target_ext(opts: &Value, path: &str) -> (r: String)
    ensures
        r@ == wanted_ext(opts.deep_view(), path@),
{
    match opts.text_at("format") {
        Some(f) => ascii_lower(f),
        None => ext_of(path),
    }
}

// ── references between parts ────────────────────────────────────────────────

/// The pieces of a path that are not empty, among the first `n`.
pub open spec fn named_parts(pieces: Seq<Seq<char>>, n: nat) -> Seq<Seq<char>>
    decreases n,
{
    if n == 0 || n > pieces.len() {
        Seq::empty()
    } else {
        let before = named_parts(pieces, (n - 1) as nat);
        if pieces[n - 1].len() == 0 {
            before
        } else {
            before.push(pieces[n - 1])
        }
    }
}

/// Walks along the first `n` segments from `base`: `..` goes up, `.` and the
/// empty segment stay, any other goes down.
pub open spec fn walk(base: Seq<Seq<char>>, segs: Seq<Seq<char>>, n: nat) -> Seq<Seq<char>>
    decreases n,
{
    if n == 0 || n > segs.len() {
        base
    } else {
        let at = walk(base, segs, (n - 1) as nat);
        let seg = segs[n - 1];
        if seg.len() == 0 || seg == "."@ {
            at
        } else if seg == ".."@ {
            if at.len() > 0 {
                at.drop_last()
            } else {
                at
            }
        } else {
            at.push(seg)
        }
    }
}

/// The parts that a reference leads to, seen from a directory of the container.
pub open spec fn resolved_parts(base_dir: Seq<char>, target: Seq<char>) -> Seq<Seq<char>> {
    let b = split(base_dir, '/');
    let t = split(target, '/');
    walk(named_parts(b, b.len()), t, t.len())
}

/// The entry that a reference leads to: what follows the slash of one that starts
/// with a slash, else the way from the directory of the part that refers.
pub open spec fn resolved_path(base_dir: Seq<char>, target: Seq<char>) -> Seq<char> {
    if target.len() > 0 && target[0] == '/' {
        target.drop_first()
    } else {
        join(resolved_parts(base_dir, target), "/"@)
    }
}

pub fn resolve_zip_path(base_dir: &str, target: &str) -> (r: String)
    ensures
        r@ == resolved_path(base_dir@, target@),
{
    let tc = chars_of(target);
    if tc.len() > 0 && tc[0] == '/' {
        let r = slice_text(&tc, 1, tc.len());
        assert(r@ =~= target@.drop_first());
        return r;
    }
    let mut parts: Vec<String> = Vec::new();
    let base = split_text(base_dir, '/');
    let mut i: usize = 0;
    assert(parts.deep_view() =~= Seq::<Seq<char>>::empty());
    while i < base.len()
        invariant
            i <= base@.len(),
            parts.deep_view() == named_parts(base.deep_view(), i as nat),
        decreases base@.len() - i,
    {
        assert(base.deep_view()[i as int] == base@[i as int]@);
        if !base[i].as_str().is_empty() {
            push_deep(&mut parts, base[i].clone());
        }
        i = i + 1;
    }
    let ghost start = parts.deep_view();
    let segs = split_text(target, '/');
    let mut k: usize = 0;
    while k < segs.len()
        invariant
            k <= segs@.len(),
            parts.deep_view() == walk(start, segs.deep_view(), k as nat),
        decreases segs@.len() - k,
    {
        assert(segs.deep_view()[k as int] == segs@[k as int]@);
        let seg = segs[k].as_str();
        if seg.is_empty() || same(seg, ".") {
        } else if same(seg, "..") {
            let ghost before = parts.deep_view();
            let popped = parts.pop();
            assert(before.len() > 0 ==> parts.deep_view() =~= before.drop_last());
            assert(before.len() == 0 ==> parts.deep_view() =~= before);
        } else {
            push_deep(&mut parts, segs[k].clone());
        }
        k = k + 1;
    }
    join_texts(&parts, "/")
}

/// A part that can name an entry: neither empty nor `.` nor `..`.
pub open spec fn is_entry_part(p: Seq<char>) -> bool {
    p.len() > 0 && p != "."@ && p != ".."@
}

proof fn lemma_walk_clean(base: Seq<Seq<char>>, segs: Seq<Seq<char>>, n: nat)
    requires
        forall|i: int| 0 <= i < base.len() ==> is_entry_part(#[trigger] base[i]),
    ensures
        forall|i: int|
            0 <= i < walk(base, segs, n).len() ==> is_entry_part(
                #[trigger] walk(base, segs, n)[i],
            ),
    decreases n,
{
    if n > 0 && n <= segs.len() {
        lemma_walk_clean(base, segs, (n - 1) as nat);
        let at = walk(base, segs, (n - 1) as nat);
        assert forall|i: int| 0 <= i < walk(base, segs, n).len() implies is_entry_part(
            #[trigger] walk(base, segs, n)[i],
        ) by {
            if i < at.len() {
                assert(is_entry_part(at[i]));
            }
        }
    }
}

proof fn lemma_named_clean(pieces: Seq<Seq<char>>, n: nat)
    requires
        forall|i: int|
            0 <= i < pieces.len() ==> (#[trigger] pieces[i]) != "."@ && pieces[i] != ".."@,
    ensures
        forall|i: int|
            0 <= i < named_parts(pieces, n).len() ==> is_entry_part(
                #[trigger] named_parts(pieces, n)[i],
            ),
    decreases n,
{
    if n > 0 && n <= pieces.len() {
        lemma_named_clean(pieces, (n - 1) as nat);
        let at = named_parts(pieces, (n - 1) as nat);
        assert forall|i: int| 0 <= i < named_parts(pieces, n).len() implies is_entry_part(
            #[trigger] named_parts(pieces, n)[i],
        ) by {
            if i < at.len() {
                assert(is_entry_part(at[i]));
            }
        }
    }
}

/// A relative reference from a directory without `.` and `..` leads to a path
/// without empty parts, `.` and `..`: it never leaves the container.
pub proof fn reference_stays_inside(base_dir: Seq<char>, target: Seq<char>)
    requires
        forall|i: int|
            0 <= i < split(base_dir, '/').len() ==> (#[trigger] split(base_dir, '/')[i]) != "."@
                && split(base_dir, '/')[i] != ".."@,
    ensures
        forall|i: int|
            0 <= i < resolved_parts(base_dir, target).len() ==> is_entry_part(
                #[trigger] resolved_parts(base_dir, target)[i],
            ),
{
    let b = split(base_dir, '/');
    let t = split(target, '/');
    lemma_named_clean(b, b.len());
    lemma_walk_clean(named_parts(b, b.len()), t, t.len());
}

} // verus!
