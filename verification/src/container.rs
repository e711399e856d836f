//! Zip containers: reading entries, writing archives, and replacing parts while
//! every other entry is carried over.

use crate::deep::push_deep;
use crate::text::{chars_of, concat2, same};
use std::io::{Cursor, Read, Write};
use vstd::prelude::*;
use vstd::utf8::{decode_utf8, encode_utf8, valid_utf8};

verus! {

/// A part of a container: its name and its bytes.
pub type Part = (String, Vec<u8>);

/// What a [`Part`] stands for.
pub type PartView = (Seq<char>, Seq<u8>);

// ── text and bytes ──────────────────────────────────────────────────────────

/// What `String::from_utf8_lossy` makes of bytes that are not well-formed.
pub uninterp spec fn mended_text(bytes: Seq<u8>) -> Seq<char>;

/// What bytes read as, with a replacement character for each ill-formed sequence.
pub open spec fn lossy_text(bytes: Seq<u8>) -> Seq<char> {
    if valid_utf8(bytes) {
        decode_utf8(bytes)
    } else {
        mended_text(bytes)
    }
}

/// `String::from_utf8_lossy`: the text itself where the bytes are well-formed UTF-8; what
/// it makes of other bytes is named, not spelled out.
#[verifier::external_body]
pub(crate) fn text_of_bytes(bytes: &[u8]) -> (r: String)
    ensures
        r@ == if valid_utf8(bytes@) {
            decode_utf8(bytes@)
        } else {
            mended_text(bytes@)
        },
{
    String::from_utf8_lossy(bytes).into_owned()
}

/// The UTF-8 bytes of a text.
pub fn bytes_of_text(s: &str) -> (r: Vec<u8>)
    ensures
        r@ == encode_utf8(s@),
{
    copy_bytes(s.as_bytes())
}

pub fn copy_bytes(b: &[u8]) -> (r: Vec<u8>)
    ensures
        r@ == b@,
{
    let mut out: Vec<u8> = Vec::new();
    let mut i: usize = 0;
    while i < b.len()
        invariant
            i <= b@.len(),
            out@ == b@.take(i as int),
        decreases b@.len() - i,
    {
        out.push(b[i]);
        i = i + 1;
        assert(b@.take(i as int) =~= b@.take(i - 1).push(b@[i - 1]));
    }
    assert(b@.take(i as int) =~= b@);
    out
}

// ── reading archives ────────────────────────────────────────────────────────

/// An entry of an archive, in the order of its directory.
pub enum ZipItem {
    Entry(String, Vec<u8>),
    /// An entry whose bytes cannot be read: its name and the fault.
    Unreadable(String, String),
    /// An entry that cannot be opened: its name, where the directory gives one, and the
    /// fault.
    Fault(Option<String>, String),
}

#[verifier::ext_equal]
pub enum ZipItemView {
    Entry(Seq<char>, Seq<u8>),
    Unreadable(Seq<char>, Seq<char>),
    Fault(Option<Seq<char>>, Seq<char>),
}

impl DeepView for ZipItem {
    type V = ZipItemView;

    open spec fn deep_view(&self) -> ZipItemView {
        match self {
            ZipItem::Entry(n, d) => ZipItemView::Entry(n@, d@),
            ZipItem::Unreadable(n, e) => ZipItemView::Unreadable(n@, e@),
            ZipItem::Fault(n, e) => ZipItemView::Fault(crate::xml::opt_text(*n), e@),
        }
    }
}

/// The entries of an archive, or why it is none.
pub uninterp spec fn zip_items(archive: Seq<u8>) -> Result<Seq<ZipItemView>, Seq<char>>;

/// The bytes of the entry with a name, where there is one that can be opened; a
/// fault where the bytes are no archive or the entry's own bytes cannot be read.
pub uninterp spec fn zip_find(archive: Seq<u8>, name: Seq<char>) -> Result<
    Option<Seq<u8>>,
    Seq<char>,
>;

/// `std`'s reader over a slice.
#[verifier::external_type_specification]
#[verifier::external_body]
#[verifier::reject_recursive_types(T)]
pub struct ExCursor<T>(std::io::Cursor<T>);

/// `zip`'s reader of an archive.
#[verifier::external_type_specification]
#[verifier::external_body]
#[verifier::reject_recursive_types(R)]
pub struct ExZipArchive<R>(zip::ZipArchive<R>);

/// The entries that a reader finds in its archive.
pub uninterp spec fn archived(z: zip::ZipArchive<Cursor<&[u8]>>) -> Seq<ZipItemView>;

/// `zip::ZipArchive::new`: a reader of the entries of an archive, or why it is none.
#[verifier::external_body]
fn open_zip<'a>(archive: &'a [u8]) -> (r: Result<zip::ZipArchive<Cursor<&'a [u8]>>, String>)
    ensures
        match r {
            Ok(z) => zip_items(archive@) == Ok::<Seq<ZipItemView>, Seq<char>>(archived(z)),
            Err(e) => zip_items(archive@) == Err::<Seq<ZipItemView>, Seq<char>>(e@),
        },
{
    zip::ZipArchive::new(Cursor::new(archive)).map_err(|e| e.to_string())
}

/// `zip::ZipArchive::len`.
#[verifier::external_body]
fn zip_len(z: &zip::ZipArchive<Cursor<&[u8]>>) -> (n: usize)
    ensures
        n == archived(*z).len(),
{
    z.len()
}

/// `zip::ZipArchive::by_index` with `read_to_end`; where an entry cannot be opened, its name
/// is that of `by_index_raw`. The entries stay as they are.
#[verifier::external_body]
fn zip_item(z: &mut zip::ZipArchive<Cursor<&[u8]>>, i: usize) -> (r: ZipItem)
    requires
        i < archived(*old(z)).len(),
    ensures
        r.deep_view() == archived(*old(z))[i as int],
        archived(*final(z)) == archived(*old(z)),
{
    let name = z.by_index_raw(i).ok().map(|f| f.name().into());
    let mut data = Vec::new();
    match z.by_index(i) {
        Ok(mut f) => match f.read_to_end(&mut data) {
            Ok(_) => ZipItem::Entry(f.name().into(), data),
            Err(e) => ZipItem::Unreadable(f.name().into(), e.to_string()),
        },
        Err(e) => ZipItem::Fault(name, e.to_string()),
    }
}

/// The entries of an archive.
pub(crate) fn all_items(archive: &[u8]) -> (r: Result<Vec<ZipItem>, String>)
    ensures
        match r {
            Ok(v) => zip_items(archive@) == Ok::<Seq<ZipItemView>, Seq<char>>(v.deep_view()),
            Err(e) => zip_items(archive@) == Err::<Seq<ZipItemView>, Seq<char>>(e@),
        },
{
    let mut z = match open_zip(archive) {
        Ok(z) => z,
        Err(e) => {
            return Err(e);
        },
    };
    let ghost want = archived(z);
    let total: usize = zip_len(&z);
    let mut out: Vec<ZipItem> = Vec::new();
    let mut i: usize = 0;
    assert(out.deep_view() =~= want.take(0));
    while i < total
        invariant
            i <= total,
            total == want.len(),
            archived(z) == want,
            out.deep_view() == want.take(i as int),
        decreases total - i,
    {
        push_deep(&mut out, zip_item(&mut z, i));
        i = i + 1;
        assert(out.deep_view() =~= want.take(i as int));
    }
    assert(want.take(total as int) =~= want);
    Ok(out)
}

/// `zip::ZipArchive::by_name` with `read_to_end`.
#[verifier::external_body]
fn find_item(archive: &[u8], name: &str) -> (r: Result<Option<Vec<u8>>, String>)
    ensures
        match r {
            Ok(Some(d)) => zip_find(archive@, name@) == Ok::<Option<Seq<u8>>, Seq<char>>(
                Some(d@),
            ),
            Ok(None) => zip_find(archive@, name@) == Ok::<Option<Seq<u8>>, Seq<char>>(None),
            Err(e) => zip_find(archive@, name@) == Err::<Option<Seq<u8>>, Seq<char>>(e@),
        },
{
    let mut zip = zip::ZipArchive::new(Cursor::new(archive)).map_err(|e| e.to_string())?;
    let mut f = match zip.by_name(name) {
        Ok(f) => f,
        Err(_) => return Ok(None),
    };
    let mut data = Vec::new();
    f.read_to_end(&mut data).map_err(|e| e.to_string())?;
    Ok(Some(data))
}

/// The bytes of an entry, or why they cannot be had.
pub open spec fn zip_entry(archive: Seq<u8>, name: Seq<char>) -> Result<Seq<u8>, Seq<char>> {
    match zip_find(archive, name) {
        Ok(Some(d)) => Ok(d),
        Ok(None) => Err("entry not found: "@ + name),
        Err(e) => Err(e),
    }
}

/// Reads a result of bytes as its content.
pub open spec fn res_bytes(r: Result<Vec<u8>, String>) -> Result<Seq<u8>, Seq<char>> {
    match r {
        Ok(v) => Ok(v@),
        Err(e) => Err(e@),
    }
}

pub fn read_zip_entry(archive: &[u8], name: &str) -> (r: Result<Vec<u8>, String>)
    ensures
        res_bytes(r) == zip_entry(archive@, name@),
{
    match find_item(archive, name) {
        Ok(Some(d)) => Ok(d),
        Ok(None) => Err(concat2("entry not found: ", name)),
        Err(e) => Err(e),
    }
}

/// The names of the first `n` entries that can be opened.
pub open spec fn item_names(items: Seq<ZipItemView>, n: nat) -> Seq<Seq<char>>
    decreases n,
{
    if n == 0 || n > items.len() {
        Seq::empty()
    } else {
        let before = item_names(items, (n - 1) as nat);
        match items[n - 1] {
            ZipItemView::Entry(name, _) => before.push(name),
            ZipItemView::Unreadable(name, _) => before.push(name),
            ZipItemView::Fault(_, _) => before,
        }
    }
}

/// The names of the entries of an archive that can be opened.
pub fn zip_entry_names(archive: &[u8]) -> (r: Result<Vec<String>, String>)
    ensures
        match (r, zip_items(archive@)) {
            (Ok(v), Ok(items)) => v.deep_view() == item_names(items, items.len()),
            (Err(e), Err(f)) => e@ == f,
            _ => false,
        },
{
    let items = match all_items(archive) {
        Ok(v) => v,
        Err(e) => {
            return Err(e);
        },
    };
    let mut out: Vec<String> = Vec::new();
    let mut i: usize = 0;
    assert(out.deep_view() =~= Seq::<Seq<char>>::empty());
    while i < items.len()
        invariant
            i <= items@.len(),
            out.deep_view() == item_names(items.deep_view(), i as nat),
        decreases items@.len() - i,
    {
        assert(items.deep_view()[i as int] == items@[i as int].deep_view());
        match &items[i] {
            ZipItem::Entry(name, _) => {
                push_deep(&mut out, name.clone());
            },
            ZipItem::Unreadable(name, _) => {
                push_deep(&mut out, name.clone());
            },
            ZipItem::Fault(_, _) => {},
        }
        i = i + 1;
    }
    Ok(out)
}

/// Whether a name is that of a directory.
pub open spec fn is_dir_name(name: Seq<char>) -> bool {
    name.len() > 0 && name.last() == '/'
}

/// The parts among the first `n` entries, without directories, or the first fault.
pub open spec fn parts_of(items: Seq<ZipItemView>, n: nat) -> Result<Seq<PartView>, Seq<char>>
    decreases n,
{
    if n == 0 || n > items.len() {
        Ok(Seq::empty())
    } else {
        match parts_of(items, (n - 1) as nat) {
            Err(e) => Err(e),
            Ok(before) => match items[n - 1] {
                ZipItemView::Entry(name, data) => if is_dir_name(name) {
                    Ok(before)
                } else {
                    Ok(before.push((name, data)))
                },
                ZipItemView::Unreadable(name, e) => if is_dir_name(name) {
                    Ok(before)
                } else {
                    Err(e)
                },
                ZipItemView::Fault(_, e) => Err(e),
            },
        }
    }
}

/// The parts of an archive.
pub open spec fn archive_parts(archive: Seq<u8>) -> Result<Seq<PartView>, Seq<char>> {
    match zip_items(archive) {
        Ok(items) => parts_of(items, items.len()),
        Err(e) => Err(e),
    }
}

/// Reads a result of parts as its content.
pub open spec fn res_parts(r: Result<Vec<Part>, String>) -> Result<Seq<PartView>, Seq<char>> {
    match r {
        Ok(v) => Ok(parts_view(v@)),
        Err(e) => Err(e@),
    }
}

pub open spec fn parts_view(v: Seq<Part>) -> Seq<PartView> {
    Seq::new(v.len(), |i: int| (v[i].0@, v[i].1@))
}

pub fn push_part(v: &mut Vec<Part>, name: String, data: Vec<u8>)
    ensures
        parts_view(final(v)@) == parts_view(old(v)@).push((name@, data@)),
{
    v.push((name, data));
    assert(parts_view(v@) =~= parts_view(old(v)@).push((name@, data@)));
}

fn ends_in_slash(name: &str) -> (r: bool)
    ensures
        r == is_dir_name(name@),
{
    let cs = chars_of(name);
    cs.len() > 0 && cs[cs.len() - 1] == '/'
}

proof fn lemma_parts_fault(items: Seq<ZipItemView>, i: nat, n: nat)
    requires
        i <= n <= items.len(),
        parts_of(items, i) is Err,
    ensures
        parts_of(items, n) == parts_of(items, i),
    decreases n - i,
{
    if i < n {
        lemma_parts_fault(items, i, (n - 1) as nat);
    }
}

/// The parts of an archive, without its directories.
pub fn read_zip_entries(archive: &[u8]) -> (r: Result<Vec<Part>, String>)
    ensures
        res_parts(r) == archive_parts(archive@),
{
    let items = match all_items(archive) {
        Ok(v) => v,
        Err(e) => {
            return Err(e);
        },
    };
    let ghost iv = items.deep_view();
    let mut out: Vec<Part> = Vec::new();
    let mut i: usize = 0;
    assert(parts_view(out@) =~= Seq::<PartView>::empty());
    while i < items.len()
        invariant
            i <= items@.len(),
            iv == items.deep_view(),
            zip_items(archive@) == Ok::<Seq<ZipItemView>, Seq<char>>(iv),
            parts_of(iv, i as nat) == Ok::<Seq<PartView>, Seq<char>>(parts_view(out@)),
        decreases items@.len() - i,
    {
        assert(iv[i as int] == items@[i as int].deep_view());
        match &items[i] {
            ZipItem::Entry(name, data) => {
                if !ends_in_slash(name.as_str()) {
                    push_part(&mut out, name.clone(), copy_bytes(data.as_slice()));
                }
            },
            ZipItem::Unreadable(name, e) => {
                if !ends_in_slash(name.as_str()) {
                    proof {
                        lemma_parts_fault(iv, (i + 1) as nat, iv.len());
                    }
                    return Err(e.clone());
                }
            },
            ZipItem::Fault(_, e) => {
                proof {
                    lemma_parts_fault(iv, (i + 1) as nat, iv.len());
                }
                return Err(e.clone());
            },
        }
        i = i + 1;
    }
    Ok(out)
}

// ── writing archives ────────────────────────────────────────────────────────

/// An archive being written in memory, with `zip::ZipWriter`.
#[verifier::external_body]
pub struct ZipOut {
    inner: zip::ZipWriter<Cursor<Vec<u8>>>,
}

/// The parts written so far; nothing once an entry was carried over that cannot be read.
pub uninterp spec fn written(z: ZipOut) -> Option<Seq<PartView>>;

/// Whether the writer is open and can be finished: nothing has failed in it, and each
/// part in it either [`fits`] or was carried over.
pub uninterp spec fn is_sound(z: ZipOut) -> bool;

/// Whether the headers of an entry let it be carried over into another archive. They do
/// not where its name or its comment, once it is decoded, has more bytes than 16 bits can
/// count.
pub uninterp spec fn zip_carries(archive: Seq<u8>, i: int) -> bool;

/// Whether a part is surely small enough to be written: the length of its name fits in 16
/// bits, and that of its bytes in 31, so that it fits in 32 deflated or not.
pub open spec fn fits(name: Seq<char>, data: Seq<u8>) -> bool {
    encode_utf8(name).len() <= 0xFFFF && data.len() <= 0x7FFF_FFFF
}

/// Whether a part is surely too large to be written.
pub open spec fn is_oversized(name: Seq<char>, data: Seq<u8>) -> bool {
    encode_utf8(name).len() > 0xFFFF || data.len() > 0xFFFF_FFFF
}

/// Whether a part has a name.
pub open spec fn is_taken(parts: Seq<PartView>, name: Seq<char>) -> bool {
    exists|i: int| 0 <= i < parts.len() && (#[trigger] parts[i]).0 == name
}

/// Whether no two parts have the same name.
pub open spec fn names_differ(parts: Seq<PartView>) -> bool {
    forall|i: int, j: int|
        #![trigger parts[i], parts[j]]
        0 <= i < j < parts.len() ==> parts[i].0 != parts[j].0
}

/// Whether all parts are surely small enough.
pub open spec fn all_fit(parts: Seq<PartView>) -> bool {
    forall|i: int| 0 <= i < parts.len() ==> fits((#[trigger] parts[i]).0, parts[i].1)
}

/// Whether some part is surely too large.
pub open spec fn any_oversized(parts: Seq<PartView>) -> bool {
    exists|i: int| 0 <= i < parts.len() && is_oversized((#[trigger] parts[i]).0, parts[i].1)
}

/// `zip::ZipWriter::new`: an archive without parts.
#[verifier::external_body]
fn new_zip() -> (z: ZipOut)
    ensures
        written(z) == Some(Seq::<PartView>::empty()),
        is_sound(z),
{
    ZipOut { inner: zip::ZipWriter::new(Cursor::new(Vec::new())) }
}

/// `zip::ZipWriter::start_file` with deflation, and `write_all`: adds a part. It fails
/// where a part of that name is already there, where the name has more bytes than 16 bits
/// can count, or the part more than 32 bits can. Into a writer in memory in which nothing
/// has failed, every other part goes whose deflated size fits in 32 bits too, as it does
/// where the part has less than half that many bytes.
#[verifier::external_body]
fn zip_add(z: &mut ZipOut, name: &str, data: &[u8]) -> (r: Result<(), String>)
    ensures
        r is Ok ==> written(*final(z)) == match written(*old(z)) {
            Some(parts) => Some(parts.push((name@, data@))),
            None => None,
        },
        match written(*old(z)) {
            Some(parts) => {
                &&& is_taken(parts, name@) ==> r is Err
                &&& is_sound(*old(z)) && fits(name@, data@) && !is_taken(parts, name@) ==> r is Ok
                    && is_sound(*final(z))
            },
            None => true,
        },
        is_oversized(name@, data@) ==> r is Err,
{
    let opt = zip::write::SimpleFileOptions::default()
        .compression_method(zip::CompressionMethod::Deflated);
    z.inner.start_file(name, opt).map_err(|e| e.to_string())?;
    z.inner.write_all(data).map_err(|e| e.to_string())
}

/// `zip::ZipWriter::raw_copy_file` of `zip::ZipArchive::by_index_raw`: carries an
/// entry of another archive over without unpacking it. The bytes of an entry that
/// cannot be read are carried over too, and nothing is claimed of them. An entry that can
/// be read goes into a writer in memory in which nothing has failed, unless its name is
/// already there or its headers do not let it; which do is named, not spelled out.
#[verifier::external_body]
fn zip_copy(z: &mut ZipOut, archive: &[u8], i: usize) -> (r: Result<(), String>)
    ensures
        r is Ok ==> zip_carries(archive@, i as int) && match zip_items(archive@) {
            Ok(items) => i < items.len() && written(*final(z)) == match (
                written(*old(z)),
                items[i as int],
            ) {
                (Some(parts), ZipItemView::Entry(name, data)) => Some(parts.push((name, data))),
                _ => None,
            },
            Err(_) => false,
        },
        zip_items(archive@) is Ok && i < zip_items(archive@)->Ok_0.len() ==> match (
            written(*old(z)),
            zip_items(archive@)->Ok_0[i as int],
        ) {
            (Some(parts), ZipItemView::Entry(name, data)) => {
                &&& is_taken(parts, name) ==> r is Err
                &&& is_sound(*old(z)) && zip_carries(archive@, i as int) && !is_taken(parts, name)
                    ==> r is Ok && is_sound(*final(z))
            },
            _ => true,
        },
{
    let mut zip = zip::ZipArchive::new(Cursor::new(archive)).map_err(|e| e.to_string())?;
    let f = zip.by_index_raw(i).map_err(|e| e.to_string())?;
    z.inner.raw_copy_file(f).map_err(|e| e.to_string())
}

/// The entries that parts make.
pub open spec fn as_items(parts: Seq<PartView>) -> Seq<ZipItemView> {
    Seq::new(parts.len(), |i: int| ZipItemView::Entry(parts[i].0, parts[i].1))
}

/// Whether an archive holds exactly these parts: read by position, and read by name, where
/// no other name is found.
pub open spec fn holds_parts(archive: Seq<u8>, parts: Seq<PartView>) -> bool {
    &&& zip_items(archive) == Ok::<Seq<ZipItemView>, Seq<char>>(as_items(parts))
    &&& forall|i: int|
        0 <= i < parts.len() ==> zip_find(archive, #[trigger] parts[i].0) == Ok::<
            Option<Seq<u8>>,
            Seq<char>,
        >(Some(parts[i].1))
    &&& forall|name: Seq<char>|
        !is_taken(parts, name) ==> #[trigger] zip_find(archive, name) == Ok::<
            Option<Seq<u8>>,
            Seq<char>,
        >(None)
}

/// `zip::ZipWriter::finish`: the bytes of an archive whose entries, in order and by name,
/// are the parts that were written, where all of them can be read, and no other name is
/// found in it. The bytes themselves hold the time of writing, so they are not named. It
/// fails only where something in the writer has.
#[verifier::external_body]
fn zip_finish(z: ZipOut) -> (r: Result<Vec<u8>, String>)
    ensures
        match (r, written(z)) {
            (Ok(bytes), Some(parts)) => holds_parts(bytes@, parts),
            (Ok(_), None) => true,
            (Err(_), _) => !is_sound(z),
        },
{
    z.inner.finish().map(|c| c.into_inner()).map_err(|e| e.to_string())
}

/// Writes parts into a new archive, which then holds exactly these parts. It is refused
/// where two parts have one name or a part is too large, and nowhere else as far as all
/// parts are surely small enough; between the two, the deflated size of a part decides.
pub fn write_zip_entries(parts: &Vec<Part>) -> (r: Result<Vec<u8>, String>)
    ensures
        match r {
            Ok(bytes) => holds_parts(bytes@, parts_view(parts@)) && names_differ(
                parts_view(parts@),
            ) && !any_oversized(parts_view(parts@)),
            Err(_) => !names_differ(parts_view(parts@)) || !all_fit(parts_view(parts@)),
        },
{
    let mut z = new_zip();
    let ghost pv = parts_view(parts@);
    let mut i: usize = 0;
    while i < parts.len()
        invariant
            i <= parts@.len(),
            pv == parts_view(parts@),
            written(z) == Some(pv.take(i as int)),
            names_differ(pv.take(i as int)),
            !any_oversized(pv.take(i as int)),
            names_differ(pv) && all_fit(pv) ==> is_sound(z),
        decreases parts@.len() - i,
    {
        let ghost before = pv.take(i as int);
        let ghost part = pv[i as int];
        proof {
            if is_taken(before, part.0) {
                let k = choose|k: int| 0 <= k < before.len() && (#[trigger] before[k]).0 == part.0;
                assert(pv[k].0 == pv[i as int].0);
            }
        }
        match zip_add(&mut z, parts[i].0.as_str(), parts[i].1.as_slice()) {
            Ok(_) => {},
            Err(e) => {
                return Err(e);
            },
        }
        i = i + 1;
        proof {
            let now = pv.take(i as int);
            assert(now =~= before.push(part));
            lemma_one_more(before, part);
        }
    }
    assert(pv.take(i as int) =~= pv);
    zip_finish(z)
}

/// A part with a new name, and not too large, keeps what holds of the others.
proof fn lemma_one_more(parts: Seq<PartView>, part: PartView)
    ensures
        names_differ(parts) && !is_taken(parts, part.0) ==> names_differ(parts.push(part)),
        !any_oversized(parts) && !is_oversized(part.0, part.1) ==> !any_oversized(
            parts.push(part),
        ),
{
    let all = parts.push(part);
    if names_differ(parts) && !is_taken(parts, part.0) {
        assert forall|i: int, j: int|
            #![trigger all[i], all[j]]
            0 <= i < j < all.len() implies all[i].0 != all[j].0 by {
            assert(all[i] == parts[i]);
            if j < parts.len() {
                assert(all[j] == parts[j]);
            }
        }
    }
    if any_oversized(all) && !is_oversized(part.0, part.1) {
        let i = choose|i: int|
            0 <= i < all.len() && is_oversized((#[trigger] all[i]).0, all[i].1);
        assert(all[i] == parts[i]);
    }
}

// ── replacing parts ─────────────────────────────────────────────────────────

/// The position of the first part with a name, from `i` on, or the number of parts.
pub open spec fn part_at(parts: Seq<PartView>, name: Seq<char>, i: int) -> int
    decreases parts.len() - i,
{
    if 0 <= i < parts.len() && parts[i].0 != name {
        part_at(parts, name, i + 1)
    } else {
        i
    }
}

/// The name of an entry, where it has one.
pub open spec fn name_of_item(item: ZipItemView) -> Option<Seq<char>> {
    match item {
        ZipItemView::Entry(n, _) => Some(n),
        ZipItemView::Unreadable(n, _) => Some(n),
        ZipItemView::Fault(n, _) => n,
    }
}

/// The position among new parts of the one that replaces an entry, or their number.
pub open spec fn replacing(new: Seq<PartView>, item: ZipItemView) -> int {
    match name_of_item(item) {
        Some(n) => part_at(new, n, 0),
        None => new.len() as int,
    }
}

/// The parts of the first `n` entries, with new bytes for those that are replaced;
/// nothing where the bytes of an entry that is not replaced cannot be read.
pub open spec fn carried_parts(items: Seq<ZipItemView>, new: Seq<PartView>, n: nat) -> Option<
    Seq<PartView>,
>
    decreases n,
{
    if n == 0 || n > items.len() {
        Some(Seq::empty())
    } else {
        match carried_parts(items, new, (n - 1) as nat) {
            None => None,
            Some(before) => {
                let p = replacing(new, items[n - 1]);
                if p < new.len() {
                    Some(before.push((name_of_item(items[n - 1])->0, new[p].1)))
                } else {
                    match items[n - 1] {
                        ZipItemView::Entry(name, data) => Some(before.push((name, data))),
                        _ => None,
                    }
                }
            },
        }
    }
}

/// Whether an archive has an entry of a name.
pub open spec fn has_name(items: Seq<ZipItemView>, name: Seq<char>) -> bool {
    exists|i: int| 0 <= i < items.len() && name_of_item(#[trigger] items[i]) == Some(name)
}

/// The new parts among the first `n` that the archive does not have yet.
pub open spec fn added_parts(items: Seq<ZipItemView>, new: Seq<PartView>, n: nat) -> Seq<PartView>
    decreases n,
{
    if n == 0 || n > new.len() {
        Seq::empty()
    } else {
        let before = added_parts(items, new, (n - 1) as nat);
        if has_name(items, new[n - 1].0) {
            before
        } else {
            before.push(new[n - 1])
        }
    }
}

fn find_new(new: &Vec<Part>, item: &ZipItem) -> (r: usize)
    ensures
        r == replacing(parts_view(new@), item.deep_view()),
        r <= new@.len(),
        r < new@.len() ==> name_of_item(item.deep_view()) == Some(new@[r as int].0@),
{
    let ghost nv = parts_view(new@);
    let name = match item {
        ZipItem::Entry(n, _) => n,
        ZipItem::Unreadable(n, _) => n,
        ZipItem::Fault(Some(n), _) => n,
        ZipItem::Fault(None, _) => {
            return new.len();
        },
    };
    let mut i: usize = 0;
    while i < new.len() && !same(new[i].0.as_str(), name.as_str())
        invariant
            i <= new@.len(),
            nv == parts_view(new@),
            part_at(nv, name@, 0) == part_at(nv, name@, i as int),
        decreases new@.len() - i,
    {
        i = i + 1;
    }
    i
}

/// Whether an archive has an entry of a name.
pub(crate) fn items_have(items: &Vec<ZipItem>, name: &str) -> (r: bool)
    ensures
        r == has_name(items.deep_view(), name@),
{
    let ghost iv = items.deep_view();
    let mut i: usize = 0;
    while i < items.len()
        invariant
            i <= items@.len(),
            iv == items.deep_view(),
            forall|k: int| 0 <= k < i ==> name_of_item(#[trigger] iv[k]) != Some(name@),
        decreases items@.len() - i,
    {
        assert(iv[i as int] == items@[i as int].deep_view());
        let hit = match &items[i] {
            ZipItem::Entry(n, _) => same(n.as_str(), name),
            ZipItem::Unreadable(n, _) => same(n.as_str(), name),
            ZipItem::Fault(Some(n), _) => same(n.as_str(), name),
            ZipItem::Fault(None, _) => false,
        };
        if hit {
            return true;
        }
        i = i + 1;
    }
    false
}

/// What an archive holds once parts are replaced and added, where its own entries can
/// all be read or are replaced.
pub open spec fn replaced_parts(items: Seq<ZipItemView>, new: Seq<PartView>) -> Option<
    Seq<PartView>,
> {
    match carried_parts(items, new, items.len()) {
        Some(kept) => Some(kept + added_parts(items, new, new.len())),
        None => None,
    }
}

/// Whether the entries that no new part replaces can be carried over.
pub open spec fn rest_is_carried(
    archive: Seq<u8>,
    items: Seq<ZipItemView>,
    new: Seq<PartView>,
    n: int,
) -> bool {
    forall|i: int|
        0 <= i < n && replacing(new, #[trigger] items[i]) >= new.len() ==> zip_carries(archive, i)
}

/// What an archive is once parts of another one are replaced and added: all that no new
/// part replaces was carried over, and the parts are those that [`replaced_parts`] says,
/// where it says so.
pub open spec fn is_replaced(
    archive: Seq<u8>,
    items: Seq<ZipItemView>,
    new: Seq<PartView>,
    result: Seq<u8>,
) -> bool {
    &&& rest_is_carried(archive, items, new, items.len() as int)
    &&& match replaced_parts(items, new) {
        Some(parts) => holds_parts(result, parts) && names_differ(parts),
        None => true,
    }
}

/// Whether parts cannot be replaced and added, or might not: two would have one name, a new
/// one is not surely small enough, or an entry that stays cannot be read or carried over.
pub open spec fn may_refuse(
    archive: Seq<u8>,
    items: Seq<ZipItemView>,
    new: Seq<PartView>,
) -> bool {
    match replaced_parts(items, new) {
        Some(parts) => !names_differ(parts) || !all_fit(new) || !rest_is_carried(
            archive,
            items,
            new,
            items.len() as int,
        ),
        None => true,
    }
}

proof fn lemma_carried_grows(items: Seq<ZipItemView>, new: Seq<PartView>, k: nat, n: nat)
    requires
        k <= n <= items.len(),
        carried_parts(items, new, n) is Some,
    ensures
        carried_parts(items, new, k) is Some,
        carried_parts(items, new, k)->0.len() == k,
        carried_parts(items, new, n)->0.len() == n,
        carried_parts(items, new, k)->0 == carried_parts(items, new, n)->0.take(k as int),
    decreases n,
{
    lemma_carried(items, new, n);
    if k < n {
        lemma_carried_grows(items, new, k, (n - 1) as nat);
        assert(carried_parts(items, new, (n - 1) as nat)->0.take(k as int)
            =~= carried_parts(items, new, n)->0.take(k as int));
    } else {
        assert(carried_parts(items, new, n)->0.take(n as int) =~= carried_parts(items, new, n)->0);
    }
}

proof fn lemma_added_grows(items: Seq<ZipItemView>, new: Seq<PartView>, k: nat, n: nat)
    requires
        k <= n <= new.len(),
    ensures
        added_parts(items, new, k).len() <= added_parts(items, new, n).len(),
        added_parts(items, new, k) == added_parts(items, new, n).take(
            added_parts(items, new, k).len() as int,
        ),
    decreases n,
{
    let small = added_parts(items, new, k);
    let large = added_parts(items, new, n);
    if k < n {
        lemma_added_grows(items, new, k, (n - 1) as nat);
        assert(added_parts(items, new, (n - 1) as nat).take(small.len() as int) =~= large.take(
            small.len() as int,
        ));
    } else {
        assert(large.take(large.len() as int) =~= large);
    }
}

/// The next of parts with different names has none of the names before it.
proof fn lemma_next_is_new(all: Seq<PartView>, before: Seq<PartView>)
    requires
        names_differ(all),
        before.len() < all.len(),
        before == all.take(before.len() as int),
    ensures
        !is_taken(before, all[before.len() as int].0),
{
    if is_taken(before, all[before.len() as int].0) {
        let k = choose|k: int|
            0 <= k < before.len() && (#[trigger] before[k]).0 == all[before.len() as int].0;
        assert(all[k].0 == all[before.len() as int].0);
    }
}

/// An archive with parts replaced or added; every other entry is carried over as it is.
/// Where all those can be read, it is refused where two parts would have one name, or the
/// headers of an entry do not let it be carried over, and nowhere else as far as the new
/// parts are surely small enough.
pub(crate) fn replace_parts(archive: &[u8], items: &Vec<ZipItem>, new: &Vec<Part>) -> (r: Result<
    Vec<u8>,
    String,
>)
    requires
        zip_items(archive@) == Ok::<Seq<ZipItemView>, Seq<char>>(items.deep_view()),
    ensures
        match r {
            Ok(bytes) => is_replaced(archive@, items.deep_view(), parts_view(new@), bytes@),
            Err(_) => may_refuse(archive@, items.deep_view(), parts_view(new@)),
        },
{
    let ghost iv = items.deep_view();
    let ghost pv = parts_view(new@);
    let ghost all = replaced_parts(iv, pv);
    let ghost good = all is Some && names_differ(all->0) && all_fit(pv) && rest_is_carried(
        archive@,
        iv,
        pv,
        iv.len() as int,
    );
    let mut z = new_zip();
    proof {
        if all is Some {
            lemma_carried_grows(iv, pv, iv.len(), iv.len());
        }
    }
    let mut i: usize = 0;
    assert(iv.len() == items@.len());
    while i < items.len()
        invariant
            i <= items@.len(),
            iv == items.deep_view(),
            iv.len() == items@.len(),
            zip_items(archive@) == Ok::<Seq<ZipItemView>, Seq<char>>(iv),
            pv == parts_view(new@),
            carried_parts(iv, pv, i as nat) is Some ==> written(z) == carried_parts(
                iv,
                pv,
                i as nat,
            ) && names_differ(carried_parts(iv, pv, i as nat)->0),
            all == replaced_parts(iv, pv),
            good == (all is Some && names_differ(all->0) && all_fit(pv) && rest_is_carried(
                archive@,
                iv,
                pv,
                iv.len() as int,
            )),
            rest_is_carried(archive@, iv, pv, i as int),
            good ==> is_sound(z),
        decreases items@.len() - i,
    {
        assert(iv[i as int] == items@[i as int].deep_view());
        let p = find_new(new, &items[i]);
        let ghost before = written(z)->0;
        proof {
            if all is Some {
                lemma_carried_grows(iv, pv, i as nat, iv.len());
                lemma_carried_grows(iv, pv, (i + 1) as nat, iv.len());
                let next = carried_parts(iv, pv, (i + 1) as nat)->0;
                assert(before =~= (all->0).take(i as int));
                assert(next =~= (all->0).take(i + 1));
                assert(next[i as int] == (all->0)[i as int]);
                if good {
                    lemma_next_is_new(all->0, before);
                }
                if p < new.len() {
                    assert(next[i as int] == (pv[p as int].0, pv[p as int].1));
                }
            }
        }
        let done = if p < new.len() {
            zip_add(&mut z, new[p].0.as_str(), new[p].1.as_slice())
        } else {
            zip_copy(&mut z, archive, i)
        };
        match done {
            Ok(_) => {},
            Err(e) => {
                return Err(e);
            },
        }
        i = i + 1;
        proof {
            let now = carried_parts(iv, pv, i as nat);
            if now is Some {
                lemma_carried_grows(iv, pv, (i - 1) as nat, i as nat);
                assert(now->0 == before.push(now->0[i - 1]));
                assert(written(z) == now);
                lemma_one_more(before, now->0[i - 1]);
            }
        }
    }
    let ghost base = written(z);
    let mut k: usize = 0;
    assert(base is Some ==> base->0 =~= base->0 + added_parts(iv, pv, 0));
    while k < new.len()
        invariant
            k <= new@.len(),
            iv == items.deep_view(),
            pv == parts_view(new@),
            base is Some ==> written(z) == Some(base->0 + added_parts(iv, pv, k as nat)),
            all == replaced_parts(iv, pv),
            all is Some ==> base == carried_parts(iv, pv, iv.len()) && names_differ(written(z)->0),
            good == (all is Some && names_differ(all->0) && all_fit(pv) && rest_is_carried(
                archive@,
                iv,
                pv,
                iv.len() as int,
            )),
            good ==> is_sound(z),
        decreases new@.len() - k,
    {
        let ghost before = written(z)->0;
        let ghost part = pv[k as int];
        proof {
            lemma_added_grows(iv, pv, k as nat, pv.len());
            lemma_added_grows(iv, pv, (k + 1) as nat, pv.len());
            if all is Some && !has_name(iv, part.0) {
                let n = added_parts(iv, pv, k as nat).len();
                let more = added_parts(iv, pv, (k + 1) as nat);
                assert(more[n as int] == part);
                assert(added_parts(iv, pv, pv.len())[n as int] == more[n as int]);
                assert(before =~= (all->0).take(before.len() as int));
                assert((all->0)[before.len() as int] == part);
                if good {
                    lemma_next_is_new(all->0, before);
                }
            }
        }
        if !items_have(items, new[k].0.as_str()) {
            match zip_add(&mut z, new[k].0.as_str(), new[k].1.as_slice()) {
                Ok(_) => {},
                Err(e) => {
                    return Err(e);
                },
            }
        }
        k = k + 1;
        proof {
            if !has_name(iv, part.0) {
                lemma_one_more(before, part);
            }
            if base is Some {
                assert(written(z)->0 =~= base->0 + added_parts(iv, pv, k as nat));
            }
        }
    }
    zip_finish(z)
}

proof fn lemma_carried(items: Seq<ZipItemView>, new: Seq<PartView>, n: nat)
    requires
        n <= items.len(),
        carried_parts(items, new, n) is Some,
    ensures
        carried_parts(items, new, n)->0.len() == n,
        forall|i: int|
            #![trigger items[i]]
            0 <= i < n && replacing(new, items[i]) >= new.len() ==> items[i] is Entry
                && carried_parts(items, new, n)->0[i] == (items[i]->Entry_0, items[i]->Entry_1),
    decreases n,
{
    if n > 0 {
        lemma_carried(items, new, (n - 1) as nat);
        let before = carried_parts(items, new, (n - 1) as nat)->0;
        let now = carried_parts(items, new, n)->0;
        assert forall|i: int|
            #![trigger items[i]]
            0 <= i < n && replacing(new, items[i]) >= new.len() implies items[i] is Entry && now[i] == (
        items[i]->Entry_0, items[i]->Entry_1) by {
            if i < n - 1 {
                assert(now[i] == before[i]);
            }
        }
    }
}

/// Replacing parts leaves every other part as it was: it is found by its name, with the
/// same bytes.
pub proof fn other_parts_stay(
    items: Seq<ZipItemView>,
    new: Seq<PartView>,
    result: Seq<u8>,
    i: int,
)
    requires
        replaced_parts(items, new) is Some,
        holds_parts(result, replaced_parts(items, new)->0),
        0 <= i < items.len(),
        replacing(new, items[i]) >= new.len(),
    ensures
        items[i] is Entry,
        zip_find(result, items[i]->Entry_0) == Ok::<Option<Seq<u8>>, Seq<char>>(
            Some(items[i]->Entry_1),
        ),
{
    lemma_carried(items, new, items.len());
    let all = replaced_parts(items, new)->0;
    let kept = carried_parts(items, new, items.len())->0;
    assert(all[i] == kept[i]);
    assert(zip_find(result, all[i].0) == Ok::<Option<Seq<u8>>, Seq<char>>(Some(all[i].1)));
}

/// The parts of a written archive are the parts it was written from, where none
/// of them is named like a directory.
pub proof fn parts_read_back(archive: Seq<u8>, parts: Seq<PartView>)
    requires
        holds_parts(archive, parts),
        forall|i: int| 0 <= i < parts.len() ==> !is_dir_name((#[trigger] parts[i]).0),
    ensures
        archive_parts(archive) == Ok::<Seq<PartView>, Seq<char>>(parts),
{
    lemma_parts_back(parts, parts.len());
    assert(parts.take(parts.len() as int) =~= parts);
}

proof fn lemma_parts_back(parts: Seq<PartView>, n: nat)
    requires
        n <= parts.len(),
        forall|i: int| 0 <= i < parts.len() ==> !is_dir_name((#[trigger] parts[i]).0),
    ensures
        parts_of(as_items(parts), n) == Ok::<Seq<PartView>, Seq<char>>(parts.take(n as int)),
    decreases n,
{
    if n > 0 {
        lemma_parts_back(parts, (n - 1) as nat);
        assert(!is_dir_name(parts[n - 1].0));
        assert(parts.take(n as int) =~= parts.take(n - 1).push(parts[n - 1]));
    } else {
        assert(parts.take(0) =~= Seq::<PartView>::empty());
    }
}

/// A text written as bytes reads back as the same text.
pub proof fn text_reads_back(s: Seq<char>)
    ensures
        valid_utf8(encode_utf8(s)),
        decode_utf8(encode_utf8(s)) == s,
{
    vstd::utf8::encode_utf8_valid_utf8(s);
    vstd::utf8::encode_utf8_decode_utf8(s);
}

} // verus!
