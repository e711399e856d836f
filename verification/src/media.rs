//! Pictures and files inside documents: which parts are pictures, how the pictures of a
//! PDF are stored, and the names of attached files.

use crate::base64::{base64_decode, base64_encode, decoded, encoded};
use crate::container::{
    copy_bytes, item_names, read_zip_entry, res_bytes, zip_entry, zip_entry_names, zip_items,
};
use crate::deep::push_deep;
use crate::frames::{is_safe, is_safe_picture};
use crate::imaging::Channels;
use crate::meta::{is_odf, is_ooxml, odf_ext, ooxml_ext};
use crate::ordering::{text_before, text_key_order, text_less, texts_are_ordered};
use crate::paths::{base_name, ext_of, extension, file_name};
use crate::sorting::{is_all_of, is_stable_sort, stable_order};
use crate::text::{
    chars_of, concat2, concat3, contains_text, copy_text, decimal, has_text, matches_at, push_decimal, same,
    stands_at,
};
use crate::value::{
    add_member, as_text, field, object, text_value, Json, Num, Number, Value,
};
use vstd::prelude::*;

verus! {

// ── reading pictures ────────────────────────────────────────────────────────

/// A picture as it was stored: its width and height, the channels and the bytes of a pixel,
/// and its samples, row by row, each with its low byte first.
pub type Loaded = (u32, u32, u8, u8, Vec<u8>);

/// What a [`Loaded`] picture stands for.
pub type LoadedView = (u32, u32, u8, u8, Seq<u8>);

pub open spec fn loaded_view(p: Loaded) -> LoadedView {
    (p.0, p.1, p.2, p.3, p.4@)
}

/// Whether a pixel can have so many channels and bytes: one to four channels of one byte or
/// two, or three or four of four bytes.
pub open spec fn is_pixel_kind(channels: u8, bytes: u8) -> bool {
    1 <= channels <= 4 && (bytes == channels || bytes == 2 * channels || (bytes == 4 * channels
        && channels >= 3))
}

/// Whether a picture has the samples that its size asks for.
pub open spec fn is_sound_loaded(p: LoadedView) -> bool {
    is_pixel_kind(p.2, p.3) && p.4.len() == p.0 * p.1 * p.3
}

/// Whether what came of decoding is a fault or a picture with all its samples.
pub open spec fn is_sound_picture(r: Result<LoadedView, Seq<char>>) -> bool {
    match r {
        Ok(p) => is_sound_loaded(p),
        Err(_) => true,
    }
}

/// `image::load_from_memory`: the picture that an image file holds, taken apart into its
/// size and its samples, of which there are as many as the size asks for. Which picture it
/// is, is left open: for some formats the samples rest on the processor.
#[verifier::external_body]
pub(crate) fn load_picture(bytes: &[u8]) -> (r: Result<Loaded, String>)
    requires
        is_safe(bytes@),
    ensures
        is_sound_picture(res_loaded(r)),
{
    let img = image::load_from_memory(bytes).map_err(|e| e.to_string())?;
    let (w, h, color) = (img.width(), img.height(), img.color());
    let samples = if let Some(f) = img.as_flat_samples_u16() {
        f.samples.iter().flat_map(|v| v.to_le_bytes()).collect()
    } else if let Some(f) = img.as_flat_samples_f32() {
        f.samples.iter().flat_map(|v| v.to_le_bytes()).collect()
    } else {
        img.into_bytes()
    };
    Ok((w, h, color.channel_count(), color.bytes_per_pixel(), samples))
}

pub open spec fn opt_loaded(p: Option<Loaded>) -> Option<LoadedView> {
    match p {
        Some(p) => Some(loaded_view(p)),
        None => None,
    }
}

pub open spec fn res_loaded(r: Result<Loaded, String>) -> Result<LoadedView, Seq<char>> {
    match r {
        Ok(p) => Ok(loaded_view(p)),
        Err(e) => Err(e@),
    }
}

/// The picture that came of decoding, where one did.
pub open spec fn picture_of(r: Result<LoadedView, Seq<char>>) -> Option<LoadedView> {
    match r {
        Ok(p) => Some(p),
        Err(_) => None,
    }
}

/// What came of decoding an image file, without the fault.
pub fn keep_picture(picture: Result<Loaded, String>) -> (r: Option<Loaded>)
    ensures
        opt_loaded(r) == picture_of(res_loaded(picture)),
{
    match picture {
        Ok(p) => Some(p),
        Err(_) => None,
    }
}

/// The picture that the bytes of an image file hold, where they hold one.
pub fn read_picture(bytes: &[u8]) -> (r: Option<Loaded>)
    requires
        is_safe(bytes@),
    ensures
        r matches Some(p) ==> is_sound_loaded(loaded_view(p)),
{
    keep_picture(load_picture(bytes))
}

/// What a text of letters gives as a picture: the fault of the letters, or that of the
/// bytes behind a word about it.
pub open spec fn picture_of_text(
    letters: Result<Seq<u8>, Seq<char>>,
    picture: Result<LoadedView, Seq<char>>,
) -> Result<LoadedView, Seq<char>> {
    match letters {
        Err(e) => Err(e),
        Ok(_) => match picture {
            Ok(p) => Ok(p),
            Err(e) => Err("decode base64 image: "@ + e),
        },
    }
}

/// What came of decoding an image file, as the answer to a text.
pub fn answer_picture(picture: Result<Loaded, String>) -> (r: Result<Loaded, String>)
    ensures
        res_loaded(r) == picture_of_text(Ok(Seq::empty()), res_loaded(picture)),
{
    match picture {
        Ok(p) => Ok(p),
        Err(e) => Err(concat2("decode base64 image: ", e.as_str())),
    }
}

/// The picture that an image file written with letters holds. Letters that are none are
/// refused with their fault; of others, what comes of decoding their bytes is answered.
pub fn op_img_from_base64(text: &str) -> (r: Result<Loaded, String>)
    requires
        decoded(text@) matches Ok(b) ==> is_safe(b),
    ensures
        exists|p: Result<LoadedView, Seq<char>>| #[trigger]
            is_sound_picture(p) && res_loaded(r) == picture_of_text(decoded(text@), p),
{
    match base64_decode(text) {
        Ok(bytes) => {
            let picture = load_picture(bytes.as_slice());
            let ghost p = res_loaded(picture);
            let r = answer_picture(picture);
            assert(is_sound_picture(p) && res_loaded(r) == picture_of_text(decoded(text@), p));
            r
        },
        Err(e) => {
            let r: Result<Loaded, String> = Err(e);
            assert(is_sound_picture(res_loaded(r)));
            r
        },
    }
}

/// What is answered of an image file that was written: its letters and how many bytes it has,
/// or the fault behind a word about it.
pub open spec fn letters_of_file(name: Seq<char>, file: Result<Seq<u8>, Seq<char>>) -> Result<
    (Seq<char>, nat),
    Seq<char>,
> {
    match file {
        Ok(b) => Ok((encoded(b), b.len())),
        Err(e) => Err("encode "@ + name + ": "@ + e),
    }
}

/// What came of encoding a picture, as the answer to a wish for letters; `name` is that of the
/// format.
pub fn op_img_to_base64(name: &str, file: Result<Vec<u8>, String>) -> (r: Result<
    (String, usize),
    String,
>)
    ensures
        match r {
            Ok((text, n)) => letters_of_file(name@, res_bytes(file)) == Ok::<
                (Seq<char>, nat),
                Seq<char>,
            >((text@, n as nat)),
            Err(e) => letters_of_file(name@, res_bytes(file)) == Err::<
                (Seq<char>, nat),
                Seq<char>,
            >(e@),
        },
{
    match file {
        Ok(b) => Ok((base64_encode(b.as_slice()), b.len())),
        Err(e) => {
            let mut s = concat3("encode ", name, ": ");
            s.push_str(e.as_str());
            Err(s)
        },
    }
}

// ── pictures in archives ────────────────────────────────────────────────────

pub open spec fn starts_with(s: Seq<char>, pat: Seq<char>) -> bool {
    matches_at(s, pat, 0)
}

fn has_start(s: &str, pat: &str) -> (r: bool)
    ensures
        r == starts_with(s@, pat@),
{
    let cs = chars_of(s);
    let ps = chars_of(pat);
    stands_at(&cs, &ps, 0)
}

/// Whether a part of a document is a picture: one in a folder for pictures, but for the
/// preview of the document.
pub open spec fn is_media(name: Seq<char>) -> bool {
    &&& !(name.len() > 0 && name[name.len() - 1] == '/')
    &&& contains_text(name, "/media/"@) || starts_with(name, "Pictures/"@) || starts_with(
        name,
        "Thumbnails/"@,
    )
    &&& name != "Thumbnails/thumbnail.png"@
}

pub fn is_container_media(name: &str) -> (r: bool)
    ensures
        r == is_media(name@),
{
    let cs = chars_of(name);
    if cs.len() > 0 && cs[cs.len() - 1] == '/' {
        return false;
    }
    (has_text(name, "/media/") || has_start(name, "Pictures/") || has_start(name, "Thumbnails/"))
        && !same(name, "Thumbnails/thumbnail.png")
}

/// The last part of a name, or the name itself.
pub open spec fn short_name(name: Seq<char>) -> Seq<char> {
    match file_name(name) {
        Some(b) => b,
        None => name,
    }
}

/// A part of a document: its name and its bytes.
pub type File = (String, Vec<u8>);

/// What a [`File`] stands for.
pub type FileView = (Seq<char>, Seq<u8>);

/// A picture of a document: its name, its bytes, and the picture where they can be decoded.
pub type PictureFile = (String, Vec<u8>, Option<Loaded>);

/// What a [`PictureFile`] stands for.
pub type PictureFileView = (Seq<char>, Seq<u8>, Option<LoadedView>);

/// The parts with pictures among the first `n` names, each with its bytes; one whose bytes
/// cannot be read is left out.
pub open spec fn media_parts(archive: Seq<u8>, names: Seq<Seq<char>>, n: nat) -> Seq<FileView>
    decreases n,
{
    if n == 0 || n > names.len() {
        Seq::empty()
    } else {
        let before = media_parts(archive, names, (n - 1) as nat);
        if is_media(names[n - 1]) {
            match zip_entry(archive, names[n - 1]) {
                Ok(d) => before.push((names[n - 1], d)),
                Err(_) => before,
            }
        } else {
            before
        }
    }
}

/// The parts with pictures of a document that is an archive.
pub open spec fn container_media(archive: Seq<u8>) -> Result<Seq<FileView>, Seq<char>> {
    match zip_items(archive) {
        Ok(items) => {
            let names = item_names(items, items.len());
            Ok(media_parts(archive, names, names.len()))
        },
        Err(e) => Err(e),
    }
}

pub open spec fn parts_seen(fs: Seq<File>) -> Seq<FileView> {
    Seq::new(fs.len(), |i: int| (fs[i].0@, fs[i].1@))
}

pub open spec fn files_view(fs: Seq<PictureFile>) -> Seq<PictureFileView> {
    Seq::new(fs.len(), |i: int| (fs[i].0@, fs[i].1@, opt_loaded(fs[i].2)))
}

pub open spec fn pictures_view(ps: Seq<Result<Loaded, String>>) -> Seq<
    Result<LoadedView, Seq<char>>,
> {
    Seq::new(ps.len(), |i: int| res_loaded(ps[i]))
}

/// Parts under their short names, each with its bytes and what came of decoding them.
pub open spec fn listed(files: Seq<FileView>, pictures: Seq<Result<LoadedView, Seq<char>>>) -> Seq<
    PictureFileView,
> {
    Seq::new(
        files.len(),
        |i: int| (short_name(files[i].0), files[i].1, picture_of(pictures[i])),
    )
}

/// Whether all that came of decoding is a fault or a picture with all its samples.
pub open spec fn are_sound_pictures(pictures: Seq<Result<LoadedView, Seq<char>>>) -> bool {
    forall|i: int| 0 <= i < pictures.len() ==> is_sound_picture(#[trigger] pictures[i])
}

/// Whether the bytes of all parts can be handed to the decoder.
pub open spec fn are_safe(files: Seq<FileView>) -> bool {
    forall|i: int| 0 <= i < files.len() ==> is_safe(#[trigger] files[i].1)
}

/// The parts with pictures of a document that is an archive.
pub fn read_media(archive: &[u8]) -> (r: Result<Vec<File>, String>)
    ensures
        match r {
            Ok(v) => container_media(archive@) == Ok::<Seq<FileView>, Seq<char>>(parts_seen(v@)),
            Err(e) => container_media(archive@) == Err::<Seq<FileView>, Seq<char>>(e@),
        },
{
    let names = match zip_entry_names(archive) {
        Ok(v) => v,
        Err(e) => {
            return Err(e);
        },
    };
    let ghost nv = names.deep_view();
    let total: usize = names.len();
    assert(nv.len() == total);
    let mut out: Vec<File> = Vec::new();
    assert(parts_seen(out@) =~= Seq::<FileView>::empty());
    let mut i: usize = 0;
    while i < total
        invariant
            i <= total,
            total == names@.len(),
            nv == names.deep_view(),
            nv.len() == total,
            parts_seen(out@) == media_parts(archive@, nv, i as nat),
        decreases total - i,
    {
        assert(nv[i as int] == names@[i as int]@);
        let ghost was = out@;
        if is_container_media(names[i].as_str()) {
            match read_zip_entry(archive, names[i].as_str()) {
                Ok(d) => {
                    let ghost dv = d@;
                    out.push((copy_text(names[i].as_str()), d));
                    assert(parts_seen(out@) =~= parts_seen(was).push((nv[i as int], dv)));
                },
                Err(_) => {},
            }
        }
        i = i + 1;
    }
    Ok(out)
}

/// Whether the bytes of all parts can be handed to the decoder.
pub fn are_safe_files(files: &Vec<File>) -> (r: bool)
    ensures
        r == are_safe(parts_seen(files@)),
{
    let ghost fv = parts_seen(files@);
    let mut i: usize = 0;
    while i < files.len()
        invariant
            i <= files@.len(),
            fv == parts_seen(files@),
            forall|k: int| 0 <= k < i ==> is_safe(#[trigger] fv[k].1),
        decreases files@.len() - i,
    {
        assert(fv[i as int].1 == files@[i as int].1@);
        if !is_safe_picture(files[i].1.as_slice()) {
            return false;
        }
        i = i + 1;
    }
    true
}

/// Parts with what came of decoding each, under their short names.
pub fn list_pictures(files: Vec<File>, pictures: Vec<Result<Loaded, String>>) -> (r: Vec<
    PictureFile,
>)
    requires
        files@.len() == pictures@.len(),
    ensures
        files_view(r@) == listed(parts_seen(files@), pictures_view(pictures@)),
{
    let ghost fv = parts_seen(files@);
    let ghost pv = pictures_view(pictures@);
    let ghost want = listed(fv, pv);
    let mut names = files;
    let mut rest = pictures;
    let mut out: Vec<PictureFile> = Vec::new();
    assert(names@ =~= files@.skip(0));
    assert(rest@ =~= pictures@.skip(0));
    assert(files_view(out@) =~= want.take(0));
    let total: usize = names.len();
    let mut i: usize = 0;
    while i < total
        invariant
            i <= total,
            total == files@.len(),
            total == pictures@.len(),
            names@ == files@.skip(i as int),
            rest@ == pictures@.skip(i as int),
            fv == parts_seen(files@),
            pv == pictures_view(pictures@),
            want == listed(fv, pv),
            files_view(out@) == want.take(i as int),
        decreases total - i,
    {
        let ghost was = out@;
        let (name, data) = names.remove(0);
        let picture = rest.remove(0);
        assert(names@ =~= files@.skip(i + 1));
        assert(rest@ =~= pictures@.skip(i + 1));
        assert(fv[i as int] == (name@, data@));
        assert(pv[i as int] == res_loaded(picture));
        let short = match base_name(name.as_str()) {
            Some(b) => b,
            None => name,
        };
        out.push((short, data, keep_picture(picture)));
        assert(files_view(out@) =~= files_view(was).push(want[i as int]));
        i = i + 1;
        assert(files_view(out@) =~= want.take(i as int));
    }
    assert(want.take(total as int) =~= want);
    out
}

/// The pictures of a document that is an archive: its parts with pictures, with what comes
/// of decoding each.
pub fn lift_container(archive: &[u8]) -> (r: Result<Vec<PictureFile>, String>)
    requires
        container_media(archive@) matches Ok(files) ==> are_safe(files),
    ensures
        match (r, container_media(archive@)) {
            (Ok(v), Ok(files)) => exists|ps: Seq<Result<LoadedView, Seq<char>>>| #[trigger]
                are_sound_pictures(ps) && ps.len() == files.len() && files_view(v@) == listed(
                    files,
                    ps,
                ),
            (Err(e), Err(f)) => e@ == f,
            _ => false,
        },
{
    let files = match read_media(archive) {
        Ok(v) => v,
        Err(e) => {
            return Err(e);
        },
    };
    let ghost fv = parts_seen(files@);
    let mut pictures: Vec<Result<Loaded, String>> = Vec::new();
    let mut i: usize = 0;
    while i < files.len()
        invariant
            i <= files@.len(),
            pictures@.len() == i,
            fv == parts_seen(files@),
            are_safe(fv),
            are_sound_pictures(pictures_view(pictures@)),
        decreases files@.len() - i,
    {
        assert(fv[i as int].1 == files@[i as int].1@);
        let ghost was = pictures_view(pictures@);
        let picture = load_picture(files[i].1.as_slice());
        let ghost pv = res_loaded(picture);
        pictures.push(picture);
        assert(pictures_view(pictures@) =~= was.push(pv));
        i = i + 1;
    }
    let ghost ps = pictures_view(pictures@);
    let out = list_pictures(files, pictures);
    assert(are_sound_pictures(ps) && ps.len() == fv.len() && files_view(out@) == listed(fv, ps));
    Ok(out)
}

// ── pictures in a PDF ───────────────────────────────────────────────────────

/// How a picture of a PDF is stored.
#[derive(Clone, Copy, PartialEq, Eq, Structural)]
pub enum Stored {
    /// A whole JPEG file.
    Jpeg,
    /// In a way that is not read here.
    Unknown,
    /// Its samples, one after the other.
    Samples,
}

/// Whether a list holds a text.
pub open spec fn lists(names: Seq<Seq<char>>, name: Seq<char>) -> bool {
    exists|i: int| 0 <= i < names.len() && names[i] == name
}

pub open spec fn stored_as(filters: Seq<Seq<char>>) -> Stored {
    if lists(filters, "DCTDecode"@) {
        Stored::Jpeg
    } else if lists(filters, "JPXDecode"@) {
        Stored::Unknown
    } else {
        Stored::Samples
    }
}

fn is_in_list(names: &Vec<String>, name: &str) -> (r: bool)
    ensures
        r == lists(names.deep_view(), name@),
{
    let ghost nv = names.deep_view();
    assert(nv.len() == names@.len());
    let mut i: usize = 0;
    while i < names.len()
        invariant
            i <= names@.len(),
            nv == names.deep_view(),
            nv.len() == names@.len(),
            forall|k: int| 0 <= k < i ==> #[trigger] nv[k] != name@,
        decreases names@.len() - i,
    {
        assert(nv[i as int] == names@[i as int]@);
        if same(names[i].as_str(), name) {
            return true;
        }
        i = i + 1;
    }
    false
}

/// How a picture is stored, by the names of its filters.
pub fn read_storage(filters: &Vec<String>) -> (r: Stored)
    ensures
        r == stored_as(filters.deep_view()),
{
    if is_in_list(filters, "DCTDecode") {
        Stored::Jpeg
    } else if is_in_list(filters, "JPXDecode") {
        Stored::Unknown
    } else {
        Stored::Samples
    }
}

/// The channels of a color space that can be read, and how many bytes a pixel has.
pub open spec fn space_of(cs: Seq<char>) -> Option<(Channels, int)> {
    if cs == "DeviceRGB"@ || cs == "RGB"@ || cs == "CalRGB"@ {
        Some((Channels::Rgb, 3))
    } else if cs == "DeviceGray"@ || cs == "G"@ || cs == "CalGray"@ {
        Some((Channels::Gray, 1))
    } else {
        None
    }
}

/// The bytes of a picture whose samples can be read: 8 bits each, in a plain color space,
/// and enough of them.
pub open spec fn samples_of(samples: Seq<u8>, w: u32, h: u32, cs: Seq<char>, bits: i64) -> Option<
    (Channels, Seq<u8>),
> {
    match space_of(cs) {
        Some((c, k)) => if bits == 8 && w > 0 && h > 0 && samples.len() >= w * h * k {
            Some((c, samples.take(w * h * k)))
        } else {
            None
        },
        None => None,
    }
}

pub fn pdf_raw_to_image(samples: &[u8], w: u32, h: u32, cs: &str, bits: i64) -> (r: Option<
    (Channels, Vec<u8>),
>)
    ensures
        match r {
            Some((c, v)) => samples_of(samples@, w, h, cs@, bits) == Some((c, v@)),
            None => samples_of(samples@, w, h, cs@, bits) is None,
        },
{
    let rgb = same(cs, "DeviceRGB") || same(cs, "RGB") || same(cs, "CalRGB");
    let gray = same(cs, "DeviceGray") || same(cs, "G") || same(cs, "CalGray");
    if !rgb && !gray {
        return None;
    }
    if bits != 8 || w == 0 || h == 0 {
        return None;
    }
    let k: u128 = if rgb {
        3
    } else {
        1
    };
    assert(0 <= w * h <= 0xffff_ffff * 0xffff_ffff) by (nonlinear_arith)
        requires
            0 <= w <= 0xffff_ffff,
            0 <= h <= 0xffff_ffff,
    ;
    let n: u128 = w as u128 * h as u128;
    let need: u128 = n * k;
    if (samples.len() as u128) < need {
        return None;
    }
    let size: usize = need as usize;
    let mut out: Vec<u8> = Vec::new();
    let mut i: usize = 0;
    while i < size
        invariant
            i <= size <= samples@.len(),
            out@ == samples@.take(i as int),
        decreases size - i,
    {
        out.push(samples[i]);
        i = i + 1;
        assert(out@ =~= samples@.take(i as int));
    }
    if rgb {
        Some((Channels::Rgb, out))
    } else {
        Some((Channels::Gray, out))
    }
}

/// The name of a picture that has none of its own.
pub open spec fn numbered_picture(i: nat, ext: Seq<char>) -> Seq<char> {
    "image"@ + decimal(i) + "."@ + ext
}

pub fn name_picture(i: u64, ext: &str) -> (r: String)
    ensures
        r@ == numbered_picture(i as nat, ext@),
{
    let mut s = copy_text("image");
    push_decimal(&mut s, i);
    s.push_str(".");
    s.push_str(ext);
    s
}

/// Where the pictures of a document are.
#[derive(Clone, Copy, PartialEq, Eq, Structural)]
pub enum PictureSource {
    Pdf,
    Archive,
}

pub open spec fn picture_source(path: Seq<char>) -> Result<PictureSource, Seq<char>> {
    let ext = extension(path);
    if ext == "pdf"@ {
        Ok(PictureSource::Pdf)
    } else if ooxml_ext(ext) || odf_ext(ext) {
        Ok(PictureSource::Archive)
    } else {
        Err("unsupported format for image extraction: "@ + ext)
    }
}

/// Where the pictures of a document are, by its path.
pub fn op_extract_images(path: &str) -> (r: Result<PictureSource, String>)
    ensures
        match r {
            Ok(s) => picture_source(path@) == Ok::<PictureSource, Seq<char>>(s),
            Err(e) => picture_source(path@) == Err::<PictureSource, Seq<char>>(e@),
        },
{
    let ext = ext_of(path);
    if same(ext.as_str(), "pdf") {
        Ok(PictureSource::Pdf)
    } else if is_ooxml(ext.as_str()) || is_odf(ext.as_str()) {
        Ok(PictureSource::Archive)
    } else {
        Err(crate::text::concat2("unsupported format for image extraction: ", ext.as_str()))
    }
}

/// What is said of a picture: its name, its handle and size where it could be read, and
/// where it was written to.
pub open spec fn picture_entry(
    name: Seq<char>,
    read: Option<(u64, u32, u32)>,
    path: Option<Seq<char>>,
) -> Json {
    let first = seq![("name"@, Json::Text(name))];
    let second = match read {
        Some((h, w, height)) => seq![
            ("handle"@, Json::Number(Num::Unsigned(h))),
            ("width"@, Json::Number(Num::Unsigned(w as u64))),
            ("height"@, Json::Number(Num::Unsigned(height as u64))),
        ],
        None => Seq::empty(),
    };
    let third = match path {
        Some(p) => seq![("path"@, Json::Text(p))],
        None => Seq::empty(),
    };
    Json::Object(first + second + third)
}

pub fn describe_picture(name: &str, read: Option<(u64, u32, u32)>, path: Option<&str>) -> (r: Value)
    ensures
        r.deep_view() == picture_entry(
            name@,
            read,
            match path {
                Some(p) => Some(p@),
                None => None,
            },
        ),
{
    let ghost want = picture_entry(
        name@,
        read,
        match path {
            Some(p) => Some(p@),
            None => None,
        },
    )->Object_0;
    let mut o: Vec<(String, Value)> = Vec::new();
    add_member(&mut o, "name", text_value(name));
    if let Some((h, w, height)) = read {
        add_member(&mut o, "handle", Value::Number(Number::Unsigned(h)));
        add_member(&mut o, "width", Value::Number(Number::Unsigned(w as u64)));
        add_member(&mut o, "height", Value::Number(Number::Unsigned(height as u64)));
    }
    if let Some(p) = path {
        add_member(&mut o, "path", text_value(p));
    }
    assert(o.deep_view() =~= want);
    object(o)
}

// ── attached files ──────────────────────────────────────────────────────────

/// The name that an attached file gets: the one that is asked for, else its own.
pub open spec fn attached_name(opts: Json, file: Seq<char>) -> Seq<char> {
    match as_text(field(opts, "name"@)) {
        Some(s) => s,
        None => match file_name(file) {
            Some(b) => b,
            None => "attachment"@,
        },
    }
}

pub fn name_attachment(opts: &Value, file: &str) -> (r: String)
    ensures
        r@ == attached_name(opts.deep_view(), file@),
{
    match opts.text_at("name") {
        Some(s) => copy_text(s),
        None => match base_name(file) {
            Some(b) => b,
            None => copy_text("attachment"),
        },
    }
}

/// The names in a flat list of names and values, below position `n`, each with the
/// position of its value; what is no name, or has no value, is left out.
pub open spec fn paired(items: Seq<Option<Seq<u8>>>, n: int) -> Seq<(Seq<u8>, usize)>
    decreases n,
{
    if n < 2 || n > items.len() {
        Seq::empty()
    } else {
        let before = paired(items, n - 2);
        match items[n - 2] {
            Some(name) => before.push((name, (n - 1) as usize)),
            None => before,
        }
    }
}

pub open spec fn names_view(v: Seq<Option<Vec<u8>>>) -> Seq<Option<Seq<u8>>> {
    Seq::new(
        v.len(),
        |i: int|
            match v[i] {
                Some(b) => Some(b@),
                None => None,
            },
    )
}

pub open spec fn pairs_view(v: Seq<(Vec<u8>, usize)>) -> Seq<(Seq<u8>, usize)> {
    Seq::new(v.len(), |i: int| (v[i].0@, v[i].1))
}

/// A text with one character for each byte.
pub open spec fn byte_text(b: Seq<u8>) -> Seq<char> {
    Seq::new(b.len(), |i: int| b[i] as char)
}

fn text_of(b: &Vec<u8>) -> (r: String)
    ensures
        r@ == byte_text(b@),
{
    let mut out = String::new();
    let mut i: usize = 0;
    assert(out@ =~= byte_text(b@).take(0));
    while i < b.len()
        invariant
            i <= b@.len(),
            out@ == byte_text(b@).take(i as int),
        decreases b@.len() - i,
    {
        out.push(b[i] as char);
        i = i + 1;
        assert(out@ =~= byte_text(b@).take(i as int));
    }
    assert(byte_text(b@).take(i as int) =~= byte_text(b@));
    out
}

/// The names with one more at the end, at a position of its own.
pub open spec fn with_attached(items: Seq<Option<Seq<u8>>>, name: Seq<u8>) -> Seq<
    (Seq<u8>, usize),
> {
    paired(items, items.len() - items.len() % 2).push((name, items.len() as usize))
}

/// The names of pairs as texts.
pub open spec fn pair_texts(pairs: Seq<(Seq<u8>, usize)>) -> Seq<Seq<char>> {
    Seq::new(pairs.len(), |i: int| byte_text(pairs[i].0))
}

/// Adds a name to a flat list of names and values, and puts the names in the order of
/// their bytes, equal ones as they stand. A value is given by its position, that of the
/// new name by the length of the list.
pub fn op_pdf_attach(items: &Vec<Option<Vec<u8>>>, name: &Vec<u8>) -> (r: Vec<(Vec<u8>, usize)>)
    ensures
        exists|order: Seq<usize>| #[trigger]
            is_stable_sort(
                order,
                with_attached(names_view(items@), name@).len() as int,
                text_key_order(pair_texts(with_attached(names_view(items@), name@)), false),
            ) && pairs_view(r@) == Seq::new(
                with_attached(names_view(items@), name@).len(),
                |i: int| with_attached(names_view(items@), name@)[order[i] as int],
            ),
{
    let ghost iv = names_view(items@);
    let total: usize = items.len();
    let even: usize = total - total % 2;
    let mut pairs: Vec<(Vec<u8>, usize)> = Vec::new();
    assert(pairs_view(pairs@) =~= Seq::<(Seq<u8>, usize)>::empty());
    let mut i: usize = 0;
    while i < even
        invariant
            i <= even <= total,
            i % 2 == 0,
            even % 2 == 0,
            total == items@.len(),
            iv == names_view(items@),
            pairs_view(pairs@) == paired(iv, i as int),
        decreases even - i,
    {
        let ghost was = pairs@;
        assert(i + 2 <= even);
        if let Some(b) = &items[i] {
            let c = copy_bytes(b.as_slice());
            let ghost cv = c@;
            assert(iv[i as int] == Some(cv));
            pairs.push((c, i + 1));
            assert(pairs_view(pairs@) =~= pairs_view(was).push((cv, (i + 1) as usize)));
        } else {
            assert(iv[i as int] is None);
        }
        i = i + 2;
    }
    let ghost was = pairs@;
    let own = copy_bytes(name.as_slice());
    let ghost ov = own@;
    pairs.push((own, total));
    assert(pairs_view(pairs@) =~= pairs_view(was).push((ov, total)));
    let ghost all = with_attached(iv, name@);
    assert(pairs_view(pairs@) == all);
    let n: usize = pairs.len();
    assert(all.len() == n);
    let mut keys: Vec<String> = Vec::new();
    let ghost kv = pair_texts(all);
    let mut k: usize = 0;
    assert(keys.deep_view() =~= kv.take(0));
    while k < n
        invariant
            k <= n,
            n == pairs@.len(),
            pairs_view(pairs@) == all,
            kv == pair_texts(all),
            kv.len() == n,
            keys.deep_view() == kv.take(k as int),
        decreases n - k,
    {
        assert(all[k as int].0 == pairs@[k as int].0@);
        push_deep(&mut keys, text_of(&pairs[k].0));
        k = k + 1;
        assert(keys.deep_view() =~= kv.take(k as int));
    }
    assert(kv.take(k as int) =~= kv);
    assert(keys.deep_view().len() == keys@.len());
    let ghost lt = text_key_order(kv, false);
    let before = |x: usize, y: usize| -> (b: bool)
        requires
            x < keys@.len(),
            y < keys@.len(),
        ensures
            b == text_less(keys@[x as int]@, keys@[y as int]@),
        { text_before(keys[x].as_str(), keys[y].as_str()) };
    assert forall|x: usize| x < n implies kv[x as int] == (#[trigger] keys@[x as int])@ by {
        assert(keys.deep_view()[x as int] == keys@[x as int]@);
    }
    let order = stable_order(n, &before, Ghost(lt));
    proof {
        texts_are_ordered(kv, false);
    }
    let ghost want = Seq::new(n as nat, |i: int| all[order@[i] as int]);
    let mut out: Vec<(Vec<u8>, usize)> = Vec::new();
    let mut j: usize = 0;
    assert(pairs_view(out@) =~= want.take(0));
    while j < n
        invariant
            j <= n,
            n == pairs@.len(),
            pairs_view(pairs@) == all,
            is_all_of(order@, 0, n as int),
            want == Seq::new(n as nat, |i: int| all[order@[i] as int]),
            pairs_view(out@) == want.take(j as int),
        decreases n - j,
    {
        let p = order[j];
        assert(0 <= order@[j as int] < n);
        assert(all[p as int] == (pairs@[p as int].0@, pairs@[p as int].1));
        let ghost was = out@;
        let c = copy_bytes(pairs[p].0.as_slice());
        let ghost cv = c@;
        out.push((c, pairs[p].1));
        assert(pairs_view(out@) =~= pairs_view(was).push(want[j as int]));
        j = j + 1;
        assert(pairs_view(out@) =~= want.take(j as int));
    }
    assert(want.take(j as int) =~= want);
    assert(is_stable_sort(order@, all.len() as int, text_key_order(pair_texts(all), false)));
    out
}

/// The attachments of a list of names and files are the names that are texts, each with the
/// place of the file behind it, in order.
pub proof fn attachments_stand_behind_their_names(items: Seq<Option<Seq<u8>>>, n: nat)
    requires
        2 * n <= items.len() <= usize::MAX,
    ensures
        paired(items, 2 * n as int) == Seq::new(n, |k: int| k).filter(
            |k: int| items[2 * k] is Some,
        ).map_values(|k: int| (items[2 * k]->0, (2 * k + 1) as usize)),
    decreases n,
{
    reveal(Seq::filter);
    let all = Seq::new(n, |k: int| k);
    let is = |k: int| items[2 * k] is Some;
    let get = |k: int| (items[2 * k]->0, (2 * k + 1) as usize);
    if n > 0 {
        attachments_stand_behind_their_names(items, (n - 1) as nat);
        assert(all.drop_last() =~= Seq::new((n - 1) as nat, |k: int| k));
        assert(all.last() == n - 1);
        if is(n - 1) {
            assert(all.filter(is).map_values(get) =~= all.drop_last().filter(is).map_values(
                get,
            ).push(get(n - 1)));
        }
    } else {
        assert(all.filter(is).map_values(get) =~= Seq::<(Seq<u8>, usize)>::empty());
    }
}

/// The pictures of an archive are its parts of that name that can be read, in order.
pub proof fn pictures_are_the_named_parts(archive: Seq<u8>, names: Seq<Seq<char>>, n: nat)
    requires
        n <= names.len(),
    ensures
        media_parts(archive, names, n) == names.take(n as int).filter(
            |m: Seq<char>| is_media(m) && zip_entry(archive, m) is Ok,
        ).map_values(|m: Seq<char>| (m, zip_entry(archive, m)->Ok_0)),
    decreases n,
{
    reveal(Seq::filter);
    let part = names.take(n as int);
    let is = |m: Seq<char>| is_media(m) && zip_entry(archive, m) is Ok;
    let get = |m: Seq<char>| (m, zip_entry(archive, m)->Ok_0);
    if n > 0 {
        pictures_are_the_named_parts(archive, names, (n - 1) as nat);
        assert(part.drop_last() =~= names.take(n - 1));
        assert(part.last() == names[n - 1]);
        if is(names[n - 1]) {
            assert(part.filter(is).map_values(get) =~= part.drop_last().filter(is).map_values(
                get,
            ).push(get(names[n - 1])));
        }
    } else {
        assert(part.filter(is).map_values(get) =~= Seq::<FileView>::empty());
    }
}

} // verus!
