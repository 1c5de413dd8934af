//! Computations behind the application's file commands: data URIs for
//! images, `file://` URLs, home-relative configuration paths, and the
//! filtering and ordering of directory listings.

use vstd::prelude::*;
use base64::engine::general_purpose::STANDARD;
use base64::Engine;
use crate::order::{keep, place, sorted_by};
use crate::text::{lower_of, lowercase, same_text, str_le, text_le};

verus! {

#[verifier::external_type_specification]
#[verifier::external_body]
pub struct ExDecodeError(base64::DecodeError);

/// The padded standard Base64 text of some bytes.
pub uninterp spec fn base64_text(b: Seq<u8>) -> Seq<char>;

/// The bytes that a text decodes to under padded standard Base64, if any.
pub uninterp spec fn base64_bytes(s: Seq<char>) -> Option<Seq<u8>>;

/// Relies on `Engine::encode` of base64's `STANDARD` engine: the text depends
/// on the bytes alone, with four characters for each started group of three
/// bytes; it panics only when that length overflows `usize`.
#[verifier::external_body]
fn encode_base64(b: &[u8]) -> (r: String)
    requires
        b@.len() / 3 * 4 + 4 <= usize::MAX,
    ensures
        r@ == base64_text(b@),
        r@.len() == 4 * ((b@.len() + 2) / 3),
{
    STANDARD.encode(b)
}

/// Relies on `Engine::decode` of base64's `STANDARD` engine: the bytes of a
/// well-formed padded text, or an error; the outcome depends on the text alone.
#[verifier::external_body]
fn decode_base64(s: &str) -> (r: Result<Vec<u8>, base64::DecodeError>)
    ensures
        r is Ok <==> base64_bytes(s@) is Some,
        r matches Ok(b) ==> base64_bytes(s@) == Some(b@),
{
    STANDARD.decode(s)
}

/// Relies on `base64::DecodeError`'s `Display`, for a message that says what
/// is wrong with the input.
#[verifier::external_body]
fn decode_error_message(e: &base64::DecodeError) -> String {
    e.to_string()
}

/// `s` begins with `p`.
pub open spec fn has_prefix(s: Seq<char>, p: Seq<char>) -> bool {
    p.len() <= s.len() && s.take(p.len() as int) == p
}

/// Whether `s` begins with `p`.
pub fn starts_with(s: &str, p: &str) -> (r: bool)
    ensures
        r == has_prefix(s@, p@),
{
    let n = s.unicode_len();
    let m = p.unicode_len();
    if m > n {
        return false;
    }
    same_text(s.substring_char(0, m), p)
}

/// A `file://` URL for `path`; a path that already is one is kept.
pub open spec fn file_url_of(path: Seq<char>) -> Seq<char> {
    if has_prefix(path, "file://"@) {
        path
    } else {
        "file://"@ + path
    }
}

pub fn file_url(path: &str) -> (r: String)
    ensures
        r@ == file_url_of(path@),
{
    if starts_with(path, "file://") {
        String::from_str(path)
    } else {
        String::from_str("file://").concat(path)
    }
}

/// A configured path that starts with `~/`, with `~` replaced by `home`;
/// `None` for any other value.
pub open spec fn home_expanded(value: Seq<char>, home: Seq<char>) -> Option<Seq<char>> {
    if has_prefix(value, "~/"@) {
        Some(home + value.skip(1))
    } else {
        None
    }
}

pub fn expand_home(value: &str, home: &str) -> (r: Option<String>)
    ensures
        r matches Some(s) ==> home_expanded(value@, home@) == Some(s@),
        r is None ==> home_expanded(value@, home@) is None,
{
    if starts_with(value, "~/") {
        proof {
            reveal_strlit("~/");
        }
        let rest = value.substring_char(1, value.unicode_len());
        assert(rest@ =~= value@.skip(1));
        Some(String::from_str(home).concat(rest))
    } else {
        None
    }
}

/// The position of the first comma of `s`, if any.
pub open spec fn first_comma(s: Seq<char>) -> Option<int>
    decreases s.len(),
{
    if s.len() == 0 {
        None
    } else if s[0] == ',' {
        Some(0)
    } else {
        match first_comma(s.drop_first()) {
            Some(i) => Some(i + 1),
            None => None,
        }
    }
}

/// The data of a data URI: what follows its first comma; a text without a
/// comma is taken whole.
pub open spec fn payload_of(data: Seq<char>) -> Seq<char> {
    match first_comma(data) {
        Some(i) => data.skip(i + 1),
        None => data,
    }
}

proof fn lemma_first_comma_skip(s: Seq<char>, i: int)
    requires
        0 <= i <= s.len(),
        forall|k: int| 0 <= k < i ==> s[k] != ',',
    ensures
        first_comma(s) == match first_comma(s.skip(i)) {
            Some(j) => Some(j + i),
            None => None::<int>,
        },
    decreases i,
{
    if i == 0 {
        assert(s.skip(0) =~= s);
    } else {
        lemma_first_comma_skip(s.drop_first(), i - 1);
        assert(s.drop_first().skip(i - 1) =~= s.skip(i));
    }
}

/// The data of a data URI, or the whole text when it has no comma.
pub fn data_uri_payload(data: &str) -> (r: &str)
    ensures
        r@ == payload_of(data@),
{
    let n = data.unicode_len();
    let mut i: usize = 0;
    while i < n
        invariant
            n == data@.len(),
            i <= n,
            forall|k: int| 0 <= k < i ==> data@[k] != ',',
        decreases n - i,
    {
        if data.get_char(i) == ',' {
            proof {
                lemma_first_comma_skip(data@, i as int);
                assert(data@.skip(i as int)[0] == ',');
            }
            return data.substring_char(i + 1, n);
        }
        i = i + 1;
    }
    proof {
        lemma_first_comma_skip(data@, n as int);
    }
    data.substring_char(0, n)
}

/// Decodes the Base64 data of a data URI (or of a bare Base64 text).
pub fn decode_image_data(data: &str) -> (r: Result<Vec<u8>, String>)
    ensures
        r is Ok <==> base64_bytes(payload_of(data@)) is Some,
        r matches Ok(b) ==> base64_bytes(payload_of(data@)) == Some(b@),
{
    match decode_base64(data_uri_payload(data)) {
        Ok(b) => Ok(b),
        Err(e) => Err(decode_error_message(&e)),
    }
}

/// The MIME type of an image, by its file extension in lower case.
pub open spec fn mime_of(extension: Seq<char>) -> Seq<char> {
    let e = lower_of(extension);
    if e == "png"@ {
        "image/png"@
    } else if e == "jpg"@ || e == "jpeg"@ {
        "image/jpeg"@
    } else if e == "gif"@ {
        "image/gif"@
    } else if e == "webp"@ {
        "image/webp"@
    } else if e == "bmp"@ {
        "image/bmp"@
    } else {
        "application/octet-stream"@
    }
}

/// The MIME type of an image whose file has `extension` (empty for none).
pub fn mime_type(extension: &str) -> (r: &'static str)
    ensures
        r@ == mime_of(extension@),
{
    let lower = lowercase(extension);
    let e = lower.as_str();
    if same_text(e, "png") {
        "image/png"
    } else if same_text(e, "jpg") || same_text(e, "jpeg") {
        "image/jpeg"
    } else if same_text(e, "gif") {
        "image/gif"
    } else if same_text(e, "webp") {
        "image/webp"
    } else if same_text(e, "bmp") {
        "image/bmp"
    } else {
        "application/octet-stream"
    }
}

/// The data URI of an image file's bytes: its MIME type and its Base64 text.
pub open spec fn image_uri(extension: Seq<char>, data: Seq<u8>) -> Seq<char> {
    "data:"@ + mime_of(extension) + ";base64,"@ + base64_text(data)
}

/// The data URI of the bytes of an image file with `extension`.
pub fn image_data_uri(extension: &str, data: &[u8]) -> (r: String)
    requires
        data@.len() / 3 * 4 + 4 <= usize::MAX,
    ensures
        r@ == image_uri(extension@, data@),
{
    let encoded = encode_base64(data);
    String::from_str("data:").concat(mime_type(extension)).concat(";base64,").concat(encoded.as_str())
}

/// `s` ends with `suffix`.
pub open spec fn has_suffix(s: Seq<char>, suffix: Seq<char>) -> bool {
    suffix.len() <= s.len() && s.skip(s.len() - suffix.len()) == suffix
}

pub fn ends_with(s: &str, suffix: &str) -> (r: bool)
    ensures
        r == has_suffix(s@, suffix@),
{
    let n = s.unicode_len();
    let m = suffix.unicode_len();
    if m > n {
        return false;
    }
    let tail = s.substring_char(n - m, n);
    assert(tail@ =~= s@.skip(n - m));
    same_text(tail, suffix)
}

/// `a` sorts strictly before `b`: their UTF-8 bytes compare less.
pub open spec fn text_lt(a: Seq<char>, b: Seq<char>) -> bool {
    !text_le(b, a)
}

/// An entry of a directory listing.
#[derive(Clone, Debug)]
pub struct FileEntry {
    pub name: String,
    pub is_dir: bool,
    pub size: u64,
}

pub struct EntryView {
    pub name: Seq<char>,
    pub is_dir: bool,
    pub size: u64,
}

impl View for FileEntry {
    type V = EntryView;

    open spec fn view(&self) -> EntryView {
        EntryView { name: self.name@, is_dir: self.is_dir, size: self.size }
    }
}

pub open spec fn entry_views(s: Seq<FileEntry>) -> Seq<EntryView> {
    s.map_values(|e: FileEntry| e@)
}

/// A file name passes a listing filter: `ssce` admits documents, `images`
/// admits the usual image types, anything else admits every file.
pub open spec fn passes_filter(name: Seq<char>, filter: Seq<char>) -> bool {
    let l = lower_of(name);
    if filter == "ssce"@ {
        has_suffix(l, ".ssce"@)
    } else if filter == "images"@ {
        ||| has_suffix(l, ".png"@)
        ||| has_suffix(l, ".jpg"@)
        ||| has_suffix(l, ".jpeg"@)
        ||| has_suffix(l, ".gif"@)
        ||| has_suffix(l, ".webp"@)
        ||| has_suffix(l, ".bmp"@)
    } else {
        true
    }
}

/// An entry is listed: it is not hidden, and it is a directory or a file that
/// passes the filter.
pub open spec fn listed(e: EntryView, filter: Seq<char>) -> bool {
    !has_prefix(e.name, "."@) && (e.is_dir || passes_filter(e.name, filter))
}

/// Directories come before files; within each, names by their lower-case forms.
pub open spec fn listed_before(a: EntryView, b: EntryView) -> bool {
    (a.is_dir && !b.is_dir) || (a.is_dir == b.is_dir && text_lt(lower_of(a.name), lower_of(b.name)))
}

/// The directory listing that `entries` give under `filter`.
pub open spec fn listing_of(entries: Seq<EntryView>, filter: Seq<char>) -> Seq<EntryView> {
    sorted_by(
        keep(entries, |e: EntryView| listed(e, filter)),
        |a: EntryView, b: EntryView| listed_before(a, b),
    )
}

fn passes_filter_exec(name: &str, filter: &str) -> (r: bool)
    ensures
        r == passes_filter(name@, filter@),
{
    proof {
        reveal_strlit("ssce");
        reveal_strlit("images");
    }
    let lower = lowercase(name);
    let l = lower.as_str();
    if same_text(filter, "ssce") {
        ends_with(l, ".ssce")
    } else if same_text(filter, "images") {
        ends_with(l, ".png") || ends_with(l, ".jpg") || ends_with(l, ".jpeg") || ends_with(l, ".gif")
            || ends_with(l, ".webp") || ends_with(l, ".bmp")
    } else {
        true
    }
}

/// Filters and orders the entries of a directory for display: hidden entries
/// (names starting with a dot) are dropped, files must pass `filter`
/// (`ssce`, `images`, or anything else for all), and directories come first,
/// each group by lower-case name.
pub fn browse_listing(entries: &Vec<FileEntry>, filter: &str) -> (r: Vec<FileEntry>)
    ensures
        entry_views(r@) == listing_of(entry_views(entries@), filter@),
{
    let ghost ev = entry_views(entries@);
    let ghost pred = |e: EntryView| listed(e, filter@);
    let ghost precedes = |a: EntryView, b: EntryView| listed_before(a, b);
    let mut res: Vec<FileEntry> = Vec::new();
    let mut i: usize = 0;
    while i < entries.len()
        invariant
            ev == entry_views(entries@),
            pred == (|e: EntryView| listed(e, filter@)),
            precedes == (|a: EntryView, b: EntryView| listed_before(a, b)),
            i <= entries@.len(),
            entry_views(res@) == sorted_by(keep(ev.take(i as int), pred), precedes),
        decreases entries@.len() - i,
    {
        let ghost prefix = ev.take(i as int);
        let ghost next = ev.take(i + 1);
        proof {
            assert(next.drop_last() =~= prefix);
            assert(next.last() == entries@[i as int]@);
        }
        let e = &entries[i];
        if !starts_with(e.name.as_str(), ".") && (e.is_dir || passes_filter_exec(e.name.as_str(), filter)) {
            let ghost sorted = entry_views(res@);
            let ghost ks = keep(prefix, pred);
            proof {
                assert(keep(next, pred) == ks.push(e@));
                assert(ks.push(e@).drop_last() =~= ks);
            }
            let mut j: usize = 0;
            let mut stop = false;
            assert(sorted.skip(0) =~= sorted);
            while !stop && j < res.len()
                invariant
                    j <= res@.len(),
                    sorted == entry_views(res@),
                    precedes == (|a: EntryView, b: EntryView| listed_before(a, b)),
                    place(sorted, e@, precedes) == j + place(sorted.skip(j as int), e@, precedes),
                    stop ==> j < res@.len() && listed_before(e@, sorted[j as int]),
                decreases res@.len() - j + (if stop { 0int } else { 1int }),
            {
                let ghost rest = sorted.skip(j as int);
                assert(rest[0] == res@[j as int]@);
                let y = &res[j];
                let before = (e.is_dir && !y.is_dir) || (e.is_dir == y.is_dir && !str_le(
                    lowercase(y.name.as_str()).as_str(),
                    lowercase(e.name.as_str()).as_str(),
                ));
                if before {
                    stop = true;
                } else {
                    assert(rest.drop_first() =~= sorted.skip(j + 1));
                    j = j + 1;
                }
            }
            proof {
                let rest = sorted.skip(j as int);
                if stop {
                    assert(rest[0] == sorted[j as int]);
                } else {
                    assert(rest.len() == 0);
                }
                assert(place(sorted, e@, precedes) == j);
                let s = ks.push(e@);
                assert(s.last() == e@);
                assert(sorted_by(s, precedes) == sorted.insert(j as int, e@));
            }
            let copy = FileEntry { name: e.name.clone(), is_dir: e.is_dir, size: e.size };
            res.insert(j, copy);
            assert(entry_views(res@) =~= sorted.insert(j as int, e@));
        } else {
            proof {
                reveal_strlit(".");
            }
            assert(keep(next, pred) == keep(prefix, pred));
        }
        i = i + 1;
    }
    assert(ev.take(entries@.len() as int) =~= ev);
    res
}

/// A document found among the autosaved files, with its modification time in
/// seconds since the Unix epoch.
#[derive(Clone, Debug)]
pub struct AutosaveEntry {
    pub name: String,
    pub path: String,
    pub mtime: u64,
}

pub struct AutosaveView {
    pub name: Seq<char>,
    pub path: Seq<char>,
    pub mtime: u64,
}

impl View for AutosaveEntry {
    type V = AutosaveView;

    open spec fn view(&self) -> AutosaveView {
        AutosaveView { name: self.name@, path: self.path@, mtime: self.mtime }
    }
}

pub open spec fn autosave_views(s: Seq<AutosaveEntry>) -> Seq<AutosaveView> {
    s.map_values(|e: AutosaveEntry| e@)
}

/// The recovery listing: the entries whose names, in lower case, end in
/// `.ssce`, newest first, equal times keeping their order.
pub open spec fn recovery_of(entries: Seq<AutosaveView>) -> Seq<AutosaveView> {
    sorted_by(
        keep(entries, |e: AutosaveView| has_suffix(lower_of(e.name), ".ssce"@)),
        |a: AutosaveView, b: AutosaveView| a.mtime > b.mtime,
    )
}

/// Orders the autosaved files for recovery: documents only, newest first.
pub fn autosave_listing(entries: &Vec<AutosaveEntry>) -> (r: Vec<AutosaveEntry>)
    ensures
        autosave_views(r@) == recovery_of(autosave_views(entries@)),
{
    let ghost ev = autosave_views(entries@);
    let ghost pred = |e: AutosaveView| has_suffix(lower_of(e.name), ".ssce"@);
    let ghost precedes = |a: AutosaveView, b: AutosaveView| a.mtime > b.mtime;
    let mut res: Vec<AutosaveEntry> = Vec::new();
    let mut i: usize = 0;
    while i < entries.len()
        invariant
            ev == autosave_views(entries@),
            pred == (|e: AutosaveView| has_suffix(lower_of(e.name), ".ssce"@)),
            precedes == (|a: AutosaveView, b: AutosaveView| a.mtime > b.mtime),
            i <= entries@.len(),
            autosave_views(res@) == sorted_by(keep(ev.take(i as int), pred), precedes),
        decreases entries@.len() - i,
    {
        let ghost prefix = ev.take(i as int);
        let ghost next = ev.take(i + 1);
        proof {
            assert(next.drop_last() =~= prefix);
            assert(next.last() == entries@[i as int]@);
        }
        let e = &entries[i];
        if ends_with(lowercase(e.name.as_str()).as_str(), ".ssce") {
            let ghost sorted = autosave_views(res@);
            let ghost ks = keep(prefix, pred);
            proof {
                assert(keep(next, pred) == ks.push(e@));
                assert(ks.push(e@).drop_last() =~= ks);
            }
            let mut j: usize = 0;
            let mut stop = false;
            assert(sorted.skip(0) =~= sorted);
            while !stop && j < res.len()
                invariant
                    j <= res@.len(),
                    sorted == autosave_views(res@),
                    precedes == (|a: AutosaveView, b: AutosaveView| a.mtime > b.mtime),
                    place(sorted, e@, precedes) == j + place(sorted.skip(j as int), e@, precedes),
                    stop ==> j < res@.len() && e@.mtime > sorted[j as int].mtime,
                decreases res@.len() - j + (if stop { 0int } else { 1int }),
            {
                let ghost rest = sorted.skip(j as int);
                assert(rest[0] == res@[j as int]@);
                if e.mtime > res[j].mtime {
                    stop = true;
                } else {
                    assert(rest.drop_first() =~= sorted.skip(j + 1));
                    j = j + 1;
                }
            }
            proof {
                let rest = sorted.skip(j as int);
                if stop {
                    assert(rest[0] == sorted[j as int]);
                } else {
                    assert(rest.len() == 0);
                }
                assert(place(sorted, e@, precedes) == j);
                let s = ks.push(e@);
                assert(s.last() == e@);
                assert(sorted_by(s, precedes) == sorted.insert(j as int, e@));
            }
            let copy = AutosaveEntry { name: e.name.clone(), path: e.path.clone(), mtime: e.mtime };
            res.insert(j, copy);
            assert(autosave_views(res@) =~= sorted.insert(j as int, e@));
        } else {
            assert(keep(next, pred) == keep(prefix, pred));
        }
        i = i + 1;
    }
    assert(ev.take(entries@.len() as int) =~= ev);
    res
}

} // verus!
