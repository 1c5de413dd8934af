//! Document envelopes: the metadata that a library document declares about
//! itself, and the catalog record derived from it.

use vstd::prelude::*;
use crate::record::{opt_view, FileRecord, LibraryFile};
use crate::text::same_text;

verus! {

#[verifier::external_type_specification]
#[verifier::external_body]
pub struct ExJsonValue(serde_json::Value);

#[verifier::external_type_specification]
#[verifier::external_body]
pub struct ExJsonError(serde_json::Error);

/// A JSON value, as the library reads it. Numbers keep their text; an object
/// keeps its members in order, each key once.
#[derive(Debug)]
pub enum Json {
    Null,
    Bool(bool),
    Number(String),
    Text(String),
    List(Vec<Json>),
    Object(Vec<(String, Json)>),
}

/// The value that `text` parses to as one JSON document, if it does.
pub uninterp spec fn json_of(text: Seq<char>) -> Option<Json>;

/// Relies on the variants of `serde_json::Value`: each becomes the variant of
/// the same name in `Json`, numbers by their `Display` text, objects in the
/// order of serde_json's map.
#[verifier::external_body]
fn json_from_value(v: serde_json::Value) -> Json {
    match v {
        serde_json::Value::Null => Json::Null,
        serde_json::Value::Bool(b) => Json::Bool(b),
        serde_json::Value::Number(n) => Json::Number(n.to_string()),
        serde_json::Value::String(s) => Json::Text(s),
        serde_json::Value::Array(a) => Json::List(a.into_iter().map(json_from_value).collect()),
        serde_json::Value::Object(m) => Json::Object(m.into_iter().map(|(k, x)| (k, json_from_value(x))).collect()),
    }
}

/// Relies on `serde_json::from_str::<serde_json::Value>`: it succeeds exactly
/// when the text is one well-formed JSON value, and what it returns depends on
/// the text alone.
#[verifier::external_body]
fn parse_json(text: &str) -> (r: Result<Json, serde_json::Error>)
    ensures
        r is Ok <==> json_of(text@) is Some,
        r matches Ok(j) ==> json_of(text@) == Some(j),
{
    serde_json::from_str::<serde_json::Value>(text).map(json_from_value)
}

/// Relies on `serde_json::Error`'s `Display`, for a message that names what
/// went wrong.
#[verifier::external_body]
fn json_error_message(e: &serde_json::Error) -> String {
    e.to_string()
}

/// The value of the first member of `fields` named `key`.
pub open spec fn field_of(fields: Seq<(String, Json)>, key: Seq<char>) -> Option<Json>
    decreases fields.len(),
{
    if fields.len() == 0 {
        None
    } else if fields[0].0@ == key {
        Some(fields[0].1)
    } else {
        field_of(fields.drop_first(), key)
    }
}

/// The member `key` of an object; `None` for a missing key or a value that is
/// no object.
pub open spec fn member_of(j: Json, key: Seq<char>) -> Option<Json> {
    match j {
        Json::Object(fields) => field_of(fields@, key),
        _ => None,
    }
}

/// The contents of a JSON string; `None` for anything else.
pub open spec fn text_of(j: Option<Json>) -> Option<Seq<char>> {
    match j {
        Some(Json::Text(s)) => Some(s@),
        _ => None,
    }
}

/// The string elements of a list, in order.
pub open spec fn texts_in(items: Seq<Json>) -> Seq<Seq<char>>
    decreases items.len(),
{
    if items.len() == 0 {
        Seq::empty()
    } else {
        let prev = texts_in(items.drop_last());
        match items.last() {
            Json::Text(s) => prev.push(s@),
            _ => prev,
        }
    }
}

/// A string member of the `frontMatter` object.
pub open spec fn front_text(j: Json, key: Seq<char>) -> Option<Seq<char>> {
    match member_of(j, "frontMatter"@) {
        Some(fm) => text_of(member_of(fm, key)),
        None => None,
    }
}

/// The envelope that a parsed document declares: its `thumbnail` string, the
/// string elements of its `keywords` list, the `title`, `summary` and
/// `modified` strings of its `frontMatter`, and the length of its `snapshots`
/// list (zero when there is none).
pub open spec fn envelope_of(j: Json) -> EnvelopeView {
    EnvelopeView {
        thumbnail: text_of(member_of(j, "thumbnail"@)),
        keywords: match member_of(j, "keywords"@) {
            Some(Json::List(items)) => Some(texts_in(items@)),
            _ => None,
        },
        title: front_text(j, "title"@),
        summary: front_text(j, "summary"@),
        modified: front_text(j, "modified"@),
        snapshots: match member_of(j, "snapshots"@) {
            Some(Json::List(items)) => items@.len(),
            _ => 0,
        },
    }
}

/// The member `key` of an object.
pub fn member<'a>(j: &'a Json, key: &str) -> (r: Option<&'a Json>)
    ensures
        r is None <==> member_of(*j, key@) is None,
        r matches Some(m) ==> member_of(*j, key@) == Some(*m),
{
    match j {
        Json::Object(fields) => {
            let mut i: usize = 0;
            assert(fields@.skip(0) =~= fields@);
            while i < fields.len()
                invariant
                    member_of(*j, key@) == field_of(fields@, key@),
                    i <= fields@.len(),
                    field_of(fields@, key@) == field_of(fields@.skip(i as int), key@),
                decreases fields@.len() - i,
            {
                let ghost rest = fields@.skip(i as int);
                assert(rest[0] == fields@[i as int]);
                if same_text(fields[i].0.as_str(), key) {
                    assert(rest[0].0@ == key@);
                    assert(field_of(rest, key@) == Some(rest[0].1));
                    return Some(&fields[i].1);
                }
                assert(rest.drop_first() =~= fields@.skip(i + 1));
                i = i + 1;
            }
            None
        },
        _ => None,
    }
}

/// The contents of a JSON string.
pub fn as_text(j: Option<&Json>) -> (r: Option<String>)
    ensures
        opt_view(r) == text_of(
            match j {
                Some(x) => Some(*x),
                None => None,
            },
        ),
{
    match j {
        Some(Json::Text(s)) => Some(s.clone()),
        _ => None,
    }
}

/// What a document declares about itself: an optional thumbnail, the string
/// elements of its keyword list, the title, summary and modification time of
/// its front matter, and how many snapshots it embeds.
#[derive(Clone, Debug)]
pub struct DocumentEnvelope {
    pub thumbnail: Option<String>,
    pub keywords: Option<Vec<String>>,
    pub title: Option<String>,
    pub summary: Option<String>,
    pub modified: Option<String>,
    pub snapshots: usize,
}

pub struct EnvelopeView {
    pub thumbnail: Option<Seq<char>>,
    pub keywords: Option<Seq<Seq<char>>>,
    pub title: Option<Seq<char>>,
    pub summary: Option<Seq<char>>,
    pub modified: Option<Seq<char>>,
    pub snapshots: nat,
}

pub open spec fn texts_view(v: Vec<String>) -> Seq<Seq<char>> {
    v@.map_values(|s: String| s@)
}

impl View for DocumentEnvelope {
    type V = EnvelopeView;

    open spec fn view(&self) -> EnvelopeView {
        EnvelopeView {
            thumbnail: opt_view(self.thumbnail),
            keywords: match self.keywords {
                Some(k) => Some(texts_view(k)),
                None => None,
            },
            title: opt_view(self.title),
            summary: opt_view(self.summary),
            modified: opt_view(self.modified),
            snapshots: self.snapshots as nat,
        }
    }
}

/// The keywords joined by single spaces.
pub open spec fn joined(ks: Seq<Seq<char>>) -> Seq<char>
    decreases ks.len(),
{
    if ks.len() == 0 {
        Seq::empty()
    } else if ks.len() == 1 {
        ks[0]
    } else {
        joined(ks.drop_last()) + seq![' '] + ks.last()
    }
}

/// The keyword field of a record: the list joined, or absent when the list is
/// absent or empty.
pub open spec fn keywords_field(ks: Option<Seq<Seq<char>>>) -> Option<Seq<char>> {
    match ks {
        Some(k) => if k.len() > 0 {
            Some(joined(k))
        } else {
            None
        },
        None => None,
    }
}

/// A snapshot count as a record holds it, saturating at `i32::MAX`.
pub open spec fn snapshot_field(n: nat) -> i32 {
    if n > i32::MAX {
        i32::MAX
    } else {
        n as i32
    }
}

/// The record that reconciliation derives from the document at `path`, whose
/// file name is `name`. Its `last_opened` is seeded from `modified`, so that a
/// new document shows among the recent ones at once.
pub open spec fn scanned_view(path: Seq<char>, name: Seq<char>, env: EnvelopeView) -> FileRecord {
    FileRecord {
        id: None,
        path,
        filename: name,
        thumbnail: env.thumbnail,
        title: env.title,
        summary: env.summary,
        keywords: keywords_field(env.keywords),
        modified: env.modified,
        last_opened: env.modified,
        snapshot_count: snapshot_field(env.snapshots),
    }
}

/// The keywords joined by single spaces, or `None` for an absent or empty list.
pub fn join_keywords(ks: &Option<Vec<String>>) -> (r: Option<String>)
    ensures
        opt_view(r) == keywords_field(
            match *ks {
                Some(k) => Some(texts_view(k)),
                None => None,
            },
        ),
{
    match ks {
        None => None,
        Some(k) => {
            if k.len() == 0 {
                return None;
            }
            let ghost kv = texts_view(*k);
            let mut out = k[0].clone();
            let mut i: usize = 1;
            proof {
                assert(kv.take(1) =~= seq![kv[0]]);
            }
            while i < k.len()
                invariant
                    kv == texts_view(*k),
                    1 <= i <= k@.len(),
                    out@ == joined(kv.take(i as int)),
                decreases k@.len() - i,
            {
                proof {
                    reveal_strlit(" ");
                    assert(kv.take(i + 1).drop_last() =~= kv.take(i as int));
                }
                out.append(" ");
                out.append(k[i].as_str());
                i = i + 1;
            }
            assert(kv.take(k@.len() as int) =~= kv);
            Some(out)
        },
    }
}

/// Derives the record of the document at `path`, named `name`, from its
/// envelope.
pub fn scanned_record(path: &str, name: &str, env: &DocumentEnvelope) -> (r: LibraryFile)
    ensures
        r@ == scanned_view(path@, name@, env@),
{
    let snapshot_count: i32 = if env.snapshots > 2147483647 {
        2147483647
    } else {
        env.snapshots as i32
    };
    LibraryFile {
        id: None,
        path: String::from_str(path),
        filename: String::from_str(name),
        thumbnail: crate::record::copy_text(&env.thumbnail),
        title: crate::record::copy_text(&env.title),
        summary: crate::record::copy_text(&env.summary),
        keywords: join_keywords(&env.keywords),
        modified: crate::record::copy_text(&env.modified),
        last_opened: crate::record::copy_text(&env.modified),
        snapshot_count,
    }
}

/// Checks that `text` is one well-formed JSON value; the error carries the
/// parser's message.
pub fn check_json(text: &str) -> (r: Result<(), String>)
    ensures
        r is Ok <==> json_of(text@) is Some,
{
    match parse_json(text) {
        Ok(_) => Ok(()),
        Err(e) => Err(json_error_message(&e)),
    }
}

fn front_member(j: &Json, key: &str) -> (r: Option<String>)
    ensures
        opt_view(r) == front_text(*j, key@),
{
    match member(j, "frontMatter") {
        Some(fm) => as_text(member(fm, key)),
        None => None,
    }
}

/// The envelope that a parsed document declares.
pub fn envelope_from(json: &Json) -> (r: DocumentEnvelope)
    ensures
        r@ == envelope_of(*json),
{
    let keywords = match member(json, "keywords") {
        Some(Json::List(items)) => {
            let mut ks: Vec<String> = Vec::new();
            let mut i: usize = 0;
            while i < items.len()
                invariant
                    i <= items@.len(),
                    texts_view(ks) == texts_in(items@.take(i as int)),
                decreases items@.len() - i,
            {
                proof {
                    assert(items@.take(i + 1).drop_last() =~= items@.take(i as int));
                }
                match &items[i] {
                    Json::Text(s) => {
                        let ghost before = texts_view(ks);
                        ks.push(s.clone());
                        assert(texts_view(ks) =~= before.push(s@));
                    },
                    _ => {},
                }
                i = i + 1;
            }
            assert(items@.take(items@.len() as int) =~= items@);
            Some(ks)
        },
        _ => None,
    };
    let snapshots = match member(json, "snapshots") {
        Some(Json::List(items)) => items.len(),
        _ => 0,
    };
    DocumentEnvelope {
        thumbnail: as_text(member(json, "thumbnail")),
        keywords,
        title: front_member(json, "title"),
        summary: front_member(json, "summary"),
        modified: front_member(json, "modified"),
        snapshots,
    }
}

/// Reads the envelope from a document's text (see `envelope_of`). Fails, with
/// the parser's message, exactly when the text is not well-formed JSON.
pub fn parse_envelope(text: &str) -> (r: Result<DocumentEnvelope, String>)
    ensures
        r is Ok <==> json_of(text@) is Some,
        r matches Ok(env) ==> env@ == envelope_of(json_of(text@).unwrap()),
{
    match parse_json(text) {
        Ok(json) => Ok(envelope_from(&json)),
        Err(e) => Err(json_error_message(&e)),
    }
}

} // verus!
