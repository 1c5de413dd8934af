//! The catalog's record type and its mathematical view.

use vstd::prelude::*;

verus! {

/// One catalogued document. `id` is assigned by the store; `path` is the
/// record's identity.
#[derive(Clone, Debug)]
pub struct LibraryFile {
    pub id: Option<i64>,
    pub path: String,
    pub filename: String,
    pub thumbnail: Option<String>,
    pub title: Option<String>,
    pub summary: Option<String>,
    pub keywords: Option<String>,
    pub modified: Option<String>,
    pub last_opened: Option<String>,
    pub snapshot_count: i32,
}

/// The value of a `LibraryFile`, with every string seen as its characters.
pub struct FileRecord {
    pub id: Option<i64>,
    pub path: Seq<char>,
    pub filename: Seq<char>,
    pub thumbnail: Option<Seq<char>>,
    pub title: Option<Seq<char>>,
    pub summary: Option<Seq<char>>,
    pub keywords: Option<Seq<char>>,
    pub modified: Option<Seq<char>>,
    pub last_opened: Option<Seq<char>>,
    pub snapshot_count: i32,
}

pub open spec fn opt_view(o: Option<String>) -> Option<Seq<char>> {
    match o {
        Some(s) => Some(s@),
        None => None,
    }
}

impl View for LibraryFile {
    type V = FileRecord;

    open spec fn view(&self) -> FileRecord {
        FileRecord {
            id: self.id,
            path: self.path@,
            filename: self.filename@,
            thumbnail: opt_view(self.thumbnail),
            title: opt_view(self.title),
            summary: opt_view(self.summary),
            keywords: opt_view(self.keywords),
            modified: opt_view(self.modified),
            last_opened: opt_view(self.last_opened),
            snapshot_count: self.snapshot_count,
        }
    }
}

impl FileRecord {
    /// The same record under another id.
    pub open spec fn with_id(self, id: Option<i64>) -> FileRecord {
        FileRecord { id, ..self }
    }

    /// The same record with another `last_opened`.
    pub open spec fn with_last_opened(self, t: Option<Seq<char>>) -> FileRecord {
        FileRecord { last_opened: t, ..self }
    }
}

/// The views of a sequence of records.
pub open spec fn views(s: Seq<LibraryFile>) -> Seq<FileRecord> {
    s.map_values(|r: LibraryFile| r@)
}

pub(crate) fn copy_text(o: &Option<String>) -> (r: Option<String>)
    ensures
        opt_view(r) == opt_view(*o),
{
    match o {
        Some(s) => Some(s.clone()),
        None => None,
    }
}

impl LibraryFile {
    /// A copy of this record.
    pub fn duplicate(&self) -> (r: LibraryFile)
        ensures
            r@ == self@,
    {
        LibraryFile {
            id: self.id,
            path: self.path.clone(),
            filename: self.filename.clone(),
            thumbnail: copy_text(&self.thumbnail),
            title: copy_text(&self.title),
            summary: copy_text(&self.summary),
            keywords: copy_text(&self.keywords),
            modified: copy_text(&self.modified),
            last_opened: copy_text(&self.last_opened),
            snapshot_count: self.snapshot_count,
        }
    }
}

} // verus!
