//! The record store: one row per path, and beside each row its entry in the
//! full-text shadow index, kept in step by every mutation.

use vstd::prelude::*;
use crate::record::{copy_text, opt_view, views, FileRecord, LibraryFile};
use crate::text::{chars_of, lower_of, lowercase, same_text};

verus! {

/// The text that the shadow index holds of a record: its file name, title,
/// summary and keywords in lower case, an absent field being empty.
pub struct Projection {
    pub filename: Seq<char>,
    pub title: Seq<char>,
    pub summary: Seq<char>,
    pub keywords: Seq<char>,
}

/// A field in lower case, or empty when absent.
pub open spec fn lower_or_empty(o: Option<Seq<char>>) -> Seq<char> {
    match o {
        Some(s) => lower_of(s),
        None => Seq::empty(),
    }
}

pub open spec fn projection(r: FileRecord) -> Projection {
    Projection {
        filename: lower_of(r.filename),
        title: lower_or_empty(r.title),
        summary: lower_or_empty(r.summary),
        keywords: lower_or_empty(r.keywords),
    }
}

/// One entry of the shadow index: the id of its row and that row's projected
/// text, held as characters so that queries read it directly.
pub struct ShadowEntry {
    pub id: i64,
    pub filename: Vec<char>,
    pub title: Vec<char>,
    pub summary: Vec<char>,
    pub keywords: Vec<char>,
}

impl ShadowEntry {
    pub open spec fn projection(&self) -> Projection {
        Projection {
            filename: self.filename@,
            title: self.title@,
            summary: self.summary@,
            keywords: self.keywords@,
        }
    }
}

fn chars_or_empty(o: &Option<String>) -> (r: Vec<char>)
    ensures
        r@ == lower_or_empty(opt_view(*o)),
{
    match o {
        Some(s) => chars_of(lowercase(s.as_str()).as_str()),
        None => Vec::new(),
    }
}

/// Derives the shadow entry of a row.
pub fn shadow_entry(id: i64, r: &LibraryFile) -> (e: ShadowEntry)
    ensures
        e.id == id,
        e.projection() == projection(r@),
{
    ShadowEntry {
        id,
        filename: chars_of(lowercase(r.filename.as_str()).as_str()),
        title: chars_or_empty(&r.title),
        summary: chars_or_empty(&r.summary),
        keywords: chars_or_empty(&r.keywords),
    }
}

/// Some row of `rows` has `path`.
pub open spec fn has_path(rows: Seq<FileRecord>, path: Seq<char>) -> bool {
    exists|k: int| 0 <= k < rows.len() && #[trigger] rows[k].path == path
}

/// The position of the row with `path` (meaningful when `has_path`).
pub open spec fn path_index(rows: Seq<FileRecord>, path: Seq<char>) -> int {
    choose|k: int| 0 <= k < rows.len() && #[trigger] rows[k].path == path
}

/// Rows as the store keeps them: each has an id, ids ascend in storage order,
/// and no two rows share a path.
pub open spec fn well_formed_rows(rows: Seq<FileRecord>) -> bool {
    &&& forall|k: int| 0 <= k < rows.len() ==> (#[trigger] rows[k]).id is Some
    &&& forall|j: int, k: int|
        0 <= j < k < rows.len() ==> (#[trigger] rows[j]).id.unwrap() < (#[trigger] rows[k]).id.unwrap()
    &&& forall|j: int, k: int|
        0 <= j < rows.len() && 0 <= k < rows.len() && j != k ==> (#[trigger] rows[j]).path
            != (#[trigger] rows[k]).path
}

/// The paths of the rows, as a set.
pub open spec fn path_set(rows: Seq<FileRecord>) -> Set<Seq<char>> {
    Set::new(|p: Seq<char>| has_path(rows, p))
}

/// The record that an upsert of `rec` leaves in place of the existing row
/// `old`: every field of `rec` under the id of `old`. When `keep_opened` holds
/// (a reconciliation), a `last_opened` already recorded on `old` is kept and
/// `rec`'s is used only where `old` has none.
pub open spec fn replaced(old: FileRecord, rec: FileRecord, keep_opened: bool) -> FileRecord {
    let opened = if keep_opened && old.last_opened is Some {
        old.last_opened
    } else {
        rec.last_opened
    };
    rec.with_id(old.id).with_last_opened(opened)
}

/// What an upsert of `rec` does to rows `rows` whose next id is `next`: the new
/// rows, the new next id, and the result.
pub open spec fn upsert_step(rows: Seq<FileRecord>, next: i64, rec: FileRecord, keep_opened: bool) -> (
    Seq<FileRecord>,
    i64,
    Result<i64, StoreError>,
) {
    if has_path(rows, rec.path) {
        let k = path_index(rows, rec.path);
        (rows.update(k, replaced(rows[k], rec, keep_opened)), next, Ok(rows[k].id.unwrap()))
    } else if next < i64::MAX {
        (rows.push(rec.with_id(Some(next))), (next + 1) as i64, Ok(next))
    } else {
        (rows, next, Err(StoreError::IdsExhausted))
    }
}

/// Rows without the row of `path`, if there is one.
pub open spec fn removed(rows: Seq<FileRecord>, path: Seq<char>) -> Seq<FileRecord> {
    if has_path(rows, path) {
        rows.remove(path_index(rows, path))
    } else {
        rows
    }
}

/// Rows with `last_opened` of the row of `path` set to `t`, if there is one.
pub open spec fn touched(rows: Seq<FileRecord>, path: Seq<char>, t: Seq<char>) -> Seq<FileRecord> {
    if has_path(rows, path) {
        let k = path_index(rows, path);
        rows.update(k, rows[k].with_last_opened(Some(t)))
    } else {
        rows
    }
}

/// The rows whose flag in `present` is set, in order.
pub open spec fn retained(rows: Seq<FileRecord>, present: Seq<bool>) -> Seq<FileRecord>
    decreases rows.len(),
{
    if rows.len() == 0 || present.len() < rows.len() {
        Seq::empty()
    } else {
        let prev = retained(rows.drop_last(), present.take(rows.len() - 1));
        if present[rows.len() - 1] {
            prev.push(rows.last())
        } else {
            prev
        }
    }
}

/// After an upsert, the paths are those before and the upserted one; an
/// upsert that fails changes nothing.
pub proof fn lemma_upsert_paths(rows: Seq<FileRecord>, next: i64, rec: FileRecord, keep_opened: bool)
    ensures
        ({
            let (after, next2, r) = upsert_step(rows, next, rec, keep_opened);
            &&& r is Ok ==> path_set(after) == path_set(rows).insert(rec.path)
            &&& r is Err ==> after == rows && next2 == next
            &&& after.len() >= rows.len()
            &&& forall|k: int| 0 <= k < rows.len() ==> (#[trigger] after[k]).path == rows[k].path
        }),
{
    let (after, next2, r) = upsert_step(rows, next, rec, keep_opened);
    if has_path(rows, rec.path) {
        let k = path_index(rows, rec.path);
        assert forall|p: Seq<char>| has_path(after, p) <==> has_path(rows, p) || p == rec.path by {
            if has_path(after, p) {
                let j = choose|j: int| 0 <= j < after.len() && #[trigger] after[j].path == p;
                assert(rows[j].path == after[j].path);
            }
            if has_path(rows, p) {
                let j = choose|j: int| 0 <= j < rows.len() && #[trigger] rows[j].path == p;
                assert(after[j].path == p);
            }
            if p == rec.path {
                assert(after[k].path == p);
            }
        }
        assert(path_set(after) =~= path_set(rows).insert(rec.path));
    } else if next < i64::MAX {
        assert forall|p: Seq<char>| has_path(after, p) <==> has_path(rows, p) || p == rec.path by {
            if has_path(after, p) {
                let j = choose|j: int| 0 <= j < after.len() && #[trigger] after[j].path == p;
                if j < rows.len() {
                    assert(rows[j].path == p);
                }
            }
            if has_path(rows, p) {
                let j = choose|j: int| 0 <= j < rows.len() && #[trigger] rows[j].path == p;
                assert(after[j].path == p);
            }
            if p == rec.path {
                assert(after[rows.len() as int].path == p);
            }
        }
        assert(path_set(after) =~= path_set(rows).insert(rec.path));
    }
}

/// Removing `path` from well-formed rows takes exactly that path out of the
/// path set.
pub proof fn lemma_removed_paths(rows: Seq<FileRecord>, path: Seq<char>)
    requires
        well_formed_rows(rows),
    ensures
        path_set(removed(rows, path)) == path_set(rows).remove(path),
{
    let after = removed(rows, path);
    if has_path(rows, path) {
        let k = path_index(rows, path);
        assert forall|p: Seq<char>| has_path(after, p) <==> has_path(rows, p) && p != path by {
            if has_path(after, p) {
                let j = choose|j: int| 0 <= j < after.len() && #[trigger] after[j].path == p;
                let jj = if j < k { j } else { j + 1 };
                assert(rows[jj].path == p);
                assert(rows[jj].path != rows[k].path);
            }
            if has_path(rows, p) && p != path {
                let j = choose|j: int| 0 <= j < rows.len() && #[trigger] rows[j].path == p;
                if j < k {
                    assert(after[j].path == p);
                } else {
                    assert(after[j - 1].path == p);
                }
            }
        }
    }
    assert(path_set(after) =~= path_set(rows).remove(path));
}

/// Rows that a store can be restored from: well-formed, with every id in
/// `1..i64::MAX`.
pub open spec fn restorable(rows: Seq<FileRecord>) -> bool {
    &&& well_formed_rows(rows)
    &&& forall|k: int| 0 <= k < rows.len() ==> 1 <= (#[trigger] rows[k]).id.unwrap() < i64::MAX
}

/// Why a mutation was refused.
#[derive(Debug, PartialEq, Eq, Structural)]
pub enum StoreError {
    /// Every id a new row could take has been used.
    IdsExhausted,
    /// Rows to restore lack an id, are not in ascending id order, use an id
    /// outside `1..i64::MAX`, or share a path.
    InvalidRows,
}

/// The catalog: rows in insertion order, the shadow index aligned with them,
/// and the next id to assign.
pub struct LibraryIndex {
    rows: Vec<LibraryFile>,
    shadow: Vec<ShadowEntry>,
    next_id: i64,
}

impl View for LibraryIndex {
    type V = Seq<FileRecord>;

    closed spec fn view(&self) -> Seq<FileRecord> {
        views(self.rows@)
    }
}

impl LibraryIndex {
    /// The store's invariant: well-formed rows, ids below the next id, and a
    /// shadow index that holds exactly one entry per row, derived from it.
    pub closed spec fn wf(&self) -> bool {
        &&& well_formed_rows(self@)
        &&& self.next_id >= 1
        &&& forall|k: int| 0 <= k < self@.len() ==> 1 <= (#[trigger] self@[k]).id.unwrap() < self.next_id
        &&& self.shadow@.len() == self.rows@.len()
        &&& forall|k: int|
            0 <= k < self.shadow@.len() ==> (#[trigger] self.shadow@[k]).id == self@[k].id.unwrap()
                && self.shadow@[k].projection() == projection(self@[k])
    }

    /// A well-formed store holds well-formed rows.
    pub proof fn lemma_rows_well_formed(&self)
        requires
            self.wf(),
        ensures
            well_formed_rows(self@),
    {
    }

    /// The shadow index of a well-formed store holds one entry per row, in the
    /// rows' order, each with its row's id and the projection of that row.
    pub proof fn lemma_shadow_in_step(&self, k: int)
        requires
            self.wf(),
            0 <= k < self@.len(),
        ensures
            self.shadow_len() == self@.len(),
            self.shadow_at(k).id == self@[k].id.unwrap(),
            self.shadow_at(k).projection() == projection(self@[k]),
    {
    }

    /// The number of entries of the shadow index.
    pub closed spec fn shadow_len(&self) -> nat {
        self.shadow@.len()
    }

    /// The id that the next new row receives.
    pub closed spec fn next_id(&self) -> i64 {
        self.next_id
    }

    /// The shadow entry aligned with row `k`.
    pub closed spec fn shadow_at(&self, k: int) -> ShadowEntry {
        self.shadow@[k]
    }

    /// An empty catalog.
    pub fn new() -> (r: LibraryIndex)
        ensures
            r.wf(),
            r@ == Seq::<FileRecord>::empty(),
            r.next_id() == 1,
    {
        let r = LibraryIndex { rows: Vec::new(), shadow: Vec::new(), next_id: 1 };
        assert(r@ =~= Seq::<FileRecord>::empty());
        r
    }

    /// The number of rows.
    pub fn len(&self) -> (n: usize)
        ensures
            n == self@.len(),
    {
        self.rows.len()
    }

    /// The position of the row with `path`, if any.
    pub fn find(&self, path: &str) -> (r: Option<usize>)
        requires
            self.wf(),
        ensures
            r is None <==> !has_path(self@, path@),
            r matches Some(k) ==> k < self@.len() && self@[k as int].path == path@ && k
                == path_index(self@, path@),
    {
        let mut i: usize = 0;
        while i < self.rows.len()
            invariant
                self.wf(),
                i <= self.rows@.len(),
                self@.len() == self.rows@.len(),
                forall|j: int| 0 <= j < i ==> self@[j].path != path@,
            decreases self.rows@.len() - i,
        {
            assert(self@[i as int] == self.rows@[i as int]@);
            if same_text(self.rows[i].path.as_str(), path) {
                proof {
                    let k = path_index(self@, path@);
                    assert(self@[i as int].path == path@);
                    assert(0 <= k < self@.len() && self@[k].path == path@);
                    if k != i as int {
                        assert(self@[k].path != self@[i as int].path);
                    }
                }
                return Some(i);
            }
            i = i + 1;
        }
        None
    }

    fn upsert_with(&mut self, file: LibraryFile, keep_opened: bool) -> (r: Result<i64, StoreError>)
        requires
            old(self).wf(),
        ensures
            final(self).wf(),
            (final(self)@, final(self).next_id(), r) == upsert_step(
                old(self)@,
                old(self).next_id(),
                file@,
                keep_opened,
            ),
    {
        let ghost rows0 = self@;
        match self.find(file.path.as_str()) {
            Some(k) => {
                let ghost old_row = self@[k as int];
                assert(self@[k as int] == self.rows@[k as int]@);
                let id = match self.rows[k].id {
                    Some(id) => id,
                    None => 0,
                };
                let mut rec = file;
                rec.id = Some(id);
                if keep_opened && self.rows[k].last_opened.is_some() {
                    rec.last_opened = copy_text(&self.rows[k].last_opened);
                }
                assert(rec@ == replaced(old_row, file@, keep_opened));
                let entry = shadow_entry(id, &rec);
                // The stale entry leaves the shadow index before the fresh one enters.
                self.shadow.remove(k);
                self.shadow.insert(k, entry);
                self.rows[k] = rec;
                proof {
                    assert(self@ =~= rows0.update(k as int, replaced(old_row, file@, keep_opened)));
                    assert forall|j: int, l: int| 0 <= j < self@.len() && 0 <= l < self@.len() && j != l
                        implies (#[trigger] self@[j]).path != (#[trigger] self@[l]).path by {
                        assert(rows0[j].path != rows0[l].path);
                    }
                    assert forall|j: int, l: int| 0 <= j < l < self@.len()
                        implies (#[trigger] self@[j]).id.unwrap() < (#[trigger] self@[l]).id.unwrap() by {
                        assert(rows0[j].id.unwrap() < rows0[l].id.unwrap());
                    }
                    assert forall|j: int| 0 <= j < self.shadow@.len()
                        implies (#[trigger] self.shadow@[j]).id == self@[j].id.unwrap()
                            && self.shadow@[j].projection() == projection(self@[j]) by {
                        if j != k as int {
                            assert(self.shadow@[j] == old(self).shadow@[j]);
                        }
                    }
                }
                Ok(id)
            },
            None => {
                if self.next_id == i64::MAX {
                    return Err(StoreError::IdsExhausted);
                }
                let id = self.next_id;
                let mut rec = file;
                rec.id = Some(id);
                let entry = shadow_entry(id, &rec);
                self.rows.push(rec);
                self.shadow.push(entry);
                self.next_id = id + 1;
                proof {
                    assert(self@ =~= rows0.push(file@.with_id(Some(id))));
                    assert forall|j: int, l: int| 0 <= j < self@.len() && 0 <= l < self@.len() && j != l
                        implies (#[trigger] self@[j]).path != (#[trigger] self@[l]).path by {
                        if j < rows0.len() && l < rows0.len() {
                            assert(rows0[j].path != rows0[l].path);
                        } else if j < rows0.len() {
                            assert(rows0[j].path != file@.path);
                        } else {
                            assert(rows0[l].path != file@.path);
                        }
                    }
                    assert forall|j: int, l: int| 0 <= j < l < self@.len()
                        implies (#[trigger] self@[j]).id.unwrap() < (#[trigger] self@[l]).id.unwrap() by {
                        if l < rows0.len() {
                            assert(rows0[j].id.unwrap() < rows0[l].id.unwrap());
                        } else {
                            assert(rows0[j].id.unwrap() < id);
                        }
                    }
                    assert forall|j: int| 0 <= j < self.shadow@.len()
                        implies (#[trigger] self.shadow@[j]).id == self@[j].id.unwrap()
                            && self.shadow@[j].projection() == projection(self@[j]) by {
                        if j < rows0.len() {
                            assert(self.shadow@[j] == old(self).shadow@[j]);
                        }
                    }
                }
                Ok(id)
            },
        }
    }

    /// Inserts `file` under a new id, or, when a row with its path exists,
    /// replaces every field of that row, keeping its id. Returns the row's id.
    pub fn upsert_file(&mut self, file: LibraryFile) -> (r: Result<i64, StoreError>)
        requires
            old(self).wf(),
        ensures
            final(self).wf(),
            (final(self)@, final(self).next_id(), r) == upsert_step(
                old(self)@,
                old(self).next_id(),
                file@,
                false,
            ),
    {
        self.upsert_with(file, false)
    }

    /// The upsert of a reconciliation: as `upsert_file`, except that an
    /// existing row's recorded `last_opened` is never overwritten.
    pub fn upsert_scanned(&mut self, file: LibraryFile) -> (r: Result<i64, StoreError>)
        requires
            old(self).wf(),
        ensures
            final(self).wf(),
            (final(self)@, final(self).next_id(), r) == upsert_step(
                old(self)@,
                old(self).next_id(),
                file@,
                true,
            ),
    {
        self.upsert_with(file, true)
    }

    /// Deletes the row of `path` and its shadow entry; nothing happens when
    /// no row has that path.
    pub fn remove_file(&mut self, path: &str)
        requires
            old(self).wf(),
        ensures
            final(self).wf(),
            final(self)@ == removed(old(self)@, path@),
            final(self).next_id() == old(self).next_id(),
    {
        let ghost rows0 = self@;
        match self.find(path) {
            Some(k) => {
                self.rows.remove(k);
                self.shadow.remove(k);
                proof {
                    assert(self@ =~= rows0.remove(k as int));
                    assert forall|j: int, l: int| 0 <= j < self@.len() && 0 <= l < self@.len() && j != l
                        implies (#[trigger] self@[j]).path != (#[trigger] self@[l]).path by {
                        let jj = if j < k { j } else { j + 1 };
                        let ll = if l < k { l } else { l + 1 };
                        assert(rows0[jj].path != rows0[ll].path);
                    }
                    assert forall|j: int, l: int| 0 <= j < l < self@.len()
                        implies (#[trigger] self@[j]).id.unwrap() < (#[trigger] self@[l]).id.unwrap() by {
                        let jj = if j < k { j } else { j + 1 };
                        let ll = if l < k { l } else { l + 1 };
                        assert(rows0[jj].id.unwrap() < rows0[ll].id.unwrap());
                    }
                    assert forall|j: int| 0 <= j < self.shadow@.len()
                        implies (#[trigger] self.shadow@[j]).id == self@[j].id.unwrap()
                            && self.shadow@[j].projection() == projection(self@[j]) by {
                        let jj = if j < k { j } else { j + 1 };
                        assert(self.shadow@[j] == old(self).shadow@[jj]);
                    }
                }
            },
            None => {},
        }
    }

    /// Sets `last_opened` of the row of `path` to `timestamp`, leaving every
    /// other field alone; nothing happens when no row has that path.
    pub fn touch_last_opened(&mut self, path: &str, timestamp: String)
        requires
            old(self).wf(),
        ensures
            final(self).wf(),
            final(self)@ == touched(old(self)@, path@, timestamp@),
            final(self).next_id() == old(self).next_id(),
    {
        let ghost rows0 = self@;
        match self.find(path) {
            Some(k) => {
                let mut rec = self.rows[k].duplicate();
                rec.last_opened = Some(timestamp);
                self.rows[k] = rec;
                proof {
                    assert(self@ =~= rows0.update(k as int, rows0[k as int].with_last_opened(Some(timestamp@))));
                    assert forall|j: int, l: int| 0 <= j < self@.len() && 0 <= l < self@.len() && j != l
                        implies (#[trigger] self@[j]).path != (#[trigger] self@[l]).path by {
                        assert(rows0[j].path != rows0[l].path);
                    }
                    assert forall|j: int, l: int| 0 <= j < l < self@.len()
                        implies (#[trigger] self@[j]).id.unwrap() < (#[trigger] self@[l]).id.unwrap() by {
                        assert(rows0[j].id.unwrap() < rows0[l].id.unwrap());
                    }
                    assert forall|j: int| 0 <= j < self.shadow@.len()
                        implies (#[trigger] self.shadow@[j]).id == self@[j].id.unwrap()
                            && self.shadow@[j].projection() == projection(self@[j]) by {
                        assert(projection(self@[j]) == projection(rows0[j]));
                    }
                }
            },
            None => {},
        }
    }

    /// Deletes every row whose flag in `present` is unset (row `k` goes with
    /// `present[k]`), together with its shadow entry.
    pub fn prune_missing(&mut self, present: &Vec<bool>)
        requires
            old(self).wf(),
            present@.len() == old(self)@.len(),
        ensures
            final(self).wf(),
            final(self)@ == retained(old(self)@, present@),
            final(self).next_id() == old(self).next_id(),
    {
        let ghost rows0 = self@;
        let ghost shadow0 = self.shadow@;
        let n = self.rows.len();
        let mut rows: Vec<LibraryFile> = Vec::new();
        let mut shadow: Vec<ShadowEntry> = Vec::new();
        let ghost mut origin: Seq<int> = Seq::empty();
        std::mem::swap(&mut rows, &mut self.rows);
        std::mem::swap(&mut shadow, &mut self.shadow);
        let mut i: usize = 0;
        while i < n
            invariant
                n == rows@.len(),
                n == shadow@.len(),
                n == present@.len(),
                views(rows@) == rows0,
                shadow@ == shadow0,
                i <= n,
                self.next_id == old(self).next_id,
                self.next_id >= 1,
                self.shadow@.len() == self.rows@.len(),
                origin.len() == self.rows@.len(),
                views(self.rows@) == retained(rows0.take(i as int), present@.take(i as int)),
                forall|j: int| 0 <= j < origin.len() ==> 0 <= #[trigger] origin[j] < i,
                forall|j: int, l: int| 0 <= j < l < origin.len() ==> #[trigger] origin[j] < #[trigger] origin[l],
                well_formed_rows(rows0),
                forall|k: int| 0 <= k < rows0.len() ==> 1 <= (#[trigger] rows0[k]).id.unwrap() < self.next_id,
                forall|j: int| 0 <= j < origin.len() ==> self.rows@[j]@ == rows0[#[trigger] origin[j]]
                    && self.shadow@[j].id == rows0[origin[j]].id.unwrap()
                    && self.shadow@[j].projection() == projection(rows0[origin[j]]),
            decreases n - i,
        {
            proof {
                assert(rows0.take(i + 1).drop_last() =~= rows0.take(i as int));
                assert(present@.take(i + 1).take(i as int) =~= present@.take(i as int));
            }
            if present[i] {
                let ghost before = self.rows@;
                assert(rows@[i as int]@ == rows0[i as int]);
                let r = rows[i].duplicate();
                let e = shadow_entry(match rows[i].id { Some(id) => id, None => 0 }, &r);
                self.rows.push(r);
                self.shadow.push(e);
                proof {
                    origin = origin.push(i as int);
                    assert(views(self.rows@) =~= views(before).push(rows0[i as int]));
                }
            }
            i = i + 1;
        }
        proof {
            assert(rows0.take(n as int) =~= rows0);
            assert(present@.take(n as int) =~= present@);
            assert forall|j: int, l: int| 0 <= j < self@.len() && 0 <= l < self@.len() && j != l
                implies (#[trigger] self@[j]).path != (#[trigger] self@[l]).path by {
                assert(self@[j] == rows0[origin[j]]);
                assert(self@[l] == rows0[origin[l]]);
                assert(rows0[origin[j]].path != rows0[origin[l]].path);
            }
            assert forall|j: int, l: int| 0 <= j < l < self@.len()
                implies (#[trigger] self@[j]).id.unwrap() < (#[trigger] self@[l]).id.unwrap() by {
                assert(self@[j] == rows0[origin[j]]);
                assert(self@[l] == rows0[origin[l]]);
                assert(rows0[origin[j]].id.unwrap() < rows0[origin[l]].id.unwrap());
            }
            assert forall|j: int| 0 <= j < self@.len()
                implies 1 <= (#[trigger] self@[j]).id.unwrap() < self.next_id by {
                assert(self@[j] == rows0[origin[j]]);
            }
            assert forall|j: int| 0 <= j < self.shadow@.len()
                implies (#[trigger] self.shadow@[j]).id == self@[j].id.unwrap()
                    && self.shadow@[j].projection() == projection(self@[j]) by {
                assert(self@[j] == rows0[origin[j]]);
            }
            assert forall|j: int| 0 <= j < self@.len() implies (#[trigger] self@[j]).id is Some by {
                assert(self@[j] == rows0[origin[j]]);
            }
            assert(self.next_id >= 1);
            assert(self.wf());
        }
    }

    /// The row of `path`, if there is one.
    pub fn lookup(&self, path: &str) -> (r: Option<LibraryFile>)
        requires
            self.wf(),
        ensures
            r is None <==> !has_path(self@, path@),
            r matches Some(f) ==> f@ == self@[path_index(self@, path@)],
    {
        match self.find(path) {
            Some(k) => {
                assert(self@[k as int] == self.rows@[k as int]@);
                Some(self.rows[k].duplicate())
            },
            None => None,
        }
    }

    /// The stored paths, in storage order.
    pub fn paths(&self) -> (r: Vec<String>)
        ensures
            r@.len() == self@.len(),
            forall|k: int| 0 <= k < r@.len() ==> (#[trigger] r@[k])@ == self@[k].path,
    {
        let mut r: Vec<String> = Vec::new();
        let mut i: usize = 0;
        while i < self.rows.len()
            invariant
                i <= self.rows@.len(),
                self@.len() == self.rows@.len(),
                r@.len() == i,
                forall|k: int| 0 <= k < i ==> (#[trigger] r@[k])@ == self@[k].path,
            decreases self.rows@.len() - i,
        {
            assert(self@[i as int] == self.rows@[i as int]@);
            r.push(self.rows[i].path.clone());
            i = i + 1;
        }
        r
    }

    /// A copy of every row, in storage order.
    pub fn records(&self) -> (r: Vec<LibraryFile>)
        ensures
            views(r@) == self@,
    {
        let mut r: Vec<LibraryFile> = Vec::new();
        let mut i: usize = 0;
        while i < self.rows.len()
            invariant
                i <= self.rows@.len(),
                r@.len() == i,
                forall|k: int| 0 <= k < i ==> (#[trigger] r@[k])@ == self.rows@[k]@,
            decreases self.rows@.len() - i,
        {
            r.push(self.rows[i].duplicate());
            i = i + 1;
        }
        assert(views(r@) =~= self@);
        r
    }

    /// Row `k`.
    pub fn row(&self, k: usize) -> (r: &LibraryFile)
        requires
            k < self@.len(),
        ensures
            r@ == self@[k as int],
    {
        &self.rows[k]
    }

    /// The shadow entry of row `k`: it carries the row's id and projection.
    pub fn shadow(&self, k: usize) -> (e: &ShadowEntry)
        requires
            self.wf(),
            k < self@.len(),
        ensures
            e.id == self@[k as int].id.unwrap(),
            e.projection() == projection(self@[k as int]),
    {
        &self.shadow[k]
    }

    /// Rebuilds a store from rows saved earlier, ids included, in ascending id
    /// order. The next new row gets the id after the last one.
    pub fn restore(saved: &Vec<LibraryFile>) -> (r: Result<LibraryIndex, StoreError>)
        ensures
            r is Ok <==> restorable(views(saved@)),
            r matches Ok(ix) ==> ix.wf() && ix@ == views(saved@),
            r matches Err(e) ==> e == StoreError::InvalidRows,
    {
        let ghost sv = views(saved@);
        let mut ix = LibraryIndex::new();
        let mut i: usize = 0;
        while i < saved.len()
            invariant
                sv == views(saved@),
                i <= saved@.len(),
                ix.wf(),
                ix@ == sv.take(i as int),
                restorable(sv.take(i as int)),
                i > 0 ==> ix.next_id == sv[i - 1].id.unwrap() + 1,
                i == 0 ==> ix.next_id == 1,
            decreases saved@.len() - i,
        {
            let ghost prefix = sv.take(i as int);
            let row = &saved[i];
            assert(row@ == sv[i as int]);
            let id = match row.id {
                Some(id) => id,
                None => {
                    assert(!restorable(sv)) by {
                        assert(sv[i as int].id is None);
                    }
                    return Err(StoreError::InvalidRows);
                },
            };
            if id < ix.next_id || id == i64::MAX {
                assert(!restorable(sv)) by {
                    if restorable(sv) && i > 0 {
                        assert(sv[i - 1].id.unwrap() < sv[i as int].id.unwrap());
                    }
                }
                return Err(StoreError::InvalidRows);
            }
            if let Some(_) = ix.find(row.path.as_str()) {
                assert(!restorable(sv)) by {
                    let k = path_index(prefix, row.path@);
                    assert(sv[k].path == sv[i as int].path);
                    if restorable(sv) {
                        assert(sv[k].path != sv[i as int].path);
                    }
                }
                return Err(StoreError::InvalidRows);
            }
            let entry = shadow_entry(id, row);
            ix.rows.push(row.duplicate());
            ix.shadow.push(entry);
            ix.next_id = id + 1;
            i = i + 1;
            proof {
                assert(ix@ =~= sv.take(i as int));
                assert(sv.take(i as int) =~= prefix.push(sv[i - 1]));
                assert forall|j: int, l: int| 0 <= j < ix@.len() && 0 <= l < ix@.len() && j != l
                    implies (#[trigger] ix@[j]).path != (#[trigger] ix@[l]).path by {
                    if j < prefix.len() && l < prefix.len() {
                        assert(prefix[j].path != prefix[l].path);
                    } else if j < prefix.len() {
                        assert(!has_path(prefix, row.path@));
                        assert(prefix[j].path != row.path@);
                    } else {
                        assert(!has_path(prefix, row.path@));
                        assert(prefix[l].path != row.path@);
                    }
                }
                assert forall|j: int, l: int| 0 <= j < l < ix@.len()
                    implies (#[trigger] ix@[j]).id.unwrap() < (#[trigger] ix@[l]).id.unwrap() by {
                    if l < prefix.len() {
                        assert(prefix[j].id.unwrap() < prefix[l].id.unwrap());
                    } else {
                        assert(prefix[j].id.unwrap() < id);
                    }
                }
                assert forall|j: int| 0 <= j < ix.shadow@.len()
                    implies (#[trigger] ix.shadow@[j]).id == ix@[j].id.unwrap()
                        && ix.shadow@[j].projection() == projection(ix@[j]) by {
                    if j < prefix.len() {
                        assert(ix@[j] == prefix[j]);
                    }
                }
            }
        }
        assert(sv.take(saved@.len() as int) =~= sv);
        Ok(ix)
    }
}

} // verus!
