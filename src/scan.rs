//! Reconciliation: bringing the catalog in line with the documents found under
//! a library root.

use vstd::prelude::*;
use crate::envelope::{envelope_of, json_of, parse_envelope, scanned_record, scanned_view, DocumentEnvelope};
use crate::record::FileRecord;
use crate::store::{
    has_path, lemma_removed_paths, lemma_upsert_paths, path_set, removed, replaced, upsert_step,
    LibraryIndex, StoreError,
};

verus! {

/// A document found under the library root: its path, its file name (the
/// path's last component, as the file system gives it), and its text.
#[derive(Clone, Debug)]
pub struct ScannedDocument {
    pub path: String,
    pub file_name: String,
    pub text: String,
}

/// Why a reconciliation stopped.
#[derive(Debug)]
pub enum ScanError {
    /// The library root does not exist.
    RootNotFound(String),
    /// The document at `path` is not well-formed; `reason` says why.
    Malformed { path: String, reason: String },
    /// The store refused a record.
    Store(StoreError),
}

/// The record that reconciliation derives from a document whose text parses.
pub open spec fn doc_record(d: ScannedDocument) -> FileRecord {
    scanned_view(d.path@, d.file_name@, envelope_of(json_of(d.text@).unwrap()))
}

/// Where a pass over the documents stopped early: at the document with the
/// given position, which does not parse, or at a record the store refused.
pub enum ScanStop {
    Malformed(int),
    Exhausted,
}

/// The pass over `docs`: the record of each document upserted in turn, as
/// reconciliation upserts, into `rows` whose next id is `next`, stopping at the
/// first document that does not parse or that the store refuses. Gives the
/// rows, the next id, and where it stopped, if it did.
pub open spec fn scan_pass(docs: Seq<ScannedDocument>, rows: Seq<FileRecord>, next: i64) -> (
    Seq<FileRecord>,
    i64,
    Option<ScanStop>,
)
    decreases docs.len(),
{
    if docs.len() == 0 {
        (rows, next, None)
    } else {
        let (rows1, next1, stop) = scan_pass(docs.drop_last(), rows, next);
        if stop is Some {
            (rows1, next1, stop)
        } else if json_of(docs.last().text@) is None {
            (rows1, next1, Some(ScanStop::Malformed(docs.len() - 1)))
        } else {
            let (rows2, next2, r) = upsert_step(rows1, next1, doc_record(docs.last()), true);
            if r is Err {
                (rows2, next2, Some(ScanStop::Exhausted))
            } else {
                (rows2, next2, None)
            }
        }
    }
}

/// The rows without those of the paths in `missing`, removed in turn.
pub open spec fn pruned(rows: Seq<FileRecord>, missing: Seq<String>) -> Seq<FileRecord>
    decreases missing.len(),
{
    if missing.len() == 0 {
        rows
    } else {
        removed(pruned(rows, missing.drop_last()), missing.last()@)
    }
}

/// The paths of the scanned documents.
pub open spec fn doc_paths(docs: Seq<ScannedDocument>) -> Set<Seq<char>> {
    Set::new(|p: Seq<char>| exists|k: int| 0 <= k < docs.len() && (#[trigger] docs[k]).path@ == p)
}

/// The paths held by a list of strings.
pub open spec fn path_list(ps: Seq<String>) -> Set<Seq<char>> {
    Set::new(|p: Seq<char>| exists|k: int| 0 <= k < ps.len() && (#[trigger] ps[k])@ == p)
}

/// The paths that a reconciliation leaves: those stored before and those
/// scanned, less those whose files are gone.
pub open spec fn reconciled(
    stored: Set<Seq<char>>,
    scanned: Set<Seq<char>>,
    missing: Set<Seq<char>>,
) -> Set<Seq<char>> {
    stored.union(scanned).difference(missing)
}

/// Every row of `before` whose path is not in `missing` has a row in `after`
/// with the same path and id, and with the same `last_opened` when it had one;
/// a row whose path is not in `scanned` is in `after` unchanged.
pub open spec fn survives(
    before: Seq<FileRecord>,
    after: Seq<FileRecord>,
    scanned: Set<Seq<char>>,
    missing: Set<Seq<char>>,
) -> bool {
    forall|k: int|
        0 <= k < before.len() && !missing.contains(#[trigger] before[k].path) ==> exists|j: int|
            0 <= j < after.len() && (#[trigger] after[j]).path == before[k].path && after[j].id
                == before[k].id && (before[k].last_opened is Some ==> after[j].last_opened
                == before[k].last_opened) && (!scanned.contains(before[k].path) ==> after[j]
                == before[k])
}

proof fn lemma_scan_pass_stopped(docs: Seq<ScannedDocument>, rows: Seq<FileRecord>, next: i64, i: int)
    requires
        0 <= i <= docs.len(),
        scan_pass(docs.take(i), rows, next).2 is Some,
    ensures
        scan_pass(docs, rows, next) == scan_pass(docs.take(i), rows, next),
    decreases docs.len() - i,
{
    if i == docs.len() {
        assert(docs.take(i) =~= docs);
    } else {
        assert(docs.drop_last().take(i) =~= docs.take(i));
        lemma_scan_pass_stopped(docs.drop_last(), rows, next, i);
    }
}

proof fn lemma_scanned_upsert_keeps(rows: Seq<FileRecord>, next: i64, rec: FileRecord)
    ensures
        ({
            let after = upsert_step(rows, next, rec, true).0;
            forall|k: int|
                0 <= k < rows.len() ==> (#[trigger] after[k]).id == rows[k].id && (rows[k].last_opened is Some
                    ==> after[k].last_opened == rows[k].last_opened) && (rows[k].path != rec.path ==> after[k]
                    == rows[k])
        }),
{
    let after = upsert_step(rows, next, rec, true).0;
    assert forall|k: int| 0 <= k < rows.len() implies (#[trigger] after[k]).id == rows[k].id && (
    rows[k].last_opened is Some ==> after[k].last_opened == rows[k].last_opened) && (rows[k].path
        != rec.path ==> after[k] == rows[k]) by {
        if has_path(rows, rec.path) {
            let k0 = crate::store::path_index(rows, rec.path);
            if k == k0 {
                assert(after[k] == replaced(rows[k], rec, true));
            }
        }
    }
}

proof fn lemma_removed_survives(
    rows: Seq<FileRecord>,
    path: Seq<char>,
    before: Seq<FileRecord>,
    scanned: Set<Seq<char>>,
    missing: Set<Seq<char>>,
)
    requires
        survives(before, rows, scanned, missing),
    ensures
        survives(before, removed(rows, path), scanned, missing.insert(path)),
{
    let after = removed(rows, path);
    assert forall|k: int| 0 <= k < before.len() && !missing.insert(path).contains(#[trigger] before[k].path)
        implies exists|j: int|
        0 <= j < after.len() && (#[trigger] after[j]).path == before[k].path && after[j].id == before[k].id
            && (before[k].last_opened is Some ==> after[j].last_opened == before[k].last_opened) && (
        !scanned.contains(before[k].path) ==> after[j] == before[k]) by {
        let j = choose|j: int|
            0 <= j < rows.len() && (#[trigger] rows[j]).path == before[k].path && rows[j].id == before[k].id
                && (before[k].last_opened is Some ==> rows[j].last_opened == before[k].last_opened) && (
            !scanned.contains(before[k].path) ==> rows[j] == before[k]);
        if has_path(rows, path) {
            let k0 = crate::store::path_index(rows, path);
            assert(j != k0);
            if j < k0 {
                assert(after[j] == rows[j]);
            } else {
                assert(after[j - 1] == rows[j]);
            }
        } else {
            assert(after[j] == rows[j]);
        }
    }
}

impl LibraryIndex {
    /// Upserts the record derived from the envelope of the document at `path`,
    /// named `name`, keeping a `last_opened` that the existing row already
    /// records.
    pub fn apply_envelope(&mut self, path: &str, name: &str, env: &DocumentEnvelope) -> (r: Result<i64, StoreError>)
        requires
            old(self).wf(),
        ensures
            final(self).wf(),
            (final(self)@, final(self).next_id(), r) == upsert_step(
                old(self)@,
                old(self).next_id(),
                scanned_view(path@, name@, env@),
                true,
            ),
    {
        self.upsert_scanned(scanned_record(path, name, env))
    }

    /// Reconciles the catalog with the documents found under `root`: fails when
    /// the root does not exist; otherwise parses each document and upserts its
    /// record, stopping at the first that is malformed (what was written before
    /// stays, and nothing is pruned); then deletes the rows of `missing`, the
    /// stored paths whose files are gone. Returns how many documents were
    /// processed.
    pub fn rebuild_from_library(
        &mut self,
        root: &String,
        root_exists: bool,
        documents: &Vec<ScannedDocument>,
        missing: &Vec<String>,
    ) -> (r: Result<usize, ScanError>)
        requires
            old(self).wf(),
        ensures
            final(self).wf(),
            !root_exists ==> final(self)@ == old(self)@ && (r matches Err(ScanError::RootNotFound(p))
                && p@ == root@),
            root_exists ==> ({
                let (rows1, _next1, stop) = scan_pass(documents@, old(self)@, old(self).next_id());
                &&& stop is None ==> final(self)@ == pruned(rows1, missing@) && (r matches Ok(n) && n
                    == documents@.len())
                &&& stop matches Some(ScanStop::Malformed(k)) ==> final(self)@ == rows1 && (r matches Err(
                    ScanError::Malformed { path, reason },
                ) && path@ == documents@[k].path@)
                &&& stop matches Some(ScanStop::Exhausted) ==> final(self)@ == rows1 && (r matches Err(
                    ScanError::Store(StoreError::IdsExhausted),
                ))
            }),
            r is Ok ==> forall|k: int|
                0 <= k < documents@.len() ==> json_of((#[trigger] documents@[k]).text@) is Some,
            r matches Ok(n) ==> root_exists && n == documents@.len() && path_set(final(self)@)
                == reconciled(path_set(old(self)@), doc_paths(documents@), path_list(missing@))
                && survives(old(self)@, final(self)@, doc_paths(documents@), path_list(missing@)),
            r matches Err(ScanError::Malformed { path, reason }) ==> exists|k: int|
                0 <= k < documents@.len() && (#[trigger] documents@[k]).path@ == path@ && json_of(
                    documents@[k].text@,
                ) is None && (forall|j: int|
                    0 <= j < k ==> json_of((#[trigger] documents@[j]).text@) is Some) && path_set(
                    final(self)@,
                ) == path_set(old(self)@).union(doc_paths(documents@.take(k))) && survives(
                    old(self)@,
                    final(self)@,
                    doc_paths(documents@.take(k)),
                    Set::empty(),
                ),
            root_exists && (forall|k: int|
                0 <= k < documents@.len() ==> json_of((#[trigger] documents@[k]).text@) is Some)
                && old(self).next_id() + documents@.len() < i64::MAX ==> r is Ok,
    {
        if !root_exists {
            return Err(ScanError::RootNotFound(root.clone()));
        }
        let ghost rows0 = self@;
        let ghost next0 = self.next_id();
        let ghost docs = documents@;
        let mut count: usize = 0;
        assert(docs.take(0) =~= Seq::<ScannedDocument>::empty());
        while count < documents.len()
            invariant
                self.wf(),
                root_exists,
                next0 == old(self).next_id(),
                rows0 == old(self)@,
                docs == documents@,
                count <= docs.len(),
                scan_pass(docs.take(count as int), rows0, next0) == (self@, self.next_id(), None::<ScanStop>),
                forall|j: int| 0 <= j < count ==> json_of((#[trigger] docs[j]).text@) is Some,
                path_set(self@) == path_set(rows0).union(doc_paths(docs.take(count as int))),
                self@.len() >= rows0.len(),
                forall|k: int|
                    0 <= k < rows0.len() ==> (#[trigger] self@[k]).path == rows0[k].path && self@[k].id
                        == rows0[k].id && (rows0[k].last_opened is Some ==> self@[k].last_opened
                        == rows0[k].last_opened) && (!doc_paths(docs.take(count as int)).contains(
                        rows0[k].path,
                    ) ==> self@[k] == rows0[k]),
                self.next_id() <= next0 + count,
            decreases docs.len() - count,
        {
            let doc = &documents[count];
            let ghost prefix = docs.take(count as int);
            let ghost longer = docs.take(count + 1);
            proof {
                assert(longer.drop_last() =~= prefix);
                assert(longer.last() == docs[count as int]);
                assert(doc_paths(longer) =~= doc_paths(prefix).insert(doc.path@)) by {
                    assert forall|p: Seq<char>| #[trigger] doc_paths(longer).contains(p)
                        implies doc_paths(prefix).insert(doc.path@).contains(p) by {
                        let k = choose|k: int| 0 <= k < count + 1 && (#[trigger] longer[k]).path@ == p;
                        if k < count {
                            assert(prefix[k] == longer[k]);
                        }
                    }
                    assert forall|p: Seq<char>| #[trigger] doc_paths(prefix).contains(p)
                        implies doc_paths(longer).contains(p) by {
                        let k = choose|k: int| 0 <= k < count && (#[trigger] prefix[k]).path@ == p;
                        assert(prefix[k] == longer[k]);
                    }
                    assert(longer[count as int].path@ == doc.path@);
                }
            }
            let env = match parse_envelope(doc.text.as_str()) {
                Ok(e) => e,
                Err(reason) => {
                    proof {
                        lemma_scan_pass_stopped(docs, rows0, next0, count + 1);
                        assert forall|k: int| 0 <= k < rows0.len() && !Set::<Seq<char>>::empty().contains(
                            #[trigger] rows0[k].path,
                        ) implies exists|j: int|
                            0 <= j < self@.len() && (#[trigger] self@[j]).path == rows0[k].path && self@[j].id
                                == rows0[k].id && (rows0[k].last_opened is Some ==> self@[j].last_opened
                                == rows0[k].last_opened) && (!doc_paths(prefix).contains(rows0[k].path)
                                ==> self@[j] == rows0[k]) by {
                            assert(self@[k].path == rows0[k].path);
                        }
                    }
                    return Err(ScanError::Malformed { path: doc.path.clone(), reason });
                },
            };
            let ghost before = self@;
            let ghost next_before = self.next_id();
            proof {
                assert(scanned_view(doc.path@, doc.file_name@, env@) == doc_record(docs[count as int]));
                lemma_upsert_paths(before, next_before, doc_record(docs[count as int]), true);
                lemma_scanned_upsert_keeps(before, next_before, doc_record(docs[count as int]));
            }
            match self.apply_envelope(doc.path.as_str(), doc.file_name.as_str(), &env) {
                Ok(_) => {},
                Err(e) => {
                    proof {
                        lemma_scan_pass_stopped(docs, rows0, next0, count + 1);
                    }
                    assert(next_before >= i64::MAX);
                    return Err(ScanError::Store(e));
                },
            }
            proof {
                assert(path_set(self@) =~= path_set(rows0).union(doc_paths(longer)));
                assert forall|k: int| 0 <= k < rows0.len() implies (#[trigger] self@[k]).path == rows0[k].path
                    && self@[k].id == rows0[k].id && (rows0[k].last_opened is Some ==> self@[k].last_opened
                    == rows0[k].last_opened) && (!doc_paths(longer).contains(rows0[k].path) ==> self@[k]
                    == rows0[k]) by {
                    assert(before[k].path == rows0[k].path);
                }
            }
            count = count + 1;
        }
        let ghost rows1 = self@;
        proof {
            assert(docs.take(docs.len() as int) =~= docs);
            assert forall|k: int| 0 <= k < rows0.len() && !Set::<Seq<char>>::empty().contains(
                #[trigger] rows0[k].path,
            ) implies exists|j: int|
                0 <= j < self@.len() && (#[trigger] self@[j]).path == rows0[k].path && self@[j].id
                    == rows0[k].id && (rows0[k].last_opened is Some ==> self@[j].last_opened
                    == rows0[k].last_opened) && (!doc_paths(docs).contains(rows0[k].path) ==> self@[j]
                    == rows0[k]) by {
                assert(self@[k].path == rows0[k].path);
            }
            assert(path_list(missing@.take(0)) =~= Set::empty());
            assert(missing@.take(0) =~= Seq::<String>::empty());
        }
        let mut i: usize = 0;
        while i < missing.len()
            invariant
                self.wf(),
                i <= missing@.len(),
                self@ == pruned(rows1, missing@.take(i as int)),
                path_set(self@) == path_set(rows0).union(doc_paths(docs)).difference(
                    path_list(missing@.take(i as int)),
                ),
                survives(rows0, self@, doc_paths(docs), path_list(missing@.take(i as int))),
            decreases missing@.len() - i,
        {
            let ghost before = self@;
            let ghost gone = path_list(missing@.take(i as int));
            proof {
                self.lemma_rows_well_formed();
                lemma_removed_paths(before, missing@[i as int]@);
                lemma_removed_survives(before, missing@[i as int]@, rows0, doc_paths(docs), gone);
                assert(missing@.take(i + 1).drop_last() =~= missing@.take(i as int));
                assert(path_list(missing@.take(i + 1)) =~= gone.insert(missing@[i as int]@)) by {
                    assert(missing@.take(i + 1)[i as int] == missing@[i as int]);
                    assert forall|p: Seq<char>| #[trigger] path_list(missing@.take(i + 1)).contains(p)
                        implies gone.insert(missing@[i as int]@).contains(p) by {
                        let k = choose|k: int| 0 <= k < i + 1 && (#[trigger] missing@.take(i + 1)[k])@ == p;
                        if k < i {
                            assert(missing@.take(i as int)[k] == missing@.take(i + 1)[k]);
                        }
                    }
                    assert forall|p: Seq<char>| #[trigger] gone.contains(p)
                        implies path_list(missing@.take(i + 1)).contains(p) by {
                        let k = choose|k: int| 0 <= k < i && (#[trigger] missing@.take(i as int)[k])@ == p;
                        assert(missing@.take(i as int)[k] == missing@.take(i + 1)[k]);
                    }
                }
            }
            self.remove_file(missing[i].as_str());
            proof {
                assert(path_set(self@) =~= path_set(rows0).union(doc_paths(docs)).difference(
                    path_list(missing@.take(i + 1)),
                ));
            }
            i = i + 1;
        }
        assert(missing@.take(missing@.len() as int) =~= missing@);
        Ok(count)
    }
}

} // verus!
