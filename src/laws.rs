//! Properties that relate several operations of the catalog.

use vstd::prelude::*;
use crate::order::{keep, lemma_keep_elements, lemma_keep_same, lemma_place, lemma_sorted_by_elements, place};
use crate::query::{
    admits, by_recency, capped, full_text, is_blank, key, key_le, more_recent, recency, recent_result,
    search_result, SearchRequest,
};
use crate::record::FileRecord;
use crate::text::{lemma_bytes_le_refl, lemma_bytes_le_total, lemma_bytes_le_trans, utf8};
use crate::envelope::json_of;
use crate::scan::{doc_paths, doc_record, reconciled, scan_pass, ScannedDocument};
use crate::store::{
    has_path, lemma_upsert_paths, path_index, path_set, touched, upsert_step, well_formed_rows,
};

verus! {

/// Upsert, then read: after an upsert of `rec` succeeds, the row of its path
/// is `rec` itself under the id that the upsert returned.
pub proof fn law_upsert_then_read(rows: Seq<FileRecord>, next: i64, rec: FileRecord)
    requires
        well_formed_rows(rows),
    ensures
        ({
            let (after, _next, r) = upsert_step(rows, next, rec, false);
            r is Ok ==> has_path(after, rec.path) && after[path_index(after, rec.path)] == rec.with_id(
                Some(r.unwrap()),
            )
        }),
{
    let (after, _next, r) = upsert_step(rows, next, rec, false);
    if r is Ok {
        let k = if has_path(rows, rec.path) {
            path_index(rows, rec.path)
        } else {
            rows.len() as int
        };
        assert(after[k].path == rec.path);
        let j = path_index(after, rec.path);
        if j != k {
            assert(after[j] == rows[j]);
            if has_path(rows, rec.path) {
                assert(rows[j].path != rows[k].path);
            } else {
                assert(has_path(rows, rec.path));
            }
        }
    }
}

/// Reconciling twice, the disk unchanged in between, leaves the same set of
/// paths: each pass adds the scanned documents (all of them on disk) and drops
/// the stored paths that are not on disk.
pub proof fn law_reconcile_idempotent(
    stored: Set<Seq<char>>,
    docs: Seq<ScannedDocument>,
    on_disk: Set<Seq<char>>,
)
    requires
        doc_paths(docs).subset_of(on_disk),
    ensures
        ({
            let first = reconciled(stored, doc_paths(docs), stored.difference(on_disk));
            let second = reconciled(first, doc_paths(docs), first.difference(on_disk));
            second == first
        }),
{
    let first = reconciled(stored, doc_paths(docs), stored.difference(on_disk));
    let second = reconciled(first, doc_paths(docs), first.difference(on_disk));
    assert(second =~= first);
}

/// Reconciling again what a successful reconciliation left: when every
/// document parses and every scanned path is already stored, the pass over the
/// documents runs to the end, uses no new id, and leaves the same paths.
pub proof fn law_second_pass_succeeds(rows: Seq<FileRecord>, next: i64, docs: Seq<ScannedDocument>)
    requires
        forall|k: int| 0 <= k < docs.len() ==> json_of((#[trigger] docs[k]).text@) is Some,
        doc_paths(docs).subset_of(path_set(rows)),
    ensures
        ({
            let (rows2, next2, stop) = scan_pass(docs, rows, next);
            stop is None && next2 == next && path_set(rows2) == path_set(rows)
        }),
    decreases docs.len(),
{
    if docs.len() > 0 {
        let init = docs.drop_last();
        assert forall|k: int| 0 <= k < init.len() implies json_of((#[trigger] init[k]).text@) is Some by {
            assert(init[k] == docs[k]);
        }
        assert(doc_paths(init).subset_of(path_set(rows))) by {
            assert forall|p: Seq<char>| #[trigger] doc_paths(init).contains(p) implies path_set(rows).contains(p) by {
                let k = choose|k: int| 0 <= k < init.len() && (#[trigger] init[k]).path@ == p;
                assert(docs[k] == init[k]);
                assert(doc_paths(docs).contains(p));
            }
        }
        law_second_pass_succeeds(rows, next, init);
        let (rows1, next1, stop1) = scan_pass(init, rows, next);
        let last = docs.last();
        assert(json_of(docs[docs.len() - 1].text@) is Some);
        assert(doc_paths(docs).contains(last.path@));
        assert(path_set(rows1).contains(last.path@));
        lemma_upsert_paths(rows1, next1, doc_record(last), true);
        assert(has_path(rows1, doc_record(last).path));
        assert(path_set(rows1).insert(last.path@) =~= path_set(rows1));
    }
}

/// Prune on delete: after a reconciliation that found the file of `path`
/// missing, no row has that path and the recent listing does not show it.
pub proof fn law_pruned_path_not_recent(
    rows: Seq<FileRecord>,
    stored: Set<Seq<char>>,
    docs: Seq<ScannedDocument>,
    missing: Set<Seq<char>>,
    path: Seq<char>,
    limit: i32,
)
    requires
        path_set(rows) == reconciled(stored, doc_paths(docs), missing),
        missing.contains(path),
    ensures
        !has_path(rows, path),
        forall|k: int|
            0 <= k < recent_result(rows, limit).len() ==> (#[trigger] recent_result(rows, limit)[k]).path
                != path,
{
    assert(!path_set(rows).contains(path));
    let pred = |r: FileRecord| r.last_opened is Some;
    let ks = keep(rows, pred);
    let sorted = by_recency(ks, true);
    lemma_keep_elements(rows, pred);
    lemma_sorted_by_elements(ks, recency(true));
    assert forall|k: int| 0 <= k < recent_result(rows, limit).len() implies (#[trigger] recent_result(
        rows,
        limit,
    )[k]).path != path by {
        let out = recent_result(rows, limit);
        assert(out[k] == sorted[k]);
        assert(ks.contains(sorted[k]));
        let i = choose|i: int| 0 <= i < ks.len() && ks[i] == sorted[k];
        assert(rows.contains(ks[i]));
        let j = choose|j: int| 0 <= j < rows.len() && rows[j] == ks[i];
        assert(rows[j].path == out[k].path);
        if out[k].path == path {
            assert(has_path(rows, path));
        }
    }
}

/// A `last_opened` recorded by a touch survives a later reconciliation of the
/// same document, whatever the document's own `modified` says.
pub proof fn law_touch_survives_reconcile(
    rows: Seq<FileRecord>,
    next: i64,
    path: Seq<char>,
    t: Seq<char>,
    rec: FileRecord,
)
    requires
        well_formed_rows(rows),
        has_path(rows, path),
        rec.path == path,
    ensures
        ({
            let after = upsert_step(touched(rows, path, t), next, rec, true).0;
            has_path(after, path) && after[path_index(after, path)].last_opened == Some(t)
        }),
{
    let k = path_index(rows, path);
    let mid = touched(rows, path, t);
    assert(mid[k].path == path);
    assert(has_path(mid, path));
    let k2 = path_index(mid, path);
    if k2 != k {
        assert(mid[k2] == rows[k2]);
        assert(rows[k2].path != rows[k].path);
    }
    let after = upsert_step(mid, next, rec, true).0;
    assert(after[k].path == path);
    let j = path_index(after, path);
    if j != k {
        assert(after[j] == mid[j]);
        assert(mid[j] == rows[j]);
        assert(rows[j].path != rows[k].path);
    }
}

/// A query of white space alone selects exactly what no query selects, under
/// the same dates and limit.
pub proof fn law_blank_query(rows: Seq<FileRecord>, req: SearchRequest)
    requires
        req.query is Some,
        is_blank(req.query.unwrap()),
    ensures
        search_result(rows, req) == search_result(rows, SearchRequest { query: None, ..req }),
{
    let plain = SearchRequest { query: None, ..req };
    assert(!full_text(req));
    assert(!full_text(plain));
    lemma_keep_same(rows, |r: FileRecord| admits(req, r), |r: FileRecord| admits(plain, r));
}

/// Each record is at least as recent as every one after it.
pub open spec fn recency_ordered(s: Seq<FileRecord>, by_opened: bool) -> bool {
    forall|i: int, j: int|
        0 <= i < j < s.len() ==> key_le(key(#[trigger] s[j], by_opened), key(#[trigger] s[i], by_opened))
}

proof fn lemma_key_le_refl(a: Option<Seq<char>>)
    ensures
        key_le(a, a),
{
    if let Some(x) = a {
        lemma_bytes_le_refl(utf8(x));
    }
}

proof fn lemma_key_le_total(a: Option<Seq<char>>, b: Option<Seq<char>>)
    ensures
        key_le(a, b) || key_le(b, a),
{
    if let (Some(x), Some(y)) = (a, b) {
        lemma_bytes_le_total(utf8(x), utf8(y));
    }
}

proof fn lemma_key_le_trans(a: Option<Seq<char>>, b: Option<Seq<char>>, c: Option<Seq<char>>)
    requires
        key_le(a, b),
        key_le(b, c),
    ensures
        key_le(a, c),
{
    if let (Some(x), Some(y), Some(z)) = (a, b, c) {
        lemma_bytes_le_trans(utf8(x), utf8(y), utf8(z));
    }
}

proof fn lemma_by_recency_ordered(s: Seq<FileRecord>, by_opened: bool)
    ensures
        recency_ordered(by_recency(s, by_opened), by_opened),
    decreases s.len(),
{
    if s.len() > 0 {
        let prev = by_recency(s.drop_last(), by_opened);
        lemma_by_recency_ordered(s.drop_last(), by_opened);
        let x = s.last();
        let p = place(prev, x, recency(by_opened));
        lemma_place(prev, x, recency(by_opened));
        let out = by_recency(s, by_opened);
        assert(out == prev.insert(p, x));
        assert forall|i: int, j: int| 0 <= i < j < out.len() implies key_le(
            key(#[trigger] out[j], by_opened),
            key(#[trigger] out[i], by_opened),
        ) by {
            if j < p {
                assert(out[i] == prev[i] && out[j] == prev[j]);
            } else if j == p {
                assert(out[i] == prev[i]);
                assert(!more_recent(x, prev[i], by_opened));
            } else if i < p {
                assert(out[i] == prev[i] && out[j] == prev[j - 1]);
            } else if i == p {
                assert(out[j] == prev[j - 1]);
                lemma_key_le_total(key(x, by_opened), key(prev[p], by_opened));
                if j - 1 == p {
                    lemma_key_le_refl(key(prev[p], by_opened));
                } else {
                    assert(key_le(key(prev[j - 1], by_opened), key(prev[p], by_opened)));
                }
                lemma_key_le_trans(key(prev[j - 1], by_opened), key(prev[p], by_opened), key(x, by_opened));
            } else {
                assert(out[i] == prev[i - 1] && out[j] == prev[j - 1]);
            }
        }
    }
}

proof fn lemma_capped_ordered(s: Seq<FileRecord>, limit: i32, by_opened: bool)
    requires
        recency_ordered(s, by_opened),
    ensures
        recency_ordered(capped(s, limit), by_opened),
{
    let c = capped(s, limit);
    assert forall|i: int, j: int| 0 <= i < j < c.len() implies key_le(
        key(#[trigger] c[j], by_opened),
        key(#[trigger] c[i], by_opened),
    ) by {
        assert(c[i] == s[i] && c[j] == s[j]);
    }
}

/// Results come in order of recency: a search by `modified`, the recent
/// listing by `last_opened`, each record at least as recent as those after it.
pub proof fn law_results_in_recency_order(rows: Seq<FileRecord>, req: SearchRequest, limit: i32)
    ensures
        recency_ordered(search_result(rows, req), false),
        recency_ordered(recent_result(rows, limit), true),
{
    let found = keep(rows, |r: FileRecord| admits(req, r));
    lemma_by_recency_ordered(found, false);
    lemma_capped_ordered(by_recency(found, false), crate::query::effective_limit(req), false);
    let opened = keep(rows, |r: FileRecord| r.last_opened is Some);
    lemma_by_recency_ordered(opened, true);
    lemma_capped_ordered(by_recency(opened, true), limit, true);
}

/// A search returns stored records only, each admitted by the request, and
/// never more than the request's limit when that limit is not negative.
pub proof fn law_search_returns_admitted_rows(rows: Seq<FileRecord>, req: SearchRequest)
    ensures
        forall|k: int|
            0 <= k < search_result(rows, req).len() ==> rows.contains(#[trigger] search_result(rows, req)[k])
                && admits(req, search_result(rows, req)[k]),
        crate::query::effective_limit(req) >= 0 ==> search_result(rows, req).len()
            <= crate::query::effective_limit(req),
{
    let pred = |r: FileRecord| admits(req, r);
    let found = keep(rows, pred);
    let sorted = by_recency(found, false);
    lemma_keep_elements(rows, pred);
    lemma_sorted_by_elements(found, recency(false));
    assert forall|k: int| 0 <= k < search_result(rows, req).len() implies rows.contains(
        #[trigger] search_result(rows, req)[k],
    ) && admits(req, search_result(rows, req)[k]) by {
        let out = search_result(rows, req);
        assert(out[k] == sorted[k]);
        assert(found.contains(sorted[k]));
        let i = choose|i: int| 0 <= i < found.len() && found[i] == sorted[k];
        assert(rows.contains(found[i]));
        assert(pred(found[i]));
    }
}

} // verus!
