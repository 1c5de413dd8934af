use ssce_library::{LibraryFile, LibraryIndex, SearchParams, StoreError};

fn record(path: &str, title: Option<&str>, modified: Option<&str>, last_opened: Option<&str>) -> LibraryFile {
    let filename = path.rsplit('/').next().unwrap_or("").to_string();
    LibraryFile {
        id: None,
        path: path.to_string(),
        filename,
        thumbnail: None,
        title: title.map(String::from),
        summary: None,
        keywords: None,
        modified: modified.map(String::from),
        last_opened: last_opened.map(String::from),
        snapshot_count: 0,
    }
}

fn search(index: &LibraryIndex, query: Option<&str>, from: Option<&str>, to: Option<&str>, limit: Option<i32>) -> Vec<LibraryFile> {
    index.search_files(&SearchParams {
        query: query.map(String::from),
        from_date: from.map(String::from),
        to_date: to.map(String::from),
        limit,
    })
}

fn paths(files: &[LibraryFile]) -> Vec<String> {
    files.iter().map(|f| f.path.clone()).collect()
}

#[test]
fn upsert_then_lookup_returns_the_record() {
    let mut index = LibraryIndex::new();
    let mut r = record("/lib/a.ssce", Some("Alpha"), Some("2024-01-01"), None);
    r.thumbnail = Some("data:image/png;base64,AAAA".to_string());
    r.summary = Some("first".to_string());
    r.keywords = Some("x y".to_string());
    r.snapshot_count = 3;
    let id = index.upsert_file(r.clone()).unwrap();
    assert_eq!(id, 1);
    let got = index.lookup("/lib/a.ssce").unwrap();
    assert_eq!(got.id, Some(1));
    assert_eq!(got.path, r.path);
    assert_eq!(got.filename, "a.ssce");
    assert_eq!(got.thumbnail, r.thumbnail);
    assert_eq!(got.title, r.title);
    assert_eq!(got.summary, r.summary);
    assert_eq!(got.keywords, r.keywords);
    assert_eq!(got.modified, r.modified);
    assert_eq!(got.last_opened, None);
    assert_eq!(got.snapshot_count, 3);
    assert!(index.lookup("/lib/none.ssce").is_none());
}

#[test]
fn upsert_existing_path_replaces_fields_and_keeps_id() {
    let mut index = LibraryIndex::new();
    assert_eq!(index.upsert_file(record("/a.ssce", Some("One"), None, Some("2024-05-05"))), Ok(1));
    assert_eq!(index.upsert_file(record("/b.ssce", Some("Two"), None, None)), Ok(2));
    assert_eq!(index.upsert_file(record("/a.ssce", Some("Uno"), Some("2024-02-02"), None)), Ok(1));
    assert_eq!(index.len(), 2);
    let a = index.lookup("/a.ssce").unwrap();
    assert_eq!(a.id, Some(1));
    assert_eq!(a.title.as_deref(), Some("Uno"));
    assert_eq!(a.modified.as_deref(), Some("2024-02-02"));
    // an explicit upsert replaces every field, last_opened included
    assert_eq!(a.last_opened, None);
}

#[test]
fn ids_are_not_reused_after_delete() {
    let mut index = LibraryIndex::new();
    assert_eq!(index.upsert_file(record("/a.ssce", None, None, None)), Ok(1));
    assert_eq!(index.upsert_file(record("/b.ssce", None, None, None)), Ok(2));
    index.remove_file("/b.ssce");
    assert_eq!(index.upsert_file(record("/c.ssce", None, None, None)), Ok(3));
}

#[test]
fn remove_file_deletes_row_and_absent_path_is_noop() {
    let mut index = LibraryIndex::new();
    index.upsert_file(record("/a.ssce", Some("Alpha"), None, None)).unwrap();
    index.upsert_file(record("/b.ssce", Some("Beta"), None, None)).unwrap();
    index.remove_file("/nope.ssce");
    assert_eq!(index.len(), 2);
    index.remove_file("/a.ssce");
    assert_eq!(index.len(), 1);
    assert!(index.lookup("/a.ssce").is_none());
    assert!(search(&index, Some("alpha"), None, None, None).is_empty());
    assert_eq!(paths(&search(&index, Some("beta"), None, None, None)), vec!["/b.ssce"]);
}

#[test]
fn touch_updates_only_last_opened() {
    let mut index = LibraryIndex::new();
    index.upsert_file(record("/a.ssce", Some("Alpha"), Some("2024-01-01"), None)).unwrap();
    index.touch_last_opened("/a.ssce", "2024-09-09T10:00:00".to_string());
    let a = index.lookup("/a.ssce").unwrap();
    assert_eq!(a.last_opened.as_deref(), Some("2024-09-09T10:00:00"));
    assert_eq!(a.modified.as_deref(), Some("2024-01-01"));
    assert_eq!(a.title.as_deref(), Some("Alpha"));
    index.touch_last_opened("/absent.ssce", "2024-09-09".to_string());
    assert_eq!(index.len(), 1);
    assert!(index.lookup("/absent.ssce").is_none());
}

#[test]
fn prefix_search_finds_quarterly_report() {
    let mut index = LibraryIndex::new();
    index.upsert_file(record("/docs/q.ssce", Some("Quarterly Report"), Some("2024-03-01"), None)).unwrap();
    assert_eq!(paths(&search(&index, Some("quart"), None, None, None)), vec!["/docs/q.ssce"]);
    assert!(search(&index, Some("zrep"), None, None, None).is_empty());
    // a token matches the start of any word, not its middle
    assert_eq!(search(&index, Some("rep"), None, None, None).len(), 1);
    assert!(search(&index, Some("port"), None, None, None).is_empty());
}

#[test]
fn all_tokens_must_match_in_some_field() {
    let mut index = LibraryIndex::new();
    let mut a = record("/a.ssce", Some("Quarterly Report"), Some("2024-01-01"), None);
    a.keywords = Some("finance budget".to_string());
    let mut b = record("/b.ssce", Some("Quarterly Plan"), Some("2024-01-02"), None);
    b.summary = Some("Roadmap for the team".to_string());
    index.upsert_file(a).unwrap();
    index.upsert_file(b).unwrap();
    assert_eq!(paths(&search(&index, Some("quart budg"), None, None, None)), vec!["/a.ssce"]);
    assert_eq!(paths(&search(&index, Some("  QUART   road "), None, None, None)), vec!["/b.ssce"]);
    assert!(search(&index, Some("budget roadmap"), None, None, None).is_empty());
    // the file name is searchable too
    assert_eq!(paths(&search(&index, Some("b.ss"), None, None, None)), vec!["/b.ssce"]);
}

#[test]
fn search_reflects_updated_fields_only() {
    let mut index = LibraryIndex::new();
    index.upsert_file(record("/a.ssce", Some("Old Name"), None, None)).unwrap();
    index.upsert_file(record("/a.ssce", Some("Fresh Title"), None, None)).unwrap();
    assert!(search(&index, Some("old"), None, None, None).is_empty());
    assert_eq!(search(&index, Some("fresh"), None, None, None).len(), 1);
}

#[test]
fn date_filter_excludes_earlier_record() {
    let mut index = LibraryIndex::new();
    index.upsert_file(record("/a.ssce", Some("A"), Some("2024-01-01"), None)).unwrap();
    index.upsert_file(record("/b.ssce", Some("B"), Some("2024-07-01"), None)).unwrap();
    index.upsert_file(record("/c.ssce", Some("C"), None, None)).unwrap();
    assert_eq!(paths(&search(&index, None, Some("2024-06-01"), None, None)), vec!["/b.ssce"]);
    assert_eq!(paths(&search(&index, None, None, Some("2024-06-01"), None)), vec!["/a.ssce"]);
    assert_eq!(paths(&search(&index, None, Some("2024-01-01"), Some("2024-07-01"), None)), vec!["/b.ssce", "/a.ssce"]);
}

#[test]
fn blank_query_degrades_to_plain_listing() {
    let mut index = LibraryIndex::new();
    index.upsert_file(record("/a.ssce", Some("Alpha"), Some("2024-01-01"), None)).unwrap();
    index.upsert_file(record("/b.ssce", Some("Beta"), Some("2024-02-01"), None)).unwrap();
    let blank = search(&index, Some("  "), Some("2024-01-15"), None, Some(10));
    let none = search(&index, None, Some("2024-01-15"), None, Some(10));
    assert_eq!(paths(&blank), paths(&none));
    assert_eq!(paths(&none), vec!["/b.ssce"]);
    assert_eq!(paths(&search(&index, Some(""), None, None, None)), vec!["/b.ssce", "/a.ssce"]);
}

#[test]
fn end_to_end_date_filtered_listing() {
    let mut index = LibraryIndex::new();
    index.upsert_file(record("/one.ssce", Some("One"), Some("2024-01-01"), None)).unwrap();
    index.upsert_file(record("/two.ssce", Some("Two"), Some("2024-02-01"), None)).unwrap();
    index.upsert_file(record("/three.ssce", Some("Three"), Some("2024-03-01"), None)).unwrap();
    let got = search(&index, None, Some("2024-02-01"), None, None);
    let modified: Vec<_> = got.iter().map(|f| f.modified.clone().unwrap()).collect();
    assert_eq!(modified, vec!["2024-03-01", "2024-02-01"]);
}

#[test]
fn listing_orders_by_modified_and_caps_at_limit() {
    let mut index = LibraryIndex::new();
    for i in 0..60 {
        let m = format!("2024-01-{:02}", (i % 28) + 1);
        index.upsert_file(record(&format!("/f{}.ssce", i), None, Some(&m), None)).unwrap();
    }
    index.upsert_file(record("/undated.ssce", None, None, None)).unwrap();
    let default = search(&index, None, None, None, None);
    assert_eq!(default.len(), 50);
    for w in default.windows(2) {
        assert!(w[0].modified >= w[1].modified);
    }
    assert_eq!(search(&index, None, None, None, Some(3)).len(), 3);
    assert_eq!(search(&index, None, None, None, Some(0)).len(), 0);
    let all = search(&index, None, None, None, Some(-1));
    assert_eq!(all.len(), 61);
    // a record without `modified` sorts last
    assert_eq!(all[60].path, "/undated.ssce");
}

#[test]
fn equal_keys_keep_insertion_order() {
    let mut index = LibraryIndex::new();
    index.upsert_file(record("/x.ssce", None, Some("2024-01-01"), None)).unwrap();
    index.upsert_file(record("/y.ssce", None, Some("2024-01-01"), None)).unwrap();
    index.upsert_file(record("/z.ssce", None, Some("2024-01-02"), None)).unwrap();
    assert_eq!(paths(&search(&index, None, None, None, None)), vec!["/z.ssce", "/x.ssce", "/y.ssce"]);
}

#[test]
fn recent_files_lists_opened_records_newest_first() {
    let mut index = LibraryIndex::new();
    index.upsert_file(record("/a.ssce", None, None, Some("2024-01-03"))).unwrap();
    index.upsert_file(record("/b.ssce", None, None, None)).unwrap();
    index.upsert_file(record("/c.ssce", None, None, Some("2024-05-01"))).unwrap();
    index.upsert_file(record("/d.ssce", None, None, Some("2024-02-01"))).unwrap();
    assert_eq!(paths(&index.get_recent_files(10)), vec!["/c.ssce", "/d.ssce", "/a.ssce"]);
    assert_eq!(paths(&index.get_recent_files(2)), vec!["/c.ssce", "/d.ssce"]);
    index.touch_last_opened("/b.ssce", "2024-06-01".to_string());
    assert_eq!(paths(&index.get_recent_files(1)), vec!["/b.ssce"]);
    assert_eq!(index.get_recent_files(-1).len(), 4);
}

#[test]
fn paths_and_records_follow_storage_order() {
    let mut index = LibraryIndex::new();
    index.upsert_file(record("/a.ssce", None, None, None)).unwrap();
    index.upsert_file(record("/b.ssce", None, None, None)).unwrap();
    assert_eq!(index.paths(), vec!["/a.ssce".to_string(), "/b.ssce".to_string()]);
    let rs = index.records();
    assert_eq!(rs.len(), 2);
    assert_eq!(rs[1].id, Some(2));
}

#[test]
fn prune_missing_drops_unflagged_rows() {
    let mut index = LibraryIndex::new();
    index.upsert_file(record("/a.ssce", Some("Alpha"), None, None)).unwrap();
    index.upsert_file(record("/b.ssce", Some("Beta"), None, None)).unwrap();
    index.upsert_file(record("/c.ssce", Some("Gamma"), None, None)).unwrap();
    index.prune_missing(&vec![true, false, true]);
    assert_eq!(index.paths(), vec!["/a.ssce".to_string(), "/c.ssce".to_string()]);
    assert!(search(&index, Some("beta"), None, None, None).is_empty());
    assert_eq!(search(&index, Some("gamma"), None, None, None)[0].id, Some(3));
}

#[test]
fn store_error_is_comparable() {
    assert_eq!(StoreError::IdsExhausted, StoreError::IdsExhausted);
}

#[test]
fn restore_rebuilds_index_with_saved_ids() {
    let mut a = record("/a.ssce", Some("Alpha"), Some("2024-01-01"), None);
    a.id = Some(4);
    let mut b = record("/b.ssce", Some("Beta"), Some("2024-02-01"), None);
    b.id = Some(9);
    let mut index = LibraryIndex::restore(&vec![a.clone(), b.clone()]).unwrap();
    assert_eq!(index.len(), 2);
    assert_eq!(paths(&search(&index, Some("alp"), None, None, None)), vec!["/a.ssce"]);
    assert_eq!(index.upsert_file(record("/c.ssce", None, None, None)), Ok(10));
    assert!(LibraryIndex::restore(&vec![]).is_ok());
}

#[test]
fn restore_rejects_invalid_rows() {
    let mut a = record("/a.ssce", None, None, None);
    a.id = Some(2);
    let mut b = record("/b.ssce", None, None, None);
    b.id = Some(1);
    assert_eq!(LibraryIndex::restore(&vec![a.clone(), b.clone()]).err(), Some(StoreError::InvalidRows));
    let mut dup = record("/a.ssce", None, None, None);
    dup.id = Some(3);
    assert_eq!(LibraryIndex::restore(&vec![a.clone(), dup]).err(), Some(StoreError::InvalidRows));
    let none = record("/n.ssce", None, None, None);
    assert_eq!(LibraryIndex::restore(&vec![none]).err(), Some(StoreError::InvalidRows));
    let mut zero = record("/z.ssce", None, None, None);
    zero.id = Some(0);
    assert_eq!(LibraryIndex::restore(&vec![zero]).err(), Some(StoreError::InvalidRows));
}

#[test]
fn upsert_of_new_path_fails_when_ids_run_out() {
    let mut last = record("/last.ssce", None, None, None);
    last.id = Some(i64::MAX - 1);
    let mut index = LibraryIndex::restore(&vec![last]).unwrap();
    assert_eq!(index.upsert_file(record("/new.ssce", None, None, None)), Err(StoreError::IdsExhausted));
    assert_eq!(index.len(), 1);
    // an existing path still updates
    assert_eq!(index.upsert_file(record("/last.ssce", Some("T"), None, None)), Ok(i64::MAX - 1));
}

#[test]
fn shadow_entry_mirrors_its_row() {
    let mut index = LibraryIndex::new();
    let mut r = record("/d/a.ssce", Some("Title"), None, None);
    r.summary = Some("Sum".to_string());
    index.upsert_file(r).unwrap();
    let e = index.shadow(0);
    assert_eq!(e.id, 1);
    assert_eq!(e.filename, "a.ssce".chars().collect::<Vec<_>>());
    assert_eq!(e.title, "title".chars().collect::<Vec<_>>());
    assert_eq!(e.summary, "sum".chars().collect::<Vec<_>>());
    assert!(e.keywords.is_empty());
    let mut r2 = record("/d/a.ssce", Some("Other"), None, None);
    r2.keywords = Some("k1 k2".to_string());
    index.upsert_file(r2).unwrap();
    let e = index.shadow(0);
    assert_eq!(e.title, "other".chars().collect::<Vec<_>>());
    assert!(e.summary.is_empty());
    assert_eq!(e.keywords, "k1 k2".chars().collect::<Vec<_>>());
    assert_eq!(index.row(0).title.as_deref(), Some("Other"));
}

#[test]
fn shadow_entry_is_derived_from_a_record() {
    let r = record("/x/Y.ssce", None, None, None);
    let e = ssce_library::store::shadow_entry(7, &r);
    assert_eq!(e.id, 7);
    assert_eq!(e.filename, vec!['y', '.', 's', 's', 'c', 'e']);
    assert!(e.title.is_empty());
}

#[test]
fn search_folds_case_beyond_ascii() {
    let mut index = LibraryIndex::new();
    index.upsert_file(record("/e.ssce", Some("Économie Générale"), None, None)).unwrap();
    assert_eq!(search(&index, Some("écon"), None, None, None).len(), 1);
    assert_eq!(search(&index, Some("GÉNÉ"), None, None, None).len(), 1);
    assert!(search(&index, Some("econ"), None, None, None).is_empty());
}
