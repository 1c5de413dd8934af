use ssce_library::envelope::{as_text, envelope_from, join_keywords, member};
use ssce_library::Json;
use ssce_library::{parse_envelope, LibraryIndex, ScanError, ScannedDocument, SearchParams};

fn doc(path: &str, text: &str) -> ScannedDocument {
    let file_name = path.rsplit('/').next().unwrap_or("").to_string();
    ScannedDocument { path: path.to_string(), file_name, text: text.to_string() }
}

fn envelope(title: &str, modified: &str) -> String {
    format!(
        "{{\"thumbnail\":\"data:image/png;base64,AA\",\"keywords\":[\"alpha\",\"beta\"],\"frontMatter\":{{\"title\":\"{}\",\"summary\":\"A summary\",\"modified\":\"{}\"}},\"snapshots\":[{{}},{{}}]}}",
        title, modified
    )
}

fn sorted_paths(index: &LibraryIndex) -> Vec<String> {
    let mut p = index.paths();
    p.sort();
    p
}

#[test]
fn envelope_fields_are_read() {
    let env = parse_envelope(&envelope("Plan", "2024-04-01")).unwrap();
    assert_eq!(env.thumbnail.as_deref(), Some("data:image/png;base64,AA"));
    assert_eq!(env.keywords, Some(vec!["alpha".to_string(), "beta".to_string()]));
    assert_eq!(env.title.as_deref(), Some("Plan"));
    assert_eq!(env.summary.as_deref(), Some("A summary"));
    assert_eq!(env.modified.as_deref(), Some("2024-04-01"));
    assert_eq!(env.snapshots, 2);
}

#[test]
fn envelope_missing_or_mistyped_members_are_absent() {
    let env = parse_envelope("{\"keywords\":[1,\"k\",null],\"frontMatter\":{\"title\":7},\"snapshots\":\"x\"}").unwrap();
    assert_eq!(env.thumbnail, None);
    assert_eq!(env.keywords, Some(vec!["k".to_string()]));
    assert_eq!(env.title, None);
    assert_eq!(env.modified, None);
    assert_eq!(env.snapshots, 0);
    let empty = parse_envelope("[1, 2]").unwrap();
    assert_eq!(empty.keywords, None);
    assert_eq!(empty.snapshots, 0);
}

#[test]
fn malformed_envelope_is_rejected() {
    assert!(parse_envelope("{not json").is_err());
    assert!(parse_envelope("").is_err());
}

#[test]
fn file_name_comes_from_the_scan() {
    let mut index = LibraryIndex::new();
    let d = ScannedDocument { path: "/lib/a\\b.ssce".to_string(), file_name: "a\\b.ssce".to_string(), text: "{}".to_string() };
    index.rebuild_from_library(&"/lib".to_string(), true, &vec![d], &vec![]).unwrap();
    assert_eq!(index.lookup("/lib/a\\b.ssce").unwrap().filename, "a\\b.ssce");
}

#[test]
fn json_members_are_looked_up_by_key() {
    use_json();
}

#[test]
fn rebuild_indexes_documents() {
    let mut index = LibraryIndex::new();
    let docs = vec![doc("/lib/a.ssce", &envelope("Quarterly Report", "2024-01-01")), doc("/lib/sub/b.ssce", "{}")];
    let n = index.rebuild_from_library(&"/lib".to_string(), true, &docs, &vec![]).unwrap();
    assert_eq!(n, 2);
    let a = index.lookup("/lib/a.ssce").unwrap();
    assert_eq!(a.filename, "a.ssce");
    assert_eq!(a.keywords.as_deref(), Some("alpha beta"));
    assert_eq!(a.snapshot_count, 2);
    assert_eq!(a.last_opened.as_deref(), Some("2024-01-01"));
    let b = index.lookup("/lib/sub/b.ssce").unwrap();
    assert_eq!(b.keywords, None);
    assert_eq!(b.last_opened, None);
    assert_eq!(b.snapshot_count, 0);
    let found = index.search_files(&SearchParams { query: Some("quart".into()), from_date: None, to_date: None, limit: None });
    assert_eq!(found.len(), 1);
    // only the seeded record shows among the recent ones
    assert_eq!(index.get_recent_files(10).len(), 1);
}

#[test]
fn empty_keyword_list_is_absent() {
    let mut index = LibraryIndex::new();
    let docs = vec![doc("/lib/e.ssce", "{\"keywords\":[]}")];
    index.rebuild_from_library(&"/lib".to_string(), true, &docs, &vec![]).unwrap();
    assert_eq!(index.lookup("/lib/e.ssce").unwrap().keywords, None);
}

#[test]
fn rebuild_twice_is_idempotent() {
    let mut index = LibraryIndex::new();
    let docs = vec![doc("/lib/a.ssce", &envelope("A", "2024-01-01")), doc("/lib/b.ssce", &envelope("B", "2024-02-01"))];
    let first = index.rebuild_from_library(&"/lib".to_string(), true, &docs, &vec![]).unwrap();
    let after_first = sorted_paths(&index);
    let second = index.rebuild_from_library(&"/lib".to_string(), true, &docs, &vec![]).unwrap();
    assert_eq!(first, second);
    assert_eq!(after_first, sorted_paths(&index));
    assert_eq!(index.lookup("/lib/a.ssce").unwrap().id, Some(1));
}

#[test]
fn rebuild_prunes_deleted_files() {
    let mut index = LibraryIndex::new();
    let docs = vec![doc("/lib/a.ssce", &envelope("A", "2024-01-01")), doc("/lib/b.ssce", &envelope("B", "2024-02-01"))];
    index.rebuild_from_library(&"/lib".to_string(), true, &docs, &vec![]).unwrap();
    assert_eq!(index.get_recent_files(10).len(), 2);
    // b.ssce was deleted from disk: the scan no longer finds it, and it is missing
    let docs = vec![doc("/lib/a.ssce", &envelope("A", "2024-01-01"))];
    let n = index.rebuild_from_library(&"/lib".to_string(), true, &docs, &vec!["/lib/b.ssce".to_string()]).unwrap();
    assert_eq!(n, 1);
    assert!(index.lookup("/lib/b.ssce").is_none());
    let recent: Vec<_> = index.get_recent_files(10).into_iter().map(|f| f.path).collect();
    assert_eq!(recent, vec!["/lib/a.ssce"]);
}

#[test]
fn rebuild_keeps_recorded_last_opened() {
    let mut index = LibraryIndex::new();
    let docs = vec![doc("/lib/a.ssce", &envelope("A", "2024-01-01"))];
    index.rebuild_from_library(&"/lib".to_string(), true, &docs, &vec![]).unwrap();
    index.touch_last_opened("/lib/a.ssce", "2024-08-01".to_string());
    let docs = vec![doc("/lib/a.ssce", &envelope("A2", "2024-03-01"))];
    index.rebuild_from_library(&"/lib".to_string(), true, &docs, &vec![]).unwrap();
    let a = index.lookup("/lib/a.ssce").unwrap();
    assert_eq!(a.last_opened.as_deref(), Some("2024-08-01"));
    assert_eq!(a.modified.as_deref(), Some("2024-03-01"));
    assert_eq!(a.title.as_deref(), Some("A2"));
}

#[test]
fn rebuild_fails_on_missing_root() {
    let mut index = LibraryIndex::new();
    let docs = vec![doc("/lib/a.ssce", "{}")];
    match index.rebuild_from_library(&"/nowhere".to_string(), false, &docs, &vec![]) {
        Err(ScanError::RootNotFound(p)) => assert_eq!(p, "/nowhere"),
        other => panic!("unexpected {:?}", other),
    }
    assert_eq!(index.len(), 0);
}

#[test]
fn rebuild_aborts_on_malformed_document() {
    let mut index = LibraryIndex::new();
    index.upsert_file(ssce_library::LibraryFile {
        id: None,
        path: "/gone.ssce".into(),
        filename: "gone.ssce".into(),
        thumbnail: None,
        title: None,
        summary: None,
        keywords: None,
        modified: None,
        last_opened: None,
        snapshot_count: 0,
    })
    .unwrap();
    let docs = vec![doc("/lib/a.ssce", "{}"), doc("/lib/bad.ssce", "{oops"), doc("/lib/c.ssce", "{}")];
    match index.rebuild_from_library(&"/lib".to_string(), true, &docs, &vec!["/gone.ssce".to_string()]) {
        Err(ScanError::Malformed { path, reason }) => {
            assert_eq!(path, "/lib/bad.ssce");
            assert!(!reason.is_empty());
        }
        other => panic!("unexpected {:?}", other),
    }
    // what was written before the bad document stays; nothing was pruned
    assert!(index.lookup("/lib/a.ssce").is_some());
    assert!(index.lookup("/lib/c.ssce").is_none());
    assert!(index.lookup("/gone.ssce").is_some());
}

#[test]
fn check_json_accepts_only_well_formed_text() {
    assert!(ssce_library::envelope::check_json("{\"paths\":{}}").is_ok());
    assert!(ssce_library::envelope::check_json("[1, 2, 3]").is_ok());
    assert!(ssce_library::envelope::check_json("{\"a\":").is_err());
}

#[test]
fn rebuild_reports_store_refusal() {
    let last = ssce_library::LibraryFile {
        id: Some(i64::MAX - 1),
        path: "/lib/old.ssce".into(),
        filename: "old.ssce".into(),
        thumbnail: None,
        title: None,
        summary: None,
        keywords: None,
        modified: None,
        last_opened: None,
        snapshot_count: 0,
    };
    let mut index = LibraryIndex::restore(&vec![last]).unwrap();
    let docs = vec![doc("/lib/new.ssce", "{}")];
    match index.rebuild_from_library(&"/lib".to_string(), true, &docs, &vec![]) {
        Err(ScanError::Store(e)) => assert_eq!(e, ssce_library::StoreError::IdsExhausted),
        other => panic!("unexpected {:?}", other),
    }
}

#[test]
fn apply_envelope_upserts_derived_record() {
    let mut index = LibraryIndex::new();
    let env = parse_envelope(&envelope("T", "2024-01-05")).unwrap();
    assert_eq!(index.apply_envelope("/l/x.ssce", "x.ssce", &env), Ok(1));
    let x = index.lookup("/l/x.ssce").unwrap();
    assert_eq!(x.filename, "x.ssce");
    assert_eq!(x.title.as_deref(), Some("T"));
    let rec = ssce_library::envelope::scanned_record("/l/x.ssce", "x.ssce", &env);
    assert_eq!(rec.id, None);
    assert_eq!(rec.keywords.as_deref(), Some("alpha beta"));
    assert_eq!(rec.last_opened.as_deref(), Some("2024-01-05"));
}

#[test]
fn keywords_join_with_single_spaces() {
    assert_eq!(join_keywords(&Some(vec!["a".into(), "b c".into(), "d".into()])).as_deref(), Some("a b c d"));
    assert_eq!(join_keywords(&Some(vec!["solo".into()])).as_deref(), Some("solo"));
    assert_eq!(join_keywords(&Some(vec![])), None);
    assert_eq!(join_keywords(&None), None);
}

fn use_json() {
    let mut fields = Vec::new();
    fields.push(("a".to_string(), Json::Text("x".to_string())));
    fields.push(("b".to_string(), Json::List(vec![Json::Null, Json::Text("y".to_string())])));
    let obj = Json::Object(fields);
    assert_eq!(as_text(member(&obj, "a")).as_deref(), Some("x"));
    assert!(member(&obj, "c").is_none());
    assert!(member(&Json::Null, "a").is_none());
    assert_eq!(as_text(member(&obj, "b")), None);
    let env = envelope_from(&obj);
    assert_eq!(env.thumbnail, None);
    assert_eq!(env.snapshots, 0);
}
