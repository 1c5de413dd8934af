use ssce_library::files::{
    autosave_listing, browse_listing, data_uri_payload, decode_image_data, ends_with, expand_home, file_url,
    image_data_uri, mime_type, starts_with, AutosaveEntry, FileEntry,
};

fn entry(name: &str, is_dir: bool) -> FileEntry {
    FileEntry { name: name.to_string(), is_dir, size: if is_dir { 0 } else { 10 } }
}

fn names(v: &[FileEntry]) -> Vec<&str> {
    v.iter().map(|e| e.name.as_str()).collect()
}

#[test]
fn image_data_uri_encodes_bytes() {
    assert_eq!(image_data_uri("PNG", b"hi"), "data:image/png;base64,aGk=");
    assert_eq!(image_data_uri("jpeg", b"abc"), "data:image/jpeg;base64,YWJj");
    assert_eq!(image_data_uri("txt", b""), "data:application/octet-stream;base64,");
}

#[test]
fn mime_types_by_extension() {
    assert_eq!(mime_type("jpg"), "image/jpeg");
    assert_eq!(mime_type("Gif"), "image/gif");
    assert_eq!(mime_type("webp"), "image/webp");
    assert_eq!(mime_type("BMP"), "image/bmp");
    assert_eq!(mime_type(""), "application/octet-stream");
    assert_eq!(mime_type("pngx"), "application/octet-stream");
}

#[test]
fn data_uri_payload_follows_first_comma() {
    assert_eq!(data_uri_payload("data:image/png;base64,aGk="), "aGk=");
    assert_eq!(data_uri_payload("aGk="), "aGk=");
    assert_eq!(data_uri_payload("a,b,c"), "b,c");
}

#[test]
fn decode_image_data_strips_prefix_and_decodes() {
    assert_eq!(decode_image_data("data:image/png;base64,aGk=").unwrap(), b"hi".to_vec());
    assert_eq!(decode_image_data("YWJj").unwrap(), b"abc".to_vec());
    assert!(decode_image_data("data:image/png;base64,!!!").is_err());
}

#[test]
fn file_urls() {
    assert_eq!(file_url("/tmp/x.html"), "file:///tmp/x.html");
    assert_eq!(file_url("file:///tmp/x.html"), "file:///tmp/x.html");
}

#[test]
fn home_expansion() {
    assert_eq!(expand_home("~/Pictures", "/home/u").as_deref(), Some("/home/u/Pictures"));
    assert_eq!(expand_home("/abs/path", "/home/u"), None);
    assert_eq!(expand_home("~user/x", "/home/u"), None);
}

#[test]
fn text_helpers() {
    assert!(starts_with("hello", "he"));
    assert!(!starts_with("he", "hello"));
    assert!(ends_with("Report.ssce", ".ssce"));
    assert!(!ends_with("Report.SSCE", ".ssce"));
    assert!(!ends_with("ssce", ".ssce"));
}

#[test]
fn browse_listing_filters_and_orders() {
    let entries = vec![
        entry("zeta.ssce", false),
        entry(".hidden", true),
        entry("Beta", true),
        entry("photo.PNG", false),
        entry("alpha.ssce", false),
        entry("notes.txt", false),
        entry("alpha", true),
        entry(".secret.ssce", false),
    ];
    assert_eq!(names(&browse_listing(&entries, "ssce")), vec!["alpha", "Beta", "alpha.ssce", "zeta.ssce"]);
    assert_eq!(names(&browse_listing(&entries, "images")), vec!["alpha", "Beta", "photo.PNG"]);
    assert_eq!(
        names(&browse_listing(&entries, "all")),
        vec!["alpha", "Beta", "alpha.ssce", "notes.txt", "photo.PNG", "zeta.ssce"]
    );
    assert!(browse_listing(&vec![], "all").is_empty());
}

#[test]
fn autosave_listing_keeps_documents_newest_first() {
    let e = |name: &str, mtime: u64| AutosaveEntry { name: name.to_string(), path: format!("/auto/{}", name), mtime };
    let entries = vec![e("a.ssce", 10), e("b.txt", 50), e("c.SSCE", 30), e("d.ssce", 10), e("e.ssce", 20)];
    let got: Vec<_> = autosave_listing(&entries).into_iter().map(|x| x.name).collect();
    assert_eq!(got, vec!["c.SSCE", "e.ssce", "a.ssce", "d.ssce"]);
}

#[test]
fn browse_listing_orders_by_unicode_lower_case() {
    let entries = vec![entry("Éb", false), entry("éa", false), entry("B", false), entry("a", false)];
    assert_eq!(names(&browse_listing(&entries, "all")), vec!["a", "B", "éa", "Éb"]);
    let docs = vec![entry("ÉTÉ.SSCE", false), entry("x.txt", false)];
    assert_eq!(names(&browse_listing(&docs, "ssce")), vec!["ÉTÉ.SSCE"]);
}
