use std::io::Write;

use zotero_sync::archive::{
    extract_single_payload, ext_matches, is_safe_entry_name, join_path, package_single_payload,
    ArchiveError,
};

#[test]
fn package_then_extract_returns_the_same_bytes() {
    let bytes: Vec<u8> = b"payload body bytes".to_vec();
    let archive = package_single_payload(&bytes, "X.pdf").unwrap();
    let (entries, plan) =
        extract_single_payload(&archive, "pdf", "/downloads", "/downloads/key").unwrap();
    assert_eq!(entries.len(), 1);
    assert_eq!(entries[0].name, "X.pdf");
    assert!(!entries[0].is_dir);
    assert_eq!(entries[0].bytes, bytes);
    assert_eq!(plan.payload.as_deref(), Some("/downloads/X.pdf"));
    assert_eq!(plan.writes.len(), 1);
    assert_eq!(plan.writes[0].path, "/downloads/X.pdf");
    assert_eq!(plan.writes[0].entry, 0);
    assert!(!plan.writes[0].is_dir);
}

fn two_entry_archive() -> Vec<u8> {
    let mut buf: Vec<u8> = Vec::new();
    let mut w = zip::ZipWriter::new(std::io::Cursor::new(&mut buf));
    let options = zip::write::SimpleFileOptions::default();
    w.start_file("first.pdf", options).unwrap();
    w.write_all(b"first body").unwrap();
    w.start_file("second.pdf", options).unwrap();
    w.write_all(b"second body").unwrap();
    w.finish().unwrap();
    buf
}

#[test]
fn first_payload_match_wins_but_all_entries_are_written() {
    let archive = two_entry_archive();
    let (entries, plan) = extract_single_payload(&archive, "pdf", "/dl", "/dl/key").unwrap();
    assert_eq!(entries.len(), 2);
    // only the first match is reported ...
    assert_eq!(plan.payload.as_deref(), Some("/dl/first.pdf"));
    // ... but the later match is still written
    assert_eq!(plan.writes.len(), 2);
    assert_eq!(plan.writes[1].path, "/dl/second.pdf");
    assert_eq!(entries[plan.writes[1].entry].bytes, b"second body".to_vec());
}

#[test]
fn non_payload_entries_land_under_the_attachment_root() {
    let mut buf: Vec<u8> = Vec::new();
    let mut w = zip::ZipWriter::new(std::io::Cursor::new(&mut buf));
    let options = zip::write::SimpleFileOptions::default();
    w.start_file("notes.txt", options).unwrap();
    w.write_all(b"n").unwrap();
    w.finish().unwrap();
    let (_, plan) = extract_single_payload(&buf, "pdf", "/dl", "/dl/key").unwrap();
    assert_eq!(plan.payload, None);
    assert_eq!(plan.writes.len(), 1);
    assert_eq!(plan.writes[0].path, "/dl/key/notes.txt");
}

#[test]
fn unsafe_entry_names_are_skipped_not_written() {
    let mut buf: Vec<u8> = Vec::new();
    let mut w = zip::ZipWriter::new(std::io::Cursor::new(&mut buf));
    let options = zip::write::SimpleFileOptions::default();
    w.start_file("../escape.pdf", options).unwrap();
    w.write_all(b"evil").unwrap();
    w.finish().unwrap();
    let (entries, plan) = extract_single_payload(&buf, "pdf", "/dl", "/dl/key").unwrap();
    assert_eq!(entries.len(), 1);
    assert_eq!(plan.writes.len(), 0);
    assert_eq!(plan.payload, None);
}

#[test]
fn corrupt_archives_are_surfaced() {
    let garbage: Vec<u8> = vec![1, 2, 3, 4, 5, 6, 7, 8];
    let r = extract_single_payload(&garbage, "pdf", "/dl", "/dl/key");
    assert_eq!(r.unwrap_err(), ArchiveError::Corrupt);
}

#[test]
fn safe_name_validation() {
    assert!(is_safe_entry_name("a.pdf"));
    assert!(is_safe_entry_name("dir/sub/a.pdf"));
    assert!(is_safe_entry_name("..a/b"));
    assert!(!is_safe_entry_name(""));
    assert!(!is_safe_entry_name("/abs/path.pdf"));
    assert!(!is_safe_entry_name("../up.pdf"));
    assert!(!is_safe_entry_name("dir/../up.pdf"));
    assert!(!is_safe_entry_name("dir/.."));
    assert!(!is_safe_entry_name("back\\slash.pdf"));
    assert!(!is_safe_entry_name("nul\u{0}byte"));
}

#[test]
fn extension_matching() {
    assert!(ext_matches("a.pdf", "pdf"));
    assert!(ext_matches("dir/a.b.pdf", "pdf"));
    assert!(ext_matches("a.", ""));
    assert!(!ext_matches("a.PDF", "pdf"));
    assert!(!ext_matches(".pdf", "pdf"));
    assert!(!ext_matches("dir.pdf/a", "pdf"));
    assert!(!ext_matches("apdf", "pdf"));
    assert!(!ext_matches("dir/", "pdf"));
}

#[test]
fn join_path_inserts_one_slash() {
    assert_eq!(join_path("/dl", "a.pdf"), "/dl/a.pdf");
    assert_eq!(join_path("/dl/", "a.pdf"), "/dl/a.pdf");
    assert_eq!(join_path("", "a.pdf"), "/a.pdf");
}
