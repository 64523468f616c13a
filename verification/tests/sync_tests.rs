use zotero_sync::codec::{fingerprint, Properties};
use zotero_sync::sync::{
    archive_remote_path, decide_sync, payload_entry_name, prop_remote_path, republish_descriptor,
    LocalFile, SyncDecision,
};

fn local(bytes: &[u8], mtime: i64) -> LocalFile {
    LocalFile {
        bytes: bytes.to_vec(),
        mtime,
    }
}

fn remote(hash: &str, mtime: i64) -> Properties {
    Properties {
        mtime,
        hash: hash.to_string(),
    }
}

#[test]
fn absent_local_fetches_fresh() {
    let r = remote("abc", 100);
    assert_eq!(decide_sync(None, Some(&r)), SyncDecision::FetchFresh);
}

#[test]
fn absent_remote_counts_as_never_synced() {
    let l = local(b"data", 100);
    assert_eq!(decide_sync(Some(&l), None), SyncDecision::FetchFresh);
    assert_eq!(decide_sync(None, None), SyncDecision::FetchFresh);
}

#[test]
fn matching_hash_serves_cached() {
    let l = local(b"same bytes", 100);
    let r = remote(&fingerprint(b"same bytes"), 999);
    assert_eq!(decide_sync(Some(&l), Some(&r)), SyncDecision::ServeCached);
}

#[test]
fn newer_remote_fetches_fresh() {
    let l = local(b"local edit", 100);
    let r = remote(&fingerprint(b"remote edit"), 200);
    assert_eq!(decide_sync(Some(&l), Some(&r)), SyncDecision::FetchFresh);
}

#[test]
fn older_remote_republishes_local() {
    let l = local(b"local edit", 100);
    let r = remote(&fingerprint(b"remote edit"), 50);
    assert_eq!(
        decide_sync(Some(&l), Some(&r)),
        SyncDecision::RepublishLocal
    );
}

#[test]
fn timestamp_tie_favors_local() {
    let l = local(b"local edit", 100);
    let r = remote(&fingerprint(b"remote edit"), 100);
    assert_eq!(
        decide_sync(Some(&l), Some(&r)),
        SyncDecision::RepublishLocal
    );
}

#[test]
fn republished_descriptor_carries_fresh_local_hash() {
    let l = local(b"local edit", 4321);
    let d = republish_descriptor(&l);
    assert_eq!(d.mtime, 4321);
    assert_eq!(d.hash, fingerprint(b"local edit"));
}

#[test]
fn remote_paths_derive_from_the_key() {
    assert_eq!(prop_remote_path("ABCD1234"), "/zotero/ABCD1234.prop");
    assert_eq!(archive_remote_path("ABCD1234"), "/zotero/ABCD1234.zip");
    assert_eq!(payload_entry_name("ABCD1234"), "ABCD1234.pdf");
}
