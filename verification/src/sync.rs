//! The three-way attachment sync decision.
//!
//! Given the local file's state (if any) and the last known remote descriptor
//! (if one could be fetched and decoded), exactly one of three outcomes is
//! chosen: serve the cached copy, fetch the remote copy, or re-publish the
//! local copy. The policy is last-writer-wins with a content-hash
//! short-circuit; a timestamp tie favors the local copy.

use vstd::prelude::*;

use crate::codec::{fingerprint, fingerprint_of, DescriptorModel, Properties};

verus! {

/// The local side of one sync decision: the cached file's bytes and its
/// modification time in millisecond epoch. Read fresh for every decision,
/// never cached.
pub struct LocalFile {
    pub bytes: Vec<u8>,
    pub mtime: i64,
}

impl View for LocalFile {
    type V = (Seq<u8>, int);

    open spec fn view(&self) -> (Seq<u8>, int) {
        (self.bytes@, self.mtime as int)
    }
}

/// What one sync decision resolves to.
#[derive(Debug, Clone, Copy, PartialEq, Eq, Structural)]
pub enum SyncDecision {
    /// No usable local or remote state to compare against, or the remote copy
    /// is newer: download the archive, extract the payload, open it.
    FetchFresh,
    /// Local bytes already match the remote hash: open the local file, no
    /// transfer in either direction.
    ServeCached,
    /// The local copy is an edit at least as new as the remote one: package
    /// the local bytes and publish them with a freshly computed descriptor.
    RepublishLocal,
}

pub open spec fn local_view(l: Option<&LocalFile>) -> Option<(Seq<u8>, int)> {
    match l {
        Some(f) => Some(f@),
        None => None,
    }
}

pub open spec fn remote_view(r: Option<&Properties>) -> Option<DescriptorModel> {
    match r {
        Some(p) => Some(p@),
        None => None,
    }
}

/// The decision table. A missing local file always fetches; a missing or
/// undecodable remote descriptor means the attachment counts as never
/// synced, which also fetches; matching fingerprints serve the cache; and
/// otherwise the newer side wins, ties going to the local copy.
pub open spec fn sync_decision(
    local: Option<(Seq<u8>, int)>,
    remote: Option<DescriptorModel>,
) -> SyncDecision {
    match (local, remote) {
        (Some(l), Some(d)) => {
            if fingerprint_of(l.0) == d.hash {
                SyncDecision::ServeCached
            } else if d.mtime > l.1 {
                SyncDecision::FetchFresh
            } else {
                SyncDecision::RepublishLocal
            }
        },
        _ => SyncDecision::FetchFresh,
    }
}

/// Resolves one attachment's sync decision from the probed local state and
/// the fetched remote descriptor.
pub fn decide_sync(local: Option<&LocalFile>, remote: Option<&Properties>) -> (r: SyncDecision)
    ensures
        r == sync_decision(local_view(local), remote_view(remote)),
{
    match (local, remote) {
        (Some(l), Some(p)) => {
            let h = fingerprint(l.bytes.as_slice());
            if h == p.hash {
                SyncDecision::ServeCached
            } else if p.mtime > l.mtime {
                SyncDecision::FetchFresh
            } else {
                SyncDecision::RepublishLocal
            }
        },
        _ => SyncDecision::FetchFresh,
    }
}

/// The descriptor published together with a re-published local copy: the
/// local modification time and the hash of the local bytes as they are now.
pub fn republish_descriptor(local: &LocalFile) -> (r: Properties)
    ensures
        r.mtime == local.mtime,
        r.hash@ == fingerprint_of(local.bytes@),
{
    Properties { mtime: local.mtime, hash: fingerprint(local.bytes.as_slice()) }
}

// ---------------------------------------------------------------------------
// Remote store paths
// ---------------------------------------------------------------------------

/// The remote path of an attachment's descriptor record.
pub fn prop_remote_path(key: &str) -> (r: String)
    ensures
        r@ == "/zotero/"@ + key@ + ".prop"@,
{
    let mut s = String::new();
    s.append("/zotero/");
    s.append(key);
    s.append(".prop");
    proof {
        assert(s@ =~= "/zotero/"@ + key@ + ".prop"@);
    }
    s
}

/// The remote path of an attachment's archive.
pub fn archive_remote_path(key: &str) -> (r: String)
    ensures
        r@ == "/zotero/"@ + key@ + ".zip"@,
{
    let mut s = String::new();
    s.append("/zotero/");
    s.append(key);
    s.append(".zip");
    proof {
        assert(s@ =~= "/zotero/"@ + key@ + ".zip"@);
    }
    s
}

/// The archive entry name a re-published payload is stored under: the
/// attachment key plus the fixed payload extension.
pub fn payload_entry_name(key: &str) -> (r: String)
    ensures
        r@ == key@ + ".pdf"@,
{
    let mut s = String::new();
    s.append(key);
    s.append(".pdf");
    proof {
        assert(s@ =~= key@ + ".pdf"@);
    }
    s
}

} // verus!

verus! {

/// Last-writer-wins, ties to the local side: when the contents differ and
/// the remote copy is not strictly newer, the local copy is re-published —
/// an equal timestamp never triggers a redundant download.
pub proof fn lemma_tie_favors_local(l: (Seq<u8>, int), d: DescriptorModel)
    requires
        fingerprint_of(l.0) != d.hash,
        d.mtime <= l.1,
    ensures
        sync_decision(Some(l), Some(d)) == SyncDecision::RepublishLocal,
{
}

} // verus!
