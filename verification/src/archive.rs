//! The archive transcoder: reading a compressed container into plain
//! entries, planning a safe extraction, and packaging a single payload.
//!
//! The container format itself is handled by the `zip` crate behind two
//! trusted wrappers; everything decided about the entries — which are safe to
//! write, where each one lands, which one is the payload of interest — is
//! verified here.

use vstd::prelude::*;

verus! {

/// One entry of a compressed archive, decoded into plain values.
#[derive(Debug)]
pub struct ArchiveEntry {
    pub name: String,
    pub is_dir: bool,
    pub bytes: Vec<u8>,
}

impl View for ArchiveEntry {
    type V = (Seq<char>, bool, Seq<u8>);

    open spec fn view(&self) -> (Seq<char>, bool, Seq<u8>) {
        (self.name@, self.is_dir, self.bytes@)
    }
}

/// Failure of the container codec on one archive.
#[derive(Debug, PartialEq, Eq, Structural)]
pub enum ArchiveError {
    Corrupt,
}

/// What the archive reader finds in a byte string: the entries in archive
/// order, or nothing when the bytes are not a well-formed archive. A pure
/// function of the bytes alone.
pub uninterp spec fn zip_entries(data: Seq<u8>) -> Option<Seq<(Seq<char>, bool, Seq<u8>)>>;

/// Relies on zip's `ZipArchive`: parses the archive directory, walks the
/// entries in order and decompresses each one; an entry is a directory
/// exactly when its name ends in a slash.
#[verifier::external_body]
fn read_zip_entries(data: &Vec<u8>) -> (r: Result<Vec<ArchiveEntry>, ArchiveError>)
    ensures
        match r {
            Ok(es) => zip_entries(data@) == Some(es@.map_values(|e: ArchiveEntry| e@)),
            Err(_) => zip_entries(data@) is None,
        },
{
    let mut archive = zip::ZipArchive::new(std::io::Cursor::new(data.as_slice()))
        .map_err(|_| ArchiveError::Corrupt)?;
    let mut out: Vec<ArchiveEntry> = Vec::new();
    for i in 0..archive.len() {
        let mut f = archive.by_index(i).map_err(|_| ArchiveError::Corrupt)?;
        let name = f.name().to_string();
        let is_dir = f.is_dir();
        let mut bytes: Vec<u8> = Vec::new();
        std::io::Read::read_to_end(&mut f, &mut bytes).map_err(|_| ArchiveError::Corrupt)?;
        out.push(ArchiveEntry { name, is_dir, bytes });
    }
    Ok(out)
}

/// Relies on zip's `ZipWriter`: `start_file` plus one write produces an
/// archive whose reader finds exactly that one entry, under the given name,
/// as a plain file (the name does not end in a slash). Writing into memory
/// fails only for a name whose encoding overflows the 16-bit name-length
/// field or a payload past the 32-bit size field, so inputs clear of both
/// bounds succeed.
#[verifier::external_body]
fn write_single_entry_zip(name: &str, bytes: &Vec<u8>) -> (r: Result<Vec<u8>, ArchiveError>)
    requires
        name@.len() > 0,
        name@.last() != '/',
        name@.last() != '\\',
    ensures
        match r {
            Ok(a) => zip_entries(a@) == Some(seq![(name@, false, bytes@)]),
            Err(_) => true,
        },
        name@.len() <= 16000 && bytes@.len() < 0x8000_0000 ==> r is Ok,
{
    let mut buf: Vec<u8> = Vec::new();
    let mut w = zip::ZipWriter::new(std::io::Cursor::new(&mut buf));
    let options = zip::write::SimpleFileOptions::default();
    w.start_file(name, options).map_err(|_| ArchiveError::Corrupt)?;
    std::io::Write::write_all(&mut w, bytes.as_slice()).map_err(|_| ArchiveError::Corrupt)?;
    w.finish().map_err(|_| ArchiveError::Corrupt)?;
    Ok(buf)
}

// ---------------------------------------------------------------------------
// Safe entry names
// ---------------------------------------------------------------------------

/// A `".."` path component, delimited by slashes or the name's ends.
pub open spec fn has_dotdot_component(n: Seq<char>) -> bool {
    exists|i: int|
        0 <= i && i + 2 <= n.len() && #[trigger] n[i] == '.' && n[i + 1] == '.' && (i == 0 || n[i
            - 1] == '/') && (i + 2 == n.len() || n[i + 2] == '/')
}

/// The names this library is willing to write under a destination root:
/// non-empty, relative, free of `".."` components, and free of backslashes
/// and NUL bytes. Anything else is skipped, never written.
pub open spec fn safe_entry_name(n: Seq<char>) -> bool {
    &&& n.len() > 0
    &&& n[0] != '/'
    &&& !has_dotdot_component(n)
    &&& (forall|i: int| 0 <= i < n.len() ==> n[i] != '\\' && n[i] != '\u{0}')
}

/// Checks a name against `safe_entry_name`.
pub fn is_safe_entry_name(name: &str) -> (r: bool)
    ensures
        r == safe_entry_name(name@),
{
    let n = name.unicode_len();
    if n == 0 {
        return false;
    }
    if name.get_char(0) == '/' {
        return false;
    }
    let mut i: usize = 0;
    while i < n
        invariant
            0 <= i <= n,
            n == name@.len(),
            forall|j: int| 0 <= j < i ==> name@[j] != '\\' && name@[j] != '\u{0}',
            forall|j: int|
                0 <= j < i ==> !(j + 2 <= n && #[trigger] name@[j] == '.' && name@[j + 1] == '.'
                    && (j == 0 || name@[j - 1] == '/') && (j + 2 == n || name@[j + 2] == '/')),
        decreases n - i,
    {
        let c = name.get_char(i);
        if c == '\\' || c == '\u{0}' {
            return false;
        }
        if c == '.' && (i == 0 || name.get_char(i - 1) == '/') && n - i >= 2 {
            if name.get_char(i + 1) == '.' && (n - i == 2 || name.get_char(i + 2) == '/') {
                return false;
            }
        }
        i += 1;
    }
    true
}

// ---------------------------------------------------------------------------
// File name extensions
// ---------------------------------------------------------------------------

/// The extension of a name's last component: the run after its last dot,
/// absent when there is no dot or the only dot leads the component.
pub open spec fn ext_of(n: Seq<char>) -> Option<Seq<char>>
    decreases n.len(),
{
    if n.len() == 0 {
        None
    } else if n.last() == '.' {
        if n.len() == 1 || n[n.len() - 2] == '/' {
            None
        } else {
            Some(Seq::empty())
        }
    } else if n.last() == '/' {
        None
    } else {
        match ext_of(n.drop_last()) {
            None => None,
            Some(e) => Some(e.push(n.last())),
        }
    }
}

/// Checks whether the name's extension is exactly `ext`.
pub fn ext_matches(name: &str, ext: &str) -> (r: bool)
    ensures
        r == (ext_of(name@) == Some(ext@)),
{
    let n = name.unicode_len();
    let mut i: usize = n;
    while i > 0 && name.get_char(i - 1) != '.' && name.get_char(i - 1) != '/'
        invariant
            0 <= i <= n,
            n == name@.len(),
            forall|j: int| i <= j < n ==> name@[j] != '.' && name@[j] != '/',
        decreases i,
    {
        i -= 1;
    }
    if i == 0 {
        proof {
            lemma_ext_of_none_no_dot(name@);
        }
        return false;
    }
    let marker = name.get_char(i - 1);
    if marker == '/' {
        proof {
            lemma_ext_of_none_slash(name@, i - 1 as int);
        }
        return false;
    }
    // marker is the last dot of the last component
    if i == 1 || name.get_char(i - 2) == '/' {
        proof {
            lemma_ext_of_none_leading_dot(name@, i - 1 as int);
        }
        return false;
    }
    proof {
        lemma_ext_of_some(name@, i - 1 as int);
    }
    let tail = name.substring_char(i, n);
    str_eq(tail, ext)
}

/// No dot or slash anywhere: no extension.
proof fn lemma_ext_of_none_no_dot(n: Seq<char>)
    requires
        forall|j: int| 0 <= j < n.len() ==> n[j] != '.' && n[j] != '/',
    ensures
        ext_of(n) is None,
    decreases n.len(),
{
    if n.len() > 0 {
        lemma_ext_of_none_no_dot(n.drop_last());
    }
}

/// The rightmost dot-or-slash is a slash: no extension.
proof fn lemma_ext_of_none_slash(n: Seq<char>, p: int)
    requires
        0 <= p < n.len(),
        n[p] == '/',
        forall|j: int| p < j < n.len() ==> n[j] != '.' && n[j] != '/',
    ensures
        ext_of(n) is None,
    decreases n.len(),
{
    if p < n.len() - 1 {
        lemma_ext_of_none_slash(n.drop_last(), p);
    }
}

/// The rightmost dot leads its component: no extension.
proof fn lemma_ext_of_none_leading_dot(n: Seq<char>, p: int)
    requires
        0 <= p < n.len(),
        n[p] == '.',
        p == 0 || n[p - 1] == '/',
        forall|j: int| p < j < n.len() ==> n[j] != '.' && n[j] != '/',
    ensures
        ext_of(n) is None,
    decreases n.len(),
{
    if p < n.len() - 1 {
        lemma_ext_of_none_leading_dot(n.drop_last(), p);
    }
}

/// The rightmost dot sits inside the last component: the extension is what
/// follows it.
proof fn lemma_ext_of_some(n: Seq<char>, p: int)
    requires
        0 <= p < n.len(),
        n[p] == '.',
        p > 0 && n[p - 1] != '/',
        forall|j: int| p < j < n.len() ==> n[j] != '.' && n[j] != '/',
    ensures
        ext_of(n) == Some(n.subrange(p + 1, n.len() as int)),
    decreases n.len(),
{
    if p == n.len() - 1 {
        assert(n.subrange(p + 1, n.len() as int) =~= Seq::<char>::empty());
    } else {
        lemma_ext_of_some(n.drop_last(), p);
        assert(n.drop_last().subrange(p + 1, n.len() - 1) =~= n.subrange(p + 1, n.len() - 1));
        assert(n.subrange(p + 1, n.len() - 1).push(n.last()) =~= n.subrange(p + 1, n.len() as int));
    }
}

/// Character-wise string equality.
pub fn str_eq(a: &str, b: &str) -> (r: bool)
    ensures
        r == (a@ == b@),
{
    let alen = a.unicode_len();
    let blen = b.unicode_len();
    if alen != blen {
        return false;
    }
    let mut i: usize = 0;
    while i < alen
        invariant
            0 <= i <= alen,
            alen == a@.len(),
            alen == b@.len(),
            forall|j: int| 0 <= j < i ==> a@[j] == b@[j],
        decreases alen - i,
    {
        if a.get_char(i) != b.get_char(i) {
            return false;
        }
        i += 1;
    }
    proof {
        assert(a@ =~= b@);
    }
    true
}

} // verus!

verus! {

// ---------------------------------------------------------------------------
// Extraction planning
// ---------------------------------------------------------------------------

/// Joining a destination root and a relative entry name with a single slash.
pub open spec fn join_path_spec(root: Seq<char>, name: Seq<char>) -> Seq<char> {
    if root.len() > 0 && root.last() == '/' {
        root + name
    } else {
        root + seq!['/'] + name
    }
}

/// Joins a destination root and a relative entry name.
pub fn join_path(root: &str, name: &str) -> (r: String)
    ensures
        r@ == join_path_spec(root@, name@),
{
    let rlen = root.unicode_len();
    let mut s = String::new();
    s.append(root);
    if rlen == 0 || root.get_char(rlen - 1) != '/' {
        s.append("/");
        proof {
            reveal_strlit("/");
            assert(s@ =~= root@ + seq!['/']);
        }
    }
    s.append(name);
    proof {
        assert(s@ =~= join_path_spec(root@, name@));
    }
    s
}

/// An entry of interest: a plain file whose extension is the payload kind.
pub open spec fn is_payload_entry(e: (Seq<char>, bool, Seq<u8>), payload_ext: Seq<char>) -> bool {
    safe_entry_name(e.0) && !e.1 && ext_of(e.0) == Some(payload_ext)
}

/// Where one entry lands: payload entries under the payload root, everything
/// else under the per-attachment root.
pub open spec fn entry_target(
    e: (Seq<char>, bool, Seq<u8>),
    payload_ext: Seq<char>,
    payload_root: Seq<char>,
    other_root: Seq<char>,
) -> Seq<char> {
    if ext_of(e.0) == Some(payload_ext) {
        join_path_spec(payload_root, e.0)
    } else {
        join_path_spec(other_root, e.0)
    }
}

/// The writes an extraction performs, in entry order: each safe entry's
/// target path, its index in the entry list, and whether it is a directory.
/// Unsafe names are skipped, never written.
pub open spec fn extract_writes(
    es: Seq<(Seq<char>, bool, Seq<u8>)>,
    payload_ext: Seq<char>,
    payload_root: Seq<char>,
    other_root: Seq<char>,
) -> Seq<(Seq<char>, int, bool)>
    decreases es.len(),
{
    if es.len() == 0 {
        Seq::empty()
    } else {
        let pre = extract_writes(es.drop_last(), payload_ext, payload_root, other_root);
        let e = es.last();
        if safe_entry_name(e.0) {
            pre.push((entry_target(e, payload_ext, payload_root, other_root), es.len() - 1, e.1))
        } else {
            pre
        }
    }
}

/// The reported payload path: the target of the first payload entry. Later
/// matches are still written, but only the first is reported.
pub open spec fn extract_payload(
    es: Seq<(Seq<char>, bool, Seq<u8>)>,
    payload_ext: Seq<char>,
    payload_root: Seq<char>,
    other_root: Seq<char>,
) -> Option<Seq<char>>
    decreases es.len(),
{
    if es.len() == 0 {
        None
    } else {
        match extract_payload(es.drop_last(), payload_ext, payload_root, other_root) {
            Some(p) => Some(p),
            None => {
                let e = es.last();
                if is_payload_entry(e, payload_ext) {
                    Some(entry_target(e, payload_ext, payload_root, other_root))
                } else {
                    None
                }
            },
        }
    }
}

/// One planned filesystem write.
#[derive(Debug)]
pub struct PlannedWrite {
    /// The full destination path.
    pub path: String,
    /// The index of the entry whose bytes go there.
    pub entry: usize,
    /// Whether the write is a directory creation instead of a file.
    pub is_dir: bool,
}

impl View for PlannedWrite {
    type V = (Seq<char>, int, bool);

    open spec fn view(&self) -> (Seq<char>, int, bool) {
        (self.path@, self.entry as int, self.is_dir)
    }
}

/// The outcome of planning one extraction.
#[derive(Debug)]
pub struct ExtractPlan {
    /// Every write to perform, in entry order.
    pub writes: Vec<PlannedWrite>,
    /// The destination path of the first payload entry, if any.
    pub payload: Option<String>,
}

pub open spec fn payload_view(p: Option<String>) -> Option<Seq<char>> {
    match p {
        Some(s) => Some(s@),
        None => None,
    }
}

/// Plans the extraction of decoded entries: skips unsafe names, routes each
/// remaining entry to its destination, and reports the first payload match.
pub fn plan_extraction(
    entries: &Vec<ArchiveEntry>,
    payload_ext: &str,
    payload_root: &str,
    other_root: &str,
) -> (r: ExtractPlan)
    ensures
        r.writes@.map_values(|w: PlannedWrite| w@) == extract_writes(
            entries@.map_values(|e: ArchiveEntry| e@),
            payload_ext@,
            payload_root@,
            other_root@,
        ),
        payload_view(r.payload) == extract_payload(
            entries@.map_values(|e: ArchiveEntry| e@),
            payload_ext@,
            payload_root@,
            other_root@,
        ),
{
    let ghost es = entries@.map_values(|e: ArchiveEntry| e@);
    let mut writes: Vec<PlannedWrite> = Vec::new();
    let mut payload: Option<String> = None;
    let mut i: usize = 0;
    while i < entries.len()
        invariant
            0 <= i <= entries.len(),
            es == entries@.map_values(|e: ArchiveEntry| e@),
            es.len() == entries@.len(),
            writes@.map_values(|w: PlannedWrite| w@) == extract_writes(
                es.subrange(0, i as int),
                payload_ext@,
                payload_root@,
                other_root@,
            ),
            payload_view(payload) == extract_payload(
                es.subrange(0, i as int),
                payload_ext@,
                payload_root@,
                other_root@,
            ),
        decreases entries.len() - i,
    {
        let e = &entries[i];
        let ghost prefix = es.subrange(0, i as int);
        let ghost prefix1 = es.subrange(0, i + 1);
        proof {
            assert(prefix1.drop_last() =~= prefix);
            assert(prefix1.last() == es[i as int]);
            assert(es[i as int] == e@);
        }
        if is_safe_entry_name(e.name.as_str()) {
            let is_pay_ext = ext_matches(e.name.as_str(), payload_ext);
            let target = if is_pay_ext {
                join_path(payload_root, e.name.as_str())
            } else {
                join_path(other_root, e.name.as_str())
            };
            if payload.is_none() && !e.is_dir && is_pay_ext {
                let copy = clone_string(&target);
                payload = Some(copy);
            }
            writes.push(PlannedWrite { path: target, entry: i, is_dir: e.is_dir });
            proof {
                assert(writes@.map_values(|w: PlannedWrite| w@) =~= extract_writes(
                    prefix1,
                    payload_ext@,
                    payload_root@,
                    other_root@,
                ));
            }
        } else {
            proof {
                assert(writes@.map_values(|w: PlannedWrite| w@) =~= extract_writes(
                    prefix1,
                    payload_ext@,
                    payload_root@,
                    other_root@,
                ));
            }
        }
        i += 1;
    }
    proof {
        assert(es.subrange(0, es.len() as int) =~= es);
    }
    ExtractPlan { writes, payload }
}

/// A specified copy of a string.
pub(crate) fn clone_string(s: &String) -> (r: String)
    ensures
        r@ == s@,
{
    s.clone()
}

} // verus!

verus! {

// ---------------------------------------------------------------------------
// The archive transcoder's public face
// ---------------------------------------------------------------------------

/// Decodes an archive and plans its extraction: every safe entry is routed
/// to its destination and the first payload entry is reported. A byte string
/// the archive reader rejects is surfaced as corrupt.
pub fn extract_single_payload(
    archive: &Vec<u8>,
    payload_ext: &str,
    payload_root: &str,
    other_root: &str,
) -> (r: Result<(Vec<ArchiveEntry>, ExtractPlan), ArchiveError>)
    ensures
        match zip_entries(archive@) {
            Some(es) => match r {
                Ok((entries, plan)) => {
                    &&& entries@.map_values(|e: ArchiveEntry| e@) == es
                    &&& plan.writes@.map_values(|w: PlannedWrite| w@) == extract_writes(
                        es,
                        payload_ext@,
                        payload_root@,
                        other_root@,
                    )
                    &&& payload_view(plan.payload) == extract_payload(
                        es,
                        payload_ext@,
                        payload_root@,
                        other_root@,
                    )
                },
                Err(_) => false,
            },
            None => r is Err,
        },
{
    let entries = match read_zip_entries(archive) {
        Ok(es) => es,
        Err(e) => {
            return Err(e);
        },
    };
    let plan = plan_extraction(&entries, payload_ext, payload_root, other_root);
    Ok((entries, plan))
}

/// Packages one payload into a fresh single-entry archive, for publishing a
/// local edit back to the remote store. Success is owed whenever the entry
/// name and the payload stay clear of the container's size fields.
pub fn package_single_payload(bytes: &Vec<u8>, entry_name: &str) -> (r: Result<
    Vec<u8>,
    ArchiveError,
>)
    requires
        entry_name@.len() > 0,
        entry_name@.last() != '/',
        entry_name@.last() != '\\',
    ensures
        match r {
            Ok(a) => zip_entries(a@) == Some(seq![(entry_name@, false, bytes@)]),
            Err(_) => true,
        },
        entry_name@.len() <= 16000 && bytes@.len() < 0x8000_0000 ==> r is Ok,
{
    write_single_entry_zip(entry_name, bytes)
}

/// The archive round trip: an archive holding exactly one plain entry with a
/// safe, payload-extension name extracts to that entry — the plan writes it
/// (and nothing else) under the payload root, reports it as the payload, and
/// its bytes are the packaged bytes unchanged.
pub proof fn lemma_single_payload_roundtrip(
    name: Seq<char>,
    bytes: Seq<u8>,
    payload_ext: Seq<char>,
    payload_root: Seq<char>,
    other_root: Seq<char>,
)
    requires
        safe_entry_name(name),
        ext_of(name) == Some(payload_ext),
    ensures
        ({
            let es: Seq<(Seq<char>, bool, Seq<u8>)> = seq![(name, false, bytes)];
            &&& extract_payload(es, payload_ext, payload_root, other_root) == Some(
                join_path_spec(payload_root, name),
            )
            &&& extract_writes(es, payload_ext, payload_root, other_root) == seq![
                (join_path_spec(payload_root, name), 0int, false),
            ]
            &&& es[0].2 == bytes
        }),
{
    let es: Seq<(Seq<char>, bool, Seq<u8>)> = seq![(name, false, bytes)];
    let empty = Seq::<(Seq<char>, bool, Seq<u8>)>::empty();
    assert(es.drop_last() =~= empty);
    assert(es.last() == (name, false, bytes));
    assert(extract_writes(empty, payload_ext, payload_root, other_root) =~= Seq::<(
        Seq<char>,
        int,
        bool,
    )>::empty());
    assert(extract_payload(empty, payload_ext, payload_root, other_root) is None);
    assert(is_payload_entry((name, false, bytes), payload_ext));
    assert(extract_writes(es, payload_ext, payload_root, other_root) =~= seq![
        (join_path_spec(payload_root, name), 0int, false),
    ]);
}

} // verus!

verus! {

/// The entry name a re-published payload is packaged under — an attachment
/// key followed by the fixed payload extension — passes safe-path
/// validation and carries the payload extension, whenever the key is a
/// plain token: non-empty and free of separators and NUL. Together with
/// `package_single_payload` and `lemma_single_payload_roundtrip`, this
/// closes the round trip for every such key.
pub proof fn lemma_payload_entry_name_safe(key: Seq<char>)
    requires
        key.len() > 0,
        forall|i: int|
            0 <= i < key.len() ==> key[i] != '/' && key[i] != '\\' && key[i] != '\u{0}',
    ensures
        safe_entry_name(key + ".pdf"@),
        ext_of(key + ".pdf"@) == Some("pdf"@),
{
    reveal_strlit(".pdf");
    reveal_strlit("pdf");
    let n = key + ".pdf"@;
    let p = key.len() as int;
    assert(n.len() == p + 4);
    assert(forall|i: int| 0 <= i < p ==> n[i] == key[i]);
    assert(n[p] == '.' && n[p + 1] == 'p' && n[p + 2] == 'd' && n[p + 3] == 'f');
    assert(forall|i: int| 0 <= i < n.len() ==> n[i] != '/' && n[i] != '\\' && n[i] != '\u{0}');
    if has_dotdot_component(n) {
        let i = choose|i: int|
            0 <= i && i + 2 <= n.len() && #[trigger] n[i] == '.' && n[i + 1] == '.' && (i == 0
                || n[i - 1] == '/') && (i + 2 == n.len() || n[i + 2] == '/');
        assert(i == 0 && i + 2 == n.len());
    }
    lemma_ext_of_some(n, p);
    assert(n.subrange(p + 1, n.len() as int) =~= "pdf"@);
}

} // verus!
