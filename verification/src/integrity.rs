//! The integrity checks: which facts about a file make an issue, how the
//! issues are scored, and the header, archive and configuration verdicts.
//!
//! Opening files, listing folders and walking the roots is the caller's
//! work; it hands the facts it gathered to these functions.

use vstd::prelude::*;
use crate::models::{IntegrityIssue, IntegrityReport, texts};
use crate::paths::{lower_ext_or_empty, lower_ext_or_empty_exec, file_stem, file_stem_exec, parent, parent_exec};
use crate::text::{lower, lower_chars, to_chars, from_chars, chars_eq, copy_str, concat, concat3, decimal, usize_string};

verus! {

/// Files inspected per scan, at most.
pub const MAX_FILES_INSPECT: usize = 80_000;

/// Configuration files larger than this are not parsed.
pub const MAX_JSON_CHECK_SIZE: u64 = 5 * 1024 * 1024;

/// Folders of an application directory examined for orphan detection.
pub const MAX_APP_DIRS: usize = 350;

/// Files examined per application folder.
pub const MAX_APP_DIR_FILES: usize = 600;

/// Folder entries examined for sibling version clashes.
pub const MAX_SIBLING_ENTRIES: usize = 180;

// ---------------------------------------------------------------------------
// Issues
// ---------------------------------------------------------------------------

/// The view of an issue: (check, severity, path, details, fix hint).
pub open spec fn issue_view(i: IntegrityIssue) -> (Seq<char>, Seq<char>, Seq<char>, Seq<char>, Seq<char>) {
    (i.check@, i.severity@, i.path@, i.details@, i.fix_hint@)
}

pub open spec fn issue_views(v: Seq<IntegrityIssue>) -> Seq<(Seq<char>, Seq<char>, Seq<char>, Seq<char>, Seq<char>)> {
    Seq::new(v.len(), |i: int| issue_view(v[i]))
}

/// Appends one issue.
pub fn push_issue(
    issues: &mut Vec<IntegrityIssue>,
    check: &str,
    severity: &str,
    path: String,
    details: String,
    fix_hint: &str,
)
    ensures
        issue_views(final(issues)@) == issue_views(old(issues)@).push(
            (check@, severity@, path@, details@, fix_hint@),
        ),
{
    let ghost before = issue_views(issues@);
    issues.push(
        IntegrityIssue {
            check: copy_str(check),
            severity: copy_str(severity),
            path,
            details,
            fix_hint: copy_str(fix_hint),
        },
    );
    assert(issue_views(issues@) =~= before.push((check@, severity@, path@, details@, fix_hint@)));
}

// ---------------------------------------------------------------------------
// Extension classes
// ---------------------------------------------------------------------------

fn is_literal(v: &Vec<char>, lit: &str) -> (r: bool)
    ensures
        r == (v@ == lit@),
{
    let l = to_chars(lit);
    chars_eq(v, &l)
}

pub open spec fn partial_download_ext(e: Seq<char>) -> bool {
    e == "part"@ || e == "crdownload"@ || e == "download"@ || e == "partial"@ || e == "tmpdl"@
}

pub open spec fn config_ext(e: Seq<char>) -> bool {
    e == "json"@ || e == "config"@ || e == "cfg"@
}

pub open spec fn executable_ext(e: Seq<char>) -> bool {
    e == "exe"@ || e == "dll"@
}

/// An interrupted download (`.part`, `.crdownload`, ...), by extension.
pub fn looks_partial_download(path: &str) -> (r: bool)
    ensures
        r == partial_download_ext(lower_ext_or_empty(path@)),
{
    let p = to_chars(path);
    let e = lower_ext_or_empty_exec(&p);
    is_literal(&e, "part") || is_literal(&e, "crdownload") || is_literal(&e, "download")
        || is_literal(&e, "partial") || is_literal(&e, "tmpdl")
}

/// A configuration file (`.json`, `.config`, `.cfg`), by extension.
pub fn is_config_ext(path: &str) -> (r: bool)
    ensures
        r == config_ext(lower_ext_or_empty(path@)),
{
    let p = to_chars(path);
    let e = lower_ext_or_empty_exec(&p);
    is_literal(&e, "json") || is_literal(&e, "config") || is_literal(&e, "cfg")
}

/// An executable or library (`.exe`, `.dll`), by extension.
pub fn is_executable_or_lib(path: &str) -> (r: bool)
    ensures
        r == executable_ext(lower_ext_or_empty(path@)),
{
    let p = to_chars(path);
    let e = lower_ext_or_empty_exec(&p);
    is_literal(&e, "exe") || is_literal(&e, "dll")
}

/// A ZIP archive, by extension.
pub fn is_zip_ext(path: &str) -> (r: bool)
    ensures
        r == (lower_ext_or_empty(path@) == "zip"@),
{
    let p = to_chars(path);
    let e = lower_ext_or_empty_exec(&p);
    is_literal(&e, "zip")
}

// ---------------------------------------------------------------------------
// PE headers
// ---------------------------------------------------------------------------

/// The first two bytes must be `MZ`.
pub fn check_mz_signature(mz: [u8; 2]) -> (r: Result<(), String>)
    ensures
        r is Ok <==> (mz@[0] == 0x4d && mz@[1] == 0x5a),
        r matches Err(e) ==> e@ == "Missing MZ signature"@,
{
    if mz[0] == 0x4d && mz[1] == 0x5a {
        Ok(())
    } else {
        Err(copy_str("Missing MZ signature"))
    }
}

/// `u32::from_le_bytes`, widened.
pub open spec fn le_u32(b: Seq<u8>) -> int {
    b[0] + 256 * b[1] + 65536 * b[2] + 16777216 * b[3]
}

/// The offset of the PE signature, read little-endian at `0x3C`.
pub fn pe_offset(raw: [u8; 4]) -> (off: u64)
    ensures
        off as int == le_u32(raw@),
        off <= u32::MAX,
{
    (raw[0] as u64) + 256 * (raw[1] as u64) + 65536 * (raw[2] as u64) + 16777216 * (raw[3] as u64)
}

/// The four signature bytes must lie inside the file.
pub fn check_pe_offset(offset: u64, file_len: u64) -> (r: Result<(), String>)
    requires
        offset <= u32::MAX,
    ensures
        r is Ok <==> offset + 4 <= file_len,
        r matches Err(e) ==> e@ == "PE offset points outside file"@,
{
    if offset + 4 > file_len {
        Err(copy_str("PE offset points outside file"))
    } else {
        Ok(())
    }
}

/// The signature must be `PE\0\0`.
pub fn check_pe_signature(sig: [u8; 4]) -> (r: Result<(), String>)
    ensures
        r is Ok <==> (sig@[0] == 0x50 && sig@[1] == 0x45 && sig@[2] == 0 && sig@[3] == 0),
        r matches Err(e) ==> e@ == "Invalid PE signature"@,
{
    if sig[0] == 0x50 && sig[1] == 0x45 && sig[2] == 0 && sig[3] == 0 {
        Ok(())
    } else {
        Err(copy_str("Invalid PE signature"))
    }
}

// ---------------------------------------------------------------------------
// Configuration files
// ---------------------------------------------------------------------------

/// The message of the error `serde_json` reports when the bytes are not one
/// JSON value, or `None` when they are.
pub uninterp spec fn json_error_text(bytes: Seq<u8>) -> Option<Seq<char>>;

/// `serde_json::from_slice::<serde_json::Value>`, keeping the error's text.
#[verifier::external_body]
fn json_value_error(bytes: &[u8]) -> (r: Option<String>)
    ensures
        r matches Some(e) ==> json_error_text(bytes@) == Some(e@),
        r is None ==> json_error_text(bytes@) is None,
{
    match serde_json::from_slice::<serde_json::Value>(bytes) {
        Ok(_) => None,
        Err(e) => Some(e.to_string()),
    }
}

/// Whether a configuration file of `len` bytes is read and parsed at all.
pub fn json_contents_checked(len: u64) -> (r: bool)
    ensures
        r == (len <= MAX_JSON_CHECK_SIZE),
{
    len <= MAX_JSON_CHECK_SIZE
}

/// Parses a configuration file of `len` bytes whose contents are
/// `contents`; files above `MAX_JSON_CHECK_SIZE` pass unread.
pub fn maybe_json_corrupt(len: u64, contents: &[u8]) -> (r: Result<(), String>)
    ensures
        len > MAX_JSON_CHECK_SIZE ==> r is Ok,
        len <= MAX_JSON_CHECK_SIZE ==> match json_error_text(contents@) {
            None => r is Ok,
            Some(e) => r matches Err(m) && m@ == "JSON parse error: "@ + e,
        },
{
    if len > MAX_JSON_CHECK_SIZE {
        return Ok(());
    }
    match json_value_error(contents) {
        None => Ok(()),
        Some(e) => Err(concat("JSON parse error: ", e.as_str())),
    }
}

// ---------------------------------------------------------------------------
// ZIP archives
// ---------------------------------------------------------------------------

/// How many entries of an archive with `entries` entries are test-read.
pub fn zip_probe_count(entries: usize) -> (n: usize)
    ensures
        n == (if entries < 5 { entries } else { 5 }),
{
    if entries < 5 {
        entries
    } else {
        5
    }
}

/// Index of the first error among `errs[..n]`, or `n`.
pub open spec fn first_error(errs: Seq<Option<String>>, n: int) -> int
    decreases n,
{
    if n <= 0 {
        0
    } else if first_error(errs, n - 1) < n - 1 {
        first_error(errs, n - 1)
    } else if errs[n - 1] is Some {
        n - 1
    } else {
        n
    }
}

/// The verdict on an archive: `index` is the entry count, or the error of
/// reading its index; `entry_errors` the outcome of test-reading its first
/// entries, in order, up to the first failure.
pub open spec fn zip_verdict_spec(
    index: Result<usize, Seq<char>>,
    entry_errors: Seq<Option<String>>,
) -> Result<(), Seq<char>> {
    match index {
        Err(e) => Err("ZIP index parse failed: "@ + e),
        Ok(n) => if n == 0 {
            Err("ZIP has no entries"@)
        } else {
            let probes = if n < 5 { n as int } else { 5 };
            let k = if entry_errors.len() < probes { entry_errors.len() as int } else { probes };
            let f = first_error(entry_errors, k);
            if f < k {
                Err("ZIP entry read failed: "@ + entry_errors[f]->Some_0@)
            } else if f == 0 {
                Err("ZIP entries unreadable"@)
            } else {
                Ok(())
            }
        },
    }
}

pub fn zip_verdict(index: Result<usize, String>, entry_errors: &Vec<Option<String>>) -> (r: Result<(), String>)
    ensures
        match (r, zip_verdict_spec(
            match index {
                Ok(n) => Ok(n),
                Err(e) => Err(e@),
            },
            entry_errors@,
        )) {
            (Ok(()), Ok(())) => true,
            (Err(a), Err(b)) => a@ == b,
            _ => false,
        },
{
    match index {
        Err(e) => Err(concat("ZIP index parse failed: ", e.as_str())),
        Ok(n) => {
            if n == 0 {
                return Err(copy_str("ZIP has no entries"));
            }
            let probes = zip_probe_count(n);
            let k = if entry_errors.len() < probes {
                entry_errors.len()
            } else {
                probes
            };
            let mut i: usize = 0;
            while i < k
                invariant
                    i <= k,
                    index is Ok && index->Ok_0 == n,
                    n > 0,
                    probes == (if n < 5 { n } else { 5 }),
                    k == (if entry_errors@.len() < probes { entry_errors@.len() as int } else { probes as int }),
                    k <= entry_errors@.len(),
                    first_error(entry_errors@, i as int) == i,
                decreases k - i,
            {
                match &entry_errors[i] {
                    Some(e) => {
                        proof {
                            lemma_first_error_stays(entry_errors@, i as int, k as int);
                            assert(entry_errors@[i as int]->Some_0 == *e);
                        }
                        let m = concat("ZIP entry read failed: ", e.as_str());
                        assert(zip_verdict_spec(Ok(n), entry_errors@) == Err::<(), Seq<char>>(
                            "ZIP entry read failed: "@ + e@,
                        ));
                        return Err(m);
                    },
                    None => {},
                }
                i = i + 1;
            }
            if i == 0 {
                Err(copy_str("ZIP entries unreadable"))
            } else {
                Ok(())
            }
        },
    }
}

proof fn lemma_first_error_stays(errs: Seq<Option<String>>, i: int, k: int)
    requires
        0 <= i < k <= errs.len(),
        first_error(errs, i) == i,
        errs[i] is Some,
    ensures
        first_error(errs, k) == i,
    decreases k - i,
{
    if k > i + 1 {
        lemma_first_error_stays(errs, i, k - 1);
    }
}

// ---------------------------------------------------------------------------
// Orphan application folders
// ---------------------------------------------------------------------------

/// Walk state over the files of a folder: (files counted, exe seen, dll
/// seen); the walk stops once both kinds were seen.
pub open spec fn orphan_walk(exts: Seq<Seq<char>>, n: int) -> (nat, bool, bool)
    decreases n,
{
    if n <= 0 {
        (0, false, false)
    } else {
        let (c, exe, dll) = orphan_walk(exts, n - 1);
        if exe && dll {
            (c, exe, dll)
        } else {
            (c + 1, exe || exts[n - 1] == "exe"@, dll || exts[n - 1] == "dll"@)
        }
    }
}

/// An application folder is an orphan when, among its first
/// `MAX_APP_DIR_FILES` files, there are libraries but no executable and
/// more than ten files were counted.
pub open spec fn is_orphan_spec(files: Seq<Seq<char>>) -> bool {
    let n = if files.len() < MAX_APP_DIR_FILES { files.len() as int } else { MAX_APP_DIR_FILES as int };
    let exts = Seq::new(files.len(), |i: int| lower_ext_or_empty(files[i]));
    let (c, exe, dll) = orphan_walk(exts, n);
    dll && !exe && c > 10
}

/// Decides whether an application folder lacks an entry point, from the
/// paths of its files in walk order.
pub fn is_orphan_app_dir(files: &Vec<String>) -> (r: bool)
    ensures
        r == is_orphan_spec(texts(files@)),
{
    let ghost tf = texts(files@);
    let ghost exts = Seq::new(tf.len(), |i: int| lower_ext_or_empty(tf[i]));
    let n = if files.len() < MAX_APP_DIR_FILES {
        files.len()
    } else {
        MAX_APP_DIR_FILES
    };
    let mut count: usize = 0;
    let mut has_exe = false;
    let mut has_dll = false;
    let mut i: usize = 0;
    while i < n && !(has_exe && has_dll)
        invariant
            i <= n,
            n <= files@.len(),
            n <= MAX_APP_DIR_FILES,
            tf == texts(files@),
            exts == Seq::new(tf.len(), |i: int| lower_ext_or_empty(tf[i])),
            orphan_walk(exts, i as int) == (count as nat, has_exe, has_dll),
            count <= i,
        decreases n - i,
    {
        let p = to_chars(files[i].as_str());
        let e = lower_ext_or_empty_exec(&p);
        count = count + 1;
        if is_literal(&e, "exe") {
            has_exe = true;
        }
        if is_literal(&e, "dll") {
            has_dll = true;
        }
        i = i + 1;
    }
    proof {
        if i < n {
            lemma_orphan_walk_done(exts, i as int, n as int);
        }
    }
    has_dll && !has_exe && count > 10
}

proof fn lemma_orphan_walk_done(exts: Seq<Seq<char>>, i: int, n: int)
    requires
        0 <= i <= n,
        orphan_walk(exts, i).1 && orphan_walk(exts, i).2,
    ensures
        orphan_walk(exts, n) == orphan_walk(exts, i),
    decreases n - i,
{
    if n > i {
        lemma_orphan_walk_done(exts, i, n - 1);
    }
}

// ---------------------------------------------------------------------------
// Sibling version clashes
// ---------------------------------------------------------------------------

/// The lower-cased stem of a path, or the empty text.
pub open spec fn stem_key(p: Seq<char>) -> Seq<char> {
    match file_stem(p) {
        Some(s) => lower(s),
        None => Seq::empty(),
    }
}

/// Scan over folder entries (`None` for entries that are not files):
/// (first size seen per stem, clashes).
pub open spec fn clash_walk(entries: Seq<Option<(Seq<char>, u64)>>, n: int) -> (Map<Seq<char>, u64>, nat)
    decreases n,
{
    if n <= 0 {
        (Map::empty(), 0)
    } else {
        let (seen, clashes) = clash_walk(entries, n - 1);
        match entries[n - 1] {
            None => (seen, clashes),
            Some((p, size)) => {
                let k = stem_key(p);
                if seen.contains_key(k) {
                    if seen[k] != size {
                        (seen, clashes + 1)
                    } else {
                        (seen, clashes)
                    }
                } else {
                    (seen.insert(k, size), clashes)
                }
            },
        }
    }
}

pub open spec fn entry_views(v: Seq<Option<(String, u64)>>) -> Seq<Option<(Seq<char>, u64)>> {
    Seq::new(
        v.len(),
        |i: int|
            match v[i] {
                Some((p, s)) => Some((p@, s)),
                None => None,
            },
    )
}

/// Number of files, among the first `MAX_SIBLING_ENTRIES` entries of a
/// folder, whose lower-cased stem was seen before with another size.
pub open spec fn sibling_clashes_spec(entries: Seq<Option<(Seq<char>, u64)>>) -> nat {
    let n = if entries.len() < MAX_SIBLING_ENTRIES { entries.len() as int } else { MAX_SIBLING_ENTRIES as int };
    clash_walk(entries, n).1
}

fn stem_key_exec(p: &Vec<char>) -> (k: Vec<char>)
    ensures
        k@ == stem_key(p@),
{
    match file_stem_exec(p) {
        Some(s) => lower_chars(&s),
        None => {
            let v: Vec<char> = Vec::new();
            assert(v@ =~= Seq::<char>::empty());
            v
        },
    }
}

fn find_key(keys: &Vec<Vec<char>>, k: &Vec<char>) -> (r: Option<usize>)
    ensures
        r matches Some(t) ==> (t < keys@.len() && keys@[t as int]@ == k@),
        r is None ==> forall|u: int| 0 <= u < keys@.len() ==> keys@[u]@ != k@,
{
    let mut t: usize = 0;
    while t < keys.len()
        invariant
            t <= keys@.len(),
            forall|u: int| 0 <= u < t ==> keys@[u]@ != k@,
        decreases keys.len() - t,
    {
        if chars_eq(&keys[t], k) {
            return Some(t);
        }
        t = t + 1;
    }
    None
}

/// Counts the files of a folder whose stem repeats with another size.
pub fn count_sibling_clashes(entries: &Vec<Option<(String, u64)>>) -> (n: usize)
    ensures
        n == sibling_clashes_spec(entry_views(entries@)),
{
    let ghost ev = entry_views(entries@);
    let lim = if entries.len() < MAX_SIBLING_ENTRIES {
        entries.len()
    } else {
        MAX_SIBLING_ENTRIES
    };
    let mut keys: Vec<Vec<char>> = Vec::new();
    let mut sizes: Vec<u64> = Vec::new();
    let mut clashes: usize = 0;
    let mut i: usize = 0;
    while i < lim
        invariant
            i <= lim,
            lim <= entries@.len(),
            ev == entry_views(entries@),
            keys@.len() == sizes@.len(),
            clashes <= i,
            clash_walk(ev, i as int).1 == clashes,
            forall|k: Seq<char>| #[trigger] clash_walk(ev, i as int).0.contains_key(k) <==> exists|t: int|
                0 <= t < keys@.len() && keys@[t]@ == k,
            forall|t: int|
                0 <= t < keys@.len() ==> clash_walk(ev, i as int).0.contains_key(keys@[t]@)
                    && clash_walk(ev, i as int).0[keys@[t]@] == sizes@[t],
        decreases lim - i,
    {
        let ghost seen = clash_walk(ev, i as int).0;
        match &entries[i] {
            None => {},
            Some((path, size)) => {
                let p = to_chars(path.as_str());
                let k = stem_key_exec(&p);
                assert(ev[i as int] == Some((path@, *size)));
                match find_key(&keys, &k) {
                    Some(t) => {
                        assert(keys@[t as int]@ == k@);
                        if sizes[t] != *size {
                            clashes = clashes + 1;
                        }
                    },
                    None => {
                        proof {
                            if seen.contains_key(k@) {
                                let u = choose|u: int| 0 <= u < keys@.len() && keys@[u]@ == k@;
                                assert(false);
                            }
                        }
                        let ghost old_keys = keys@;
                        keys.push(k);
                        sizes.push(*size);
                        proof {
                            let nseen = seen.insert(k@, *size);
                            assert forall|kk: Seq<char>| #[trigger] nseen.contains_key(kk) <==> exists|tt: int|
                                0 <= tt < keys@.len() && keys@[tt]@ == kk by {
                                if nseen.contains_key(kk) && kk != k@ {
                                    let tt = choose|tt: int| 0 <= tt < old_keys.len() && old_keys[tt]@ == kk;
                                    assert(keys@[tt]@ == kk);
                                }
                                if kk == k@ {
                                    assert(keys@[keys@.len() - 1]@ == kk);
                                }
                            }
                        }
                    },
                }
            },
        }
        i = i + 1;
    }
    clashes
}

/// The folder key under which a file's siblings are examined: its parent,
/// or the empty text.
pub open spec fn parent_key(p: Seq<char>) -> Seq<char> {
    match parent(p) {
        Some(q) => q,
        None => Seq::empty(),
    }
}

/// Claims the parent folder of `path` for a sibling examination: returns it
/// when it is not empty and was not claimed before, and records it.
pub fn claim_parent(claimed: &mut Vec<String>, path: &str) -> (r: Option<String>)
    ensures
        ({
            let k = parent_key(path@);
            if k.len() > 0 && !texts(old(claimed)@).contains(k) {
                &&& r matches Some(s) && s@ == k
                &&& texts(final(claimed)@) == texts(old(claimed)@).push(k)
            } else {
                &&& r is None
                &&& final(claimed)@ == old(claimed)@
            }
        }),
{
    let p = to_chars(path);
    let key = match parent_exec(&p) {
        Some(q) => q,
        None => {
            let v: Vec<char> = Vec::new();
            assert(v@ =~= Seq::<char>::empty());
            v
        },
    };
    if key.len() == 0 {
        return None;
    }
    let ghost before = texts(claimed@);
    // Files of one folder come together, so look from the most recent claim.
    let mut t: usize = claimed.len();
    while t > 0
        invariant
            t <= claimed@.len(),
            key@ == parent_key(path@),
            forall|u: int| t <= u < claimed@.len() ==> claimed@[u]@ != key@,
        decreases t,
    {
        let c = to_chars(claimed[t - 1].as_str());
        if chars_eq(&c, &key) {
            assert(texts(claimed@)[t - 1] == key@);
            assert(texts(claimed@).contains(key@));
            assert(key@ == parent_key(path@));
            return None;
        }
        t = t - 1;
    }
    proof {
        if texts(claimed@).contains(key@) {
            let u = choose|u: int| 0 <= u < texts(claimed@).len() && texts(claimed@)[u] == key@;
            assert(claimed@[u]@ == key@);
        }
    }
    let s = from_chars(&key);
    claimed.push(s.clone());
    assert(texts(claimed@) =~= before.push(key@));
    Some(s)
}

// ---------------------------------------------------------------------------
// Per-file issues
// ---------------------------------------------------------------------------

/// What the caller found out about one file.
pub struct FileFacts {
    /// The file's length, or the text of the error reading its metadata.
    pub metadata: Result<u64, String>,
    /// The PE header verdict, for executables and libraries.
    pub pe_header: Option<Result<(), String>>,
    /// The archive verdict, for ZIP files.
    pub zip_archive: Option<Result<(), String>>,
    /// The parse verdict, for configuration files.
    pub config_parse: Option<Result<(), String>>,
    /// The folder this file claimed for a sibling examination, with the
    /// number of clashes found there.
    pub sibling_clashes: Option<(String, usize)>,
}

pub type IssueView = (Seq<char>, Seq<char>, Seq<char>, Seq<char>, Seq<char>);

/// An issue from a failed verdict, if it failed.
pub open spec fn verdict_issue(
    v: Option<Result<(), String>>,
    check: Seq<char>,
    severity: Seq<char>,
    path: Seq<char>,
    hint: Seq<char>,
) -> Seq<IssueView> {
    match v {
        Some(Err(e)) => seq![(check, severity, path, e@, hint)],
        _ => Seq::empty(),
    }
}

pub open spec fn zero_issue(path: Seq<char>, len: u64) -> Seq<IssueView> {
    if len == 0 {
        seq![
            (
                "Zero-byte File"@,
                "warning"@,
                path,
                "File length is zero bytes."@,
                "Validate if this file is expected; reinstall app if needed."@,
            ),
        ]
    } else {
        Seq::empty()
    }
}

pub open spec fn partial_issue(path: Seq<char>) -> Seq<IssueView> {
    if partial_download_ext(lower_ext_or_empty(path)) {
        seq![
            (
                "Partial Download Artifact"@,
                "info"@,
                path,
                "Download appears incomplete or interrupted."@,
                "Retry the download and remove stale partial artifacts."@,
            ),
        ]
    } else {
        Seq::empty()
    }
}

pub open spec fn executable_issues(path: Seq<char>, len: u64, pe: Option<Result<(), String>>) -> Seq<IssueView> {
    if executable_ext(lower_ext_or_empty(path)) {
        (if len < 4096 {
            seq![
                (
                    "Tiny Executable/Library"@,
                    "critical"@,
                    path,
                    "Executable/library size is unexpectedly small."@,
                    "Reinstall this application from a trusted source."@,
                ),
            ]
        } else {
            Seq::empty()
        }) + verdict_issue(
            pe,
            "PE Header Corruption"@,
            "critical"@,
            path,
            "Replace or reinstall the affected executable/library."@,
        )
    } else {
        Seq::empty()
    }
}

pub open spec fn zip_issue(path: Seq<char>, zip: Option<Result<(), String>>) -> Seq<IssueView> {
    if lower_ext_or_empty(path) == "zip"@ {
        verdict_issue(
            zip,
            "ZIP Archive Integrity"@,
            "warning"@,
            path,
            "Re-extract or re-download this archive."@,
        )
    } else {
        Seq::empty()
    }
}

pub open spec fn config_issue(path: Seq<char>, cfg: Option<Result<(), String>>) -> Seq<IssueView> {
    if config_ext(lower_ext_or_empty(path)) {
        verdict_issue(
            cfg,
            "Config Parse Error"@,
            "warning"@,
            path,
            "Repair syntax or restore from backup."@,
        )
    } else {
        Seq::empty()
    }
}

pub open spec fn sibling_issue(sib: Option<(String, usize)>) -> Seq<IssueView> {
    match sib {
        Some((dir, n)) => if n > 4 {
            seq![
                (
                    "Sibling Version Clash"@,
                    "info"@,
                    dir@,
                    "Found multiple files with same stem and differing sizes ("@ + decimal(n as nat)
                        + " clashes)."@,
                    "Review folder for mixed partial versions and stale extractions."@,
                ),
            ]
        } else {
            Seq::empty()
        },
        None => Seq::empty(),
    }
}

/// The issues that the facts about one file raise, in the order the checks
/// run.
pub open spec fn file_issues_spec(path: Seq<char>, f: FileFacts) -> Seq<IssueView> {
    match f.metadata {
        Err(e) => seq![
            (
                "Metadata Access"@,
                "critical"@,
                path,
                "Metadata read failed: "@ + e@,
                "Check file system permissions and disk health."@,
            ),
        ],
        Ok(len) => zero_issue(path, len) + partial_issue(path) + executable_issues(path, len, f.pe_header)
            + zip_issue(path, f.zip_archive) + config_issue(path, f.config_parse) + sibling_issue(
            f.sibling_clashes,
        ),
    }
}

fn push_verdict(
    issues: &mut Vec<IntegrityIssue>,
    v: &Option<Result<(), String>>,
    check: &str,
    severity: &str,
    path: &str,
    hint: &str,
)
    ensures
        issue_views(final(issues)@) == issue_views(old(issues)@) + verdict_issue(
            *v,
            check@,
            severity@,
            path@,
            hint@,
        ),
{
    let ghost before = issue_views(issues@);
    match v {
        Some(Err(e)) => {
            push_issue(issues, check, severity, copy_str(path), e.clone(), hint);
            assert(issue_views(issues@) =~= before + verdict_issue(*v, check@, severity@, path@, hint@));
        },
        _ => {
            assert(issue_views(issues@) =~= before + verdict_issue(*v, check@, severity@, path@, hint@));
        },
    }
}

fn push_zero_partial(issues: &mut Vec<IntegrityIssue>, path: &str, len: u64)
    ensures
        issue_views(final(issues)@) == issue_views(old(issues)@) + zero_issue(path@, len) + partial_issue(path@),
{
    let ghost s0 = issue_views(issues@);
    if len == 0 {
        push_issue(
            issues,
            "Zero-byte File",
            "warning",
            copy_str(path),
            copy_str("File length is zero bytes."),
            "Validate if this file is expected; reinstall app if needed.",
        );
    }
    assert(issue_views(issues@) =~= s0 + zero_issue(path@, len));
    let ghost s1 = issue_views(issues@);
    if looks_partial_download(path) {
        push_issue(
            issues,
            "Partial Download Artifact",
            "info",
            copy_str(path),
            copy_str("Download appears incomplete or interrupted."),
            "Retry the download and remove stale partial artifacts.",
        );
    }
    assert(issue_views(issues@) =~= s1 + partial_issue(path@));
}

fn push_executable_issues(issues: &mut Vec<IntegrityIssue>, path: &str, len: u64, pe: &Option<Result<(), String>>)
    ensures
        issue_views(final(issues)@) == issue_views(old(issues)@) + executable_issues(path@, len, *pe),
{
    let ghost s0 = issue_views(issues@);
    if is_executable_or_lib(path) {
        if len < 4096 {
            push_issue(
                issues,
                "Tiny Executable/Library",
                "critical",
                copy_str(path),
                copy_str("Executable/library size is unexpectedly small."),
                "Reinstall this application from a trusted source.",
            );
        }
        let ghost s1 = issue_views(issues@);
        push_verdict(
            issues,
            pe,
            "PE Header Corruption",
            "critical",
            path,
            "Replace or reinstall the affected executable/library.",
        );
        assert(issue_views(issues@) =~= s0 + executable_issues(path@, len, *pe));
    } else {
        assert(issue_views(issues@) =~= s0 + executable_issues(path@, len, *pe));
    }
}

fn push_archive_config_issues(
    issues: &mut Vec<IntegrityIssue>,
    path: &str,
    zip: &Option<Result<(), String>>,
    cfg: &Option<Result<(), String>>,
)
    ensures
        issue_views(final(issues)@) == issue_views(old(issues)@) + zip_issue(path@, *zip) + config_issue(path@, *cfg),
{
    let ghost s0 = issue_views(issues@);
    if is_zip_ext(path) {
        push_verdict(issues, zip, "ZIP Archive Integrity", "warning", path, "Re-extract or re-download this archive.");
    }
    assert(issue_views(issues@) =~= s0 + zip_issue(path@, *zip));
    let ghost s1 = issue_views(issues@);
    if is_config_ext(path) {
        push_verdict(issues, cfg, "Config Parse Error", "warning", path, "Repair syntax or restore from backup.");
    }
    assert(issue_views(issues@) =~= s1 + config_issue(path@, *cfg));
}

fn push_sibling_issue(issues: &mut Vec<IntegrityIssue>, sib: &Option<(String, usize)>)
    ensures
        issue_views(final(issues)@) == issue_views(old(issues)@) + sibling_issue(*sib),
{
    let ghost s0 = issue_views(issues@);
    match sib {
        Some((dir, n)) => {
            if *n > 4 {
                let count = usize_string(*n);
                let details = concat3(
                    "Found multiple files with same stem and differing sizes (",
                    count.as_str(),
                    " clashes).",
                );
                push_issue(
                    issues,
                    "Sibling Version Clash",
                    "info",
                    dir.clone(),
                    details,
                    "Review folder for mixed partial versions and stale extractions.",
                );
            }
        },
        None => {},
    }
    assert(issue_views(issues@) =~= s0 + sibling_issue(*sib));
}

/// Raises the issues that the facts about one file call for.
#[verifier::spinoff_prover]
#[verifier::rlimit(40)]
pub fn file_issues(issues: &mut Vec<IntegrityIssue>, path: &str, facts: &FileFacts)
    ensures
        issue_views(final(issues)@) == issue_views(old(issues)@) + file_issues_spec(path@, *facts),
{
    let ghost start = issue_views(issues@);
    match &facts.metadata {
        Err(e) => {
            push_issue(
                issues,
                "Metadata Access",
                "critical",
                copy_str(path),
                concat("Metadata read failed: ", e.as_str()),
                "Check file system permissions and disk health.",
            );
            assert(issue_views(issues@) =~= start + file_issues_spec(path@, *facts));
        },
        Ok(len) => {
            let len = *len;
            push_zero_partial(issues, path, len);
            let ghost s1 = issue_views(issues@);
            push_executable_issues(issues, path, len, &facts.pe_header);
            let ghost s2 = issue_views(issues@);
            push_archive_config_issues(issues, path, &facts.zip_archive, &facts.config_parse);
            let ghost s3 = issue_views(issues@);
            push_sibling_issue(issues, &facts.sibling_clashes);
            proof {
                let z = zero_issue(path@, len);
                let pa = partial_issue(path@);
                let e = executable_issues(path@, len, facts.pe_header);
                let zi = zip_issue(path@, facts.zip_archive);
                let c = config_issue(path@, facts.config_parse);
                let sb = sibling_issue(facts.sibling_clashes);
                assert(file_issues_spec(path@, *facts) == z + pa + e + zi + c + sb);
                assert(issue_views(issues@) =~= start + (z + pa + e + zi + c + sb));
            }
        },
    }
}

// ---------------------------------------------------------------------------
// Startup folders
// ---------------------------------------------------------------------------

/// Number of shortcut files (`.lnk`, `.url`) among `files[..n]`.
pub open spec fn shortcut_count(files: Seq<Seq<char>>, n: int) -> nat
    decreases n,
{
    if n <= 0 {
        0
    } else {
        let e = lower_ext_or_empty(files[n - 1]);
        shortcut_count(files, n - 1) + if e == "lnk"@ || e == "url"@ {
            1nat
        } else {
            0nat
        }
    }
}

/// Counts the shortcuts among the files of a startup folder.
pub fn count_shortcuts(files: &Vec<String>) -> (n: usize)
    ensures
        n == shortcut_count(texts(files@), files@.len() as int),
{
    let ghost tf = texts(files@);
    let mut n: usize = 0;
    let mut i: usize = 0;
    while i < files.len()
        invariant
            i <= files@.len(),
            tf == texts(files@),
            n == shortcut_count(tf, i as int),
            n <= i,
        decreases files.len() - i,
    {
        let p = to_chars(files[i].as_str());
        let e = lower_ext_or_empty_exec(&p);
        if is_literal(&e, "lnk") || is_literal(&e, "url") {
            n = n + 1;
        }
        i = i + 1;
    }
    n
}

/// Raises the saturation issue for a startup folder holding more than
/// forty shortcuts.
pub fn startup_folder_issue(issues: &mut Vec<IntegrityIssue>, dir: &str, shortcuts: usize)
    ensures
        issue_views(final(issues)@) == issue_views(old(issues)@) + if shortcuts > 40 {
            seq![
                (
                    "Startup Entry Saturation"@,
                    "warning"@,
                    dir@,
                    "Startup folder contains "@ + decimal(shortcuts as nat) + " shortcut entries."@,
                    "Trim startup shortcuts and keep only essential launchers."@,
                ),
            ]
        } else {
            Seq::empty()
        },
{
    let ghost before = issue_views(issues@);
    if shortcuts > 40 {
        let count = usize_string(shortcuts);
        let details = concat3("Startup folder contains ", count.as_str(), " shortcut entries.");
        push_issue(
            issues,
            "Startup Entry Saturation",
            "warning",
            copy_str(dir),
            details,
            "Trim startup shortcuts and keep only essential launchers.",
        );
    } else {
        assert(issue_views(issues@) =~= before + Seq::empty());
    }
}

/// Raises the issue for an application folder without an entry point.
pub fn orphan_folder_issue(issues: &mut Vec<IntegrityIssue>, dir: String)
    ensures
        issue_views(final(issues)@) == issue_views(old(issues)@).push(
            (
                "Orphan App Folder"@,
                "warning"@,
                dir@,
                "App folder has libraries but no executable entrypoint."@,
                "Repair or uninstall/reinstall this app package."@,
            ),
        ),
{
    push_issue(
        issues,
        "Orphan App Folder",
        "warning",
        dir,
        copy_str("App folder has libraries but no executable entrypoint."),
        "Repair or uninstall/reinstall this app package.",
    );
}

/// The issue view of a startup folder holding `shortcuts` shortcuts.
pub open spec fn startup_issue_views(dir: Seq<char>, shortcuts: nat) -> Seq<(Seq<char>, Seq<char>, Seq<char>, Seq<char>, Seq<char>)> {
    if shortcuts > 40 {
        seq![
            (
                "Startup Entry Saturation"@,
                "warning"@,
                dir,
                "Startup folder contains "@ + decimal(shortcuts) + " shortcut entries."@,
                "Trim startup shortcuts and keep only essential launchers."@,
            ),
        ]
    } else {
        Seq::empty()
    }
}

/// The issue view of an application folder without an entry point.
pub open spec fn orphan_issue_view(dir: Seq<char>) -> (Seq<char>, Seq<char>, Seq<char>, Seq<char>, Seq<char>) {
    (
        "Orphan App Folder"@,
        "warning"@,
        dir,
        "App folder has libraries but no executable entrypoint."@,
        "Repair or uninstall/reinstall this app package."@,
    )
}

/// Startup folders as their path and the paths of the files directly in them.
pub open spec fn folder_views(folders: Seq<(String, Vec<String>)>) -> Seq<(Seq<char>, Seq<Seq<char>>)> {
    folders.map_values(|f: (String, Vec<String>)| (f.0@, texts(f.1@)))
}

/// The issues of the first `n` startup folders, in order.
pub open spec fn startup_folders_issues(folders: Seq<(Seq<char>, Seq<Seq<char>>)>, n: int) -> Seq<(Seq<char>, Seq<char>, Seq<char>, Seq<char>, Seq<char>)>
    decreases n,
{
    if n <= 0 {
        Seq::empty()
    } else {
        startup_folders_issues(folders, n - 1) + startup_issue_views(
            folders[n - 1].0,
            shortcut_count(folders[n - 1].1, folders[n - 1].1.len() as int),
        )
    }
}

/// The folder checks of a deep run: one issue per orphaned application
/// folder, then one per crowded startup folder.
pub open spec fn deep_folder_issue_views(
    orphans: Seq<Seq<char>>,
    startups: Seq<(Seq<char>, Seq<Seq<char>>)>,
) -> Seq<(Seq<char>, Seq<char>, Seq<char>, Seq<char>, Seq<char>)> {
    orphans.map_values(|d: Seq<char>| orphan_issue_view(d)) + startup_folders_issues(startups, startups.len() as int)
}

/// Raises the folder issues that only a deep run checks: orphaned
/// application folders and crowded startup folders. A quick run raises none.
pub fn deep_folder_issues(
    issues: &mut Vec<IntegrityIssue>,
    deep: bool,
    orphan_dirs: &Vec<String>,
    startup_folders: &Vec<(String, Vec<String>)>,
)
    ensures
        issue_views(final(issues)@) == issue_views(old(issues)@) + if deep {
            deep_folder_issue_views(texts(orphan_dirs@), folder_views(startup_folders@))
        } else {
            Seq::empty()
        },
{
    let ghost start = issue_views(issues@);
    if !deep {
        assert(issue_views(issues@) =~= start + Seq::empty());
        return;
    }
    let ghost od = texts(orphan_dirs@);
    let ghost orphans = od.map_values(|d: Seq<char>| orphan_issue_view(d));
    let mut i: usize = 0;
    while i < orphan_dirs.len()
        invariant
            i <= orphan_dirs@.len(),
            od == texts(orphan_dirs@),
            orphans == od.map_values(|d: Seq<char>| orphan_issue_view(d)),
            issue_views(issues@) == start + orphans.subrange(0, i as int),
        decreases orphan_dirs.len() - i,
    {
        let ghost before = issue_views(issues@);
        orphan_folder_issue(issues, copy_str(orphan_dirs[i].as_str()));
        assert(orphans.subrange(0, i + 1) =~= orphans.subrange(0, i as int).push(orphans[i as int]));
        assert(issue_views(issues@) =~= start + orphans.subrange(0, i + 1));
        i = i + 1;
    }
    assert(orphans.subrange(0, i as int) =~= orphans);
    let ghost fv = folder_views(startup_folders@);
    let ghost mid = issue_views(issues@);
    let mut k: usize = 0;
    while k < startup_folders.len()
        invariant
            k <= startup_folders@.len(),
            fv == folder_views(startup_folders@),
            issue_views(issues@) == mid + startup_folders_issues(fv, k as int),
        decreases startup_folders.len() - k,
    {
        let n = count_shortcuts(&startup_folders[k].1);
        startup_folder_issue(issues, startup_folders[k].0.as_str(), n);
        assert(fv[k as int].1 == texts(startup_folders@[k as int].1@));
        assert(issue_views(issues@) =~= mid + startup_folders_issues(fv, k + 1));
        k = k + 1;
    }
    assert(issue_views(issues@) =~= start + deep_folder_issue_views(od, fv));
}

// ---------------------------------------------------------------------------
// Report
// ---------------------------------------------------------------------------

/// Number of issues of `issues[..n]` with the given severity.
pub open spec fn severity_count(issues: Seq<IntegrityIssue>, sev: Seq<char>, n: int) -> nat
    decreases n,
{
    if n <= 0 {
        0
    } else {
        severity_count(issues, sev, n - 1) + if issues[n - 1].severity@ == sev {
            1nat
        } else {
            0nat
        }
    }
}

/// The integrity score: 100, less 7 per critical issue, 3 per warning and
/// 1 per informational issue, but never below 5.
pub open spec fn integrity_score_spec(critical: int, warning: int, info: int) -> int {
    let s = 100 - 7 * critical - 3 * warning - info;
    if s < 5 {
        5
    } else {
        s
    }
}

pub fn integrity_score(critical: usize, warning: usize, info: usize) -> (score: u8)
    ensures
        score as int == integrity_score_spec(critical as int, warning as int, info as int),
{
    let penalty: u128 = 7 * (critical as u128) + 3 * (warning as u128) + (info as u128);
    if penalty >= 95 {
        5
    } else {
        (100 - penalty) as u8
    }
}

fn count_severity(issues: &Vec<IntegrityIssue>, sev: &str) -> (n: usize)
    ensures
        n == severity_count(issues@, sev@, issues@.len() as int),
{
    let s = to_chars(sev);
    let mut n: usize = 0;
    let mut i: usize = 0;
    while i < issues.len()
        invariant
            i <= issues@.len(),
            s@ == sev@,
            n == severity_count(issues@, sev@, i as int),
            n <= i,
        decreases issues.len() - i,
    {
        let v = to_chars(issues[i].severity.as_str());
        if chars_eq(&v, &s) {
            n = n + 1;
        }
        i = i + 1;
    }
    n
}

/// The integrity report for the issues found: severity counts, score, and
/// the number of checks run (twelve in deep mode, nine otherwise).
pub fn assemble_integrity_report(
    generated_at: String,
    roots: &Vec<String>,
    files_scanned: usize,
    issues: Vec<IntegrityIssue>,
    deep: bool,
) -> (report: IntegrityReport)
    ensures
        report.generated_at == generated_at,
        report.roots_scanned@ == roots@,
        report.files_scanned == files_scanned,
        report.issues@ == issues@,
        report.critical_count == severity_count(issues@, "critical"@, issues@.len() as int),
        report.warning_count == severity_count(issues@, "warning"@, issues@.len() as int),
        report.info_count == severity_count(issues@, "info"@, issues@.len() as int),
        report.integrity_score as int == integrity_score_spec(
            report.critical_count as int,
            report.warning_count as int,
            report.info_count as int,
        ),
        report.check_count == (if deep { 12usize } else { 9usize }),
{
    let critical_count = count_severity(&issues, "critical");
    let warning_count = count_severity(&issues, "warning");
    let info_count = count_severity(&issues, "info");
    let integrity_score = integrity_score(critical_count, warning_count, info_count);
    IntegrityReport {
        generated_at,
        roots_scanned: roots.clone(),
        files_scanned,
        issues,
        integrity_score,
        critical_count,
        warning_count,
        info_count,
        check_count: if deep {
            12
        } else {
            9
        },
    }
}

} // verus!
