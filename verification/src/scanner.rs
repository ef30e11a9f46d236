//! Duplicate and leftover detection over the files found under the scan
//! roots, and the choice of cleanup candidates.
//!
//! Walking the roots, reading sizes and reading file contents are the
//! caller's work; this module decides what the facts mean.

use vstd::prelude::*;
use crate::models::{LeftoverHit, DuplicateGroup, ScanSummary, texts, hit_views};
use std::collections::HashMap;
use crate::paths::{
    file_name, parent, extension, file_stem, file_name_exec, parent_exec, extension_exec,
    file_stem_exec,
};
use crate::text::{
    lower, contains, ends_with, lower_chars, contains_chars, ends_with_chars, chars_eq, to_chars,
    copy_str, concat, from_chars,
};
use crate::laws::law_duplicate_group_files_distinct;
use crate::order::{is_stable_desc_order, stable_desc_order, is_stable_path_order, stable_path_order};

verus! {

pub type HitView = (Seq<char>, Seq<char>, Seq<char>);

// ---------------------------------------------------------------------------
// Leftover detection: specification
// ---------------------------------------------------------------------------

/// Archive extensions, compared case-insensitively.
pub open spec fn is_archive_ext(e: Seq<char>) -> bool {
    let l = lower(e);
    ||| l == "zip"@
    ||| l == "rar"@
    ||| l == "7z"@
    ||| l == "tar"@
    ||| l == "gz"@
    ||| l == "bz2"@
    ||| l == "xz"@
    ||| l == "iso"@
}

/// An installer such as `*setup*.exe`.
pub open spec fn installer_hit(f: Seq<char>) -> Seq<HitView> {
    match file_name(f) {
        Some(n) => if contains(lower(n), "setup"@) && ends_with(lower(n), ".exe"@) {
            seq![
                ("Installer Leftover"@, f, "Executable installer likely no longer needed after install"@),
            ]
        } else {
            Seq::empty()
        },
        None => Seq::empty(),
    }
}

/// A `.tmp`, `.old` or `.bak` file.
pub open spec fn temp_hit(f: Seq<char>) -> Seq<HitView> {
    match file_name(f) {
        Some(n) => if ends_with(lower(n), ".tmp"@) || ends_with(lower(n), ".old"@) || ends_with(
            lower(n),
            ".bak"@,
        ) {
            seq![("Temporary/Backup Leftover"@, f, "Temporary or backup artifact"@)]
        } else {
            Seq::empty()
        },
        None => Seq::empty(),
    }
}

/// A file whose folder name mentions an extraction.
pub open spec fn extraction_hit(f: Seq<char>) -> Seq<HitView> {
    match parent(f) {
        Some(p) => match file_name(p) {
            Some(d) => if contains(lower(d), "extract"@) || contains(lower(d), "unpack"@) {
                seq![
                    ("Extraction Leftover"@, f, "File appears inside extraction workspace"@),
                ]
            } else {
                Seq::empty()
            },
            None => Seq::empty(),
        },
        None => Seq::empty(),
    }
}

/// The lower-cased stem under which an archive file is remembered.
pub open spec fn archive_key(f: Seq<char>) -> Option<Seq<char>> {
    match extension(f) {
        Some(e) => if is_archive_ext(e) {
            match file_stem(f) {
                Some(st) => Some(lower(st)),
                None => None,
            }
        } else {
            None
        },
        None => None,
    }
}

/// The last of `files[..n]` that is an archive remembered under `key`.
pub open spec fn last_archive(files: Seq<Seq<char>>, key: Seq<char>, n: int) -> Option<int>
    decreases n,
{
    if n <= 0 {
        None
    } else if archive_key(files[n - 1]) == Some(key) {
        Some(n - 1)
    } else {
        last_archive(files, key, n - 1)
    }
}

/// A file whose lower-cased stem is that of an archive in the scan.
pub open spec fn pair_hit(files: Seq<Seq<char>>, i: int) -> Seq<HitView> {
    match file_stem(files[i]) {
        Some(st) => match last_archive(files, lower(st), files.len() as int) {
            Some(j) => seq![
                (
                    "Archive + Extracted Pair"@,
                    files[i],
                    "Possible extracted copy while archive still exists at "@ + files[j],
                ),
            ],
            None => Seq::empty(),
        },
        None => Seq::empty(),
    }
}

/// Hits of the first pass (file names) over `files[..n]`.
pub open spec fn name_pass(files: Seq<Seq<char>>, n: int) -> Seq<HitView>
    decreases n,
{
    if n <= 0 {
        Seq::empty()
    } else {
        name_pass(files, n - 1) + installer_hit(files[n - 1]) + temp_hit(files[n - 1])
    }
}

/// Hits of the second pass (folders and archive pairs) over `files[..n]`.
pub open spec fn folder_pass(files: Seq<Seq<char>>, n: int) -> Seq<HitView>
    decreases n,
{
    if n <= 0 {
        Seq::empty()
    } else {
        folder_pass(files, n - 1) + extraction_hit(files[n - 1]) + pair_hit(files, n - 1)
    }
}

/// All leftover hits, in the order the two passes find them.
pub open spec fn leftovers_of(files: Seq<Seq<char>>) -> Seq<HitView> {
    name_pass(files, files.len() as int) + folder_pass(files, files.len() as int)
}

// ---------------------------------------------------------------------------
// Leftover detection: implementation
// ---------------------------------------------------------------------------

fn is_literal(v: &Vec<char>, lit: &str) -> (r: bool)
    ensures
        r == (v@ == lit@),
{
    let l = to_chars(lit);
    chars_eq(v, &l)
}

/// Is this extension one of the archive formats?
pub fn is_archive_ext_exec(e: &Vec<char>) -> (r: bool)
    ensures
        r == is_archive_ext(e@),
{
    let l = lower_chars(e);
    is_literal(&l, "zip") || is_literal(&l, "rar") || is_literal(&l, "7z") || is_literal(&l, "tar")
        || is_literal(&l, "gz") || is_literal(&l, "bz2") || is_literal(&l, "xz") || is_literal(
        &l,
        "iso",
    )
}

fn has_literal(v: &Vec<char>, lit: &str) -> (r: bool)
    ensures
        r == contains(v@, lit@),
{
    let l = to_chars(lit);
    contains_chars(v, &l)
}

fn ends_with_literal(v: &Vec<char>, lit: &str) -> (r: bool)
    ensures
        r == ends_with(v@, lit@),
{
    let l = to_chars(lit);
    ends_with_chars(v, &l)
}

fn hit(category: &str, path: &String, reason: &str) -> (h: LeftoverHit)
    ensures
        h@ == (category@, path@, reason@),
{
    LeftoverHit { category: copy_str(category), path: path.clone(), reason: copy_str(reason) }
}

fn push_name_hits(out: &mut Vec<LeftoverHit>, f: &String)
    ensures
        hit_views(final(out)@) == hit_views(old(out)@) + installer_hit(f@) + temp_hit(f@),
{
    let fc = to_chars(f.as_str());
    let ghost before = hit_views(out@);
    match file_name_exec(&fc) {
        Some(n) => {
            let lowered = lower_chars(&n);
            if has_literal(&lowered, "setup") && ends_with_literal(&lowered, ".exe") {
                out.push(
                    hit(
                        "Installer Leftover",
                        f,
                        "Executable installer likely no longer needed after install",
                    ),
                );
            }
            assert(hit_views(out@) == before + installer_hit(f@));
            let ghost mid = hit_views(out@);
            if ends_with_literal(&lowered, ".tmp") || ends_with_literal(&lowered, ".old")
                || ends_with_literal(&lowered, ".bak") {
                out.push(hit("Temporary/Backup Leftover", f, "Temporary or backup artifact"));
            }
            assert(hit_views(out@) == mid + temp_hit(f@));
        },
        None => {
            assert(hit_views(out@) =~= before + installer_hit(f@) + temp_hit(f@));
        },
    }
}

/// The lower-cased stem of an archive file.
fn archive_key_exec(f: &Vec<char>) -> (r: Option<Vec<char>>)
    ensures
        r matches Some(k) ==> archive_key(f@) == Some(k@),
        r is None ==> archive_key(f@) is None,
{
    match extension_exec(f) {
        Some(e) => {
            if is_archive_ext_exec(&e) {
                match file_stem_exec(f) {
                    Some(st) => Some(lower_chars(&st)),
                    None => None,
                }
            } else {
                None
            }
        },
        None => None,
    }
}

/// `cj` lists, in increasing order, every index of `files[..n]` that is an
/// archive, and `ck` the key it is remembered under.
pub open spec fn archive_index(
    files: Seq<Seq<char>>,
    ck: Seq<Seq<char>>,
    cj: Seq<usize>,
    n: int,
) -> bool {
    &&& ck.len() == cj.len()
    &&& forall|t: int| 0 <= t < cj.len() ==> cj[t] < n && archive_key(files[cj[t] as int]) == Some(ck[t])
    &&& forall|t: int, u: int| 0 <= t < u < cj.len() ==> cj[t] < cj[u]
    &&& forall|j: int| 0 <= j < n && #[trigger] archive_key(files[j]) is Some ==> exists|t: int|
        0 <= t < cj.len() && cj[t] == j
}

proof fn lemma_last_archive_found(files: Seq<Seq<char>>, key: Seq<char>, n: int, j: int)
    requires
        0 <= j < n <= files.len(),
        archive_key(files[j]) == Some(key),
        forall|k: int| j < k < n ==> archive_key(files[k]) != Some(key),
    ensures
        last_archive(files, key, n) == Some(j),
    decreases n,
{
    if n - 1 > j {
        lemma_last_archive_found(files, key, n - 1, j);
    }
}

proof fn lemma_last_archive_absent(files: Seq<Seq<char>>, key: Seq<char>, n: int)
    requires
        0 <= n <= files.len(),
        forall|k: int| 0 <= k < n ==> archive_key(files[k]) != Some(key),
    ensures
        last_archive(files, key, n) is None,
    decreases n,
{
    if n > 0 {
        lemma_last_archive_absent(files, key, n - 1);
    }
}

fn find_archive(
    fs: &Vec<Vec<char>>,
    ck: &Vec<Vec<char>>,
    cj: &Vec<usize>,
    key: &Vec<char>,
) -> (r: Option<usize>)
    requires
        archive_index(
            fs@.map_values(|v: Vec<char>| v@),
            ck@.map_values(|v: Vec<char>| v@),
            cj@,
            fs@.len() as int,
        ),
    ensures
        r matches Some(j) ==> (j < fs@.len() && last_archive(fs@.map_values(|v: Vec<char>| v@), key@, fs@.len() as int)
            == Some(j as int)),
        r is None ==> last_archive(fs@.map_values(|v: Vec<char>| v@), key@, fs@.len() as int) is None,
{
    let ghost files = fs@.map_values(|v: Vec<char>| v@);
    let ghost keys = ck@.map_values(|v: Vec<char>| v@);
    let mut t: usize = cj.len();
    while t > 0
        invariant
            t <= cj.len(),
            archive_index(files, keys, cj@, files.len() as int),
            files == fs@.map_values(|v: Vec<char>| v@),
            keys == ck@.map_values(|v: Vec<char>| v@),
            forall|u: int| t <= u < cj.len() ==> keys[u] != key@,
        decreases t,
    {
        if chars_eq(&ck[t - 1], key) {
            let j = cj[t - 1];
            proof {
                assert forall|k: int| j < k < files.len() implies archive_key(files[k]) != Some(key@) by {
                    if archive_key(files[k]) == Some(key@) {
                        let u = choose|u: int| 0 <= u < cj@.len() && cj@[u] == k;
                        if u < t - 1 {
                            assert(cj@[u] < cj@[t - 1]);
                        }
                    }
                }
                lemma_last_archive_found(files, key@, files.len() as int, j as int);
            }
            return Some(j);
        }
        t = t - 1;
    }
    proof {
        assert forall|k: int| 0 <= k < files.len() implies archive_key(files[k]) != Some(key@) by {
            if archive_key(files[k]) == Some(key@) {
                let u = choose|u: int| 0 <= u < cj@.len() && cj@[u] == k;
            }
        }
        lemma_last_archive_absent(files, key@, files.len() as int);
    }
    None
}

fn push_folder_hits(
    out: &mut Vec<LeftoverHit>,
    files: &Vec<String>,
    fs: &Vec<Vec<char>>,
    ck: &Vec<Vec<char>>,
    cj: &Vec<usize>,
    i: usize,
)
    requires
        i < files.len(),
        fs@.len() == files@.len(),
        fs@.map_values(|v: Vec<char>| v@) == texts(files@),
        archive_index(
            fs@.map_values(|v: Vec<char>| v@),
            ck@.map_values(|v: Vec<char>| v@),
            cj@,
            fs@.len() as int,
        ),
    ensures
        hit_views(final(out)@) == hit_views(old(out)@) + extraction_hit(files@[i as int]@) + pair_hit(
            texts(files@),
            i as int,
        ),
{
    let ghost before = hit_views(out@);
    let ghost tf = texts(files@);
    assert(fs@.map_values(|v: Vec<char>| v@)[i as int] == tf[i as int]);
    let f = &files[i];
    let fc = &fs[i];
    match parent_exec(fc) {
        Some(p) => {
            match file_name_exec(&p) {
                Some(d) => {
                    let lowered = lower_chars(&d);
                    if has_literal(&lowered, "extract") || has_literal(&lowered, "unpack") {
                        out.push(
                            hit("Extraction Leftover", f, "File appears inside extraction workspace"),
                        );
                    }
                },
                None => {},
            }
        },
        None => {},
    }
    assert(hit_views(out@) =~= before + extraction_hit(files@[i as int]@));
    let ghost mid = hit_views(out@);
    match file_stem_exec(fc) {
        Some(st) => {
            let key = lower_chars(&st);
            match find_archive(fs, ck, cj, &key) {
                Some(j) => {
                    let reason = concat(
                        "Possible extracted copy while archive still exists at ",
                        files[j].as_str(),
                    );
                    out.push(
                        LeftoverHit {
                            category: copy_str("Archive + Extracted Pair"),
                            path: f.clone(),
                            reason,
                        },
                    );
                    assert(hit_views(out@) =~= mid + pair_hit(tf, i as int));
                },
                None => {
                    assert(hit_views(out@) =~= mid + pair_hit(tf, i as int));
                },
            }
        },
        None => {
            assert(hit_views(out@) =~= mid + pair_hit(tf, i as int));
        },
    }
}

/// Flags installers, temporary/backup files, files inside extraction
/// folders, and files named like an archive that is still present.
pub fn detect_leftovers(files: &Vec<String>) -> (hits: Vec<LeftoverHit>)
    ensures
        hit_views(hits@) == leftovers_of(texts(files@)),
{
    let ghost tf = texts(files@);
    let mut out: Vec<LeftoverHit> = Vec::new();
    let mut fs: Vec<Vec<char>> = Vec::new();
    let mut ck: Vec<Vec<char>> = Vec::new();
    let mut cj: Vec<usize> = Vec::new();
    let mut i: usize = 0;
    assert(hit_views(out@) =~= name_pass(tf, 0));
    while i < files.len()
        invariant
            i <= files.len(),
            tf == texts(files@),
            fs@.len() == i,
            forall|k: int| 0 <= k < i ==> fs@[k]@ == tf[k],
            hit_views(out@) == name_pass(tf, i as int),
            archive_index(
                fs@.map_values(|v: Vec<char>| v@),
                ck@.map_values(|v: Vec<char>| v@),
                cj@,
                i as int,
            ),
        decreases files.len() - i,
    {
        let fc = to_chars(files[i].as_str());
        let ghost old_fs = fs@.map_values(|v: Vec<char>| v@);
        let ghost old_ck = ck@.map_values(|v: Vec<char>| v@);
        let ghost old_cj = cj@;
        match archive_key_exec(&fc) {
            Some(k) => {
                ck.push(k);
                cj.push(i);
            },
            None => {},
        }
        fs.push(fc);
        proof {
            let nfs = fs@.map_values(|v: Vec<char>| v@);
            let nck = ck@.map_values(|v: Vec<char>| v@);
            assert(nfs =~= old_fs.push(tf[i as int]));
            assert forall|j: int| 0 <= j < i + 1 && #[trigger] archive_key(nfs[j]) is Some implies exists|t: int|
                0 <= t < cj@.len() && cj@[t] == j by {
                if j < i {
                    assert(nfs[j] == old_fs[j]);
                    assert(archive_key(old_fs[j]) is Some);
                    let t = choose|t: int| 0 <= t < old_cj.len() && old_cj[t] == j;
                    assert(cj@[t] == j);
                } else {
                    assert(cj@[cj@.len() - 1] == j);
                }
            }
            assert forall|t: int| 0 <= t < cj@.len() implies cj@[t] < i + 1 && archive_key(
                nfs[cj@[t] as int],
            ) == Some(nck[t]) by {
                if t < old_cj.len() {
                    assert(nfs[cj@[t] as int] == old_fs[old_cj[t] as int]);
                    assert(nck[t] == old_ck[t]);
                }
            }
        }
        push_name_hits(&mut out, &files[i]);
        i = i + 1;
    }
    assert(fs@.map_values(|v: Vec<char>| v@) =~= tf);
    let ghost first = hit_views(out@);
    let mut i: usize = 0;
    assert(hit_views(out@) =~= first + folder_pass(tf, 0));
    while i < files.len()
        invariant
            i <= files.len(),
            tf == texts(files@),
            fs@.len() == files@.len(),
            fs@.map_values(|v: Vec<char>| v@) == tf,
            archive_index(
                fs@.map_values(|v: Vec<char>| v@),
                ck@.map_values(|v: Vec<char>| v@),
                cj@,
                fs@.len() as int,
            ),
            hit_views(out@) == first + folder_pass(tf, i as int),
        decreases files.len() - i,
    {
        push_folder_hits(&mut out, files, &fs, &ck, &cj, i);
        i = i + 1;
        assert(hit_views(out@) =~= first + folder_pass(tf, i as int));
    }
    out
}

// ---------------------------------------------------------------------------
// Extension breakdown
// ---------------------------------------------------------------------------

/// The distinct values of `ks[..n]`, in order of first appearance.
pub open spec fn distinct<A>(ks: Seq<A>, n: int) -> Seq<A>
    decreases n,
{
    if n <= 0 {
        Seq::empty()
    } else {
        let d = distinct(ks, n - 1);
        if d.contains(ks[n - 1]) {
            d
        } else {
            d.push(ks[n - 1])
        }
    }
}

/// How often `k` occurs in `ks[..n]`.
pub open spec fn occurrences<A>(ks: Seq<A>, k: A, n: int) -> nat
    decreases n,
{
    if n <= 0 {
        0
    } else if ks[n - 1] == k {
        occurrences(ks, k, n - 1) + 1
    } else {
        occurrences(ks, k, n - 1)
    }
}

pub proof fn lemma_occurrences_bound<A>(ks: Seq<A>, k: A, n: int)
    requires
        0 <= n,
    ensures
        occurrences(ks, k, n) <= n,
    decreases n,
{
    if n > 0 {
        lemma_occurrences_bound(ks, k, n - 1);
    }
}

/// The histogram key of a file: `.` and its lower-cased extension, or
/// `[no-ext]`.
pub open spec fn ext_key(f: Seq<char>) -> Seq<char> {
    match extension(f) {
        Some(e) => seq!['.'] + lower(e),
        None => "[no-ext]"@,
    }
}

pub open spec fn ext_keys(files: Seq<Seq<char>>) -> Seq<Seq<char>> {
    Seq::new(files.len(), |i: int| ext_key(files[i]))
}

/// `out` lists each distinct value of `ks` once with its number of
/// occurrences, by decreasing count; among equal counts, values keep the
/// order in which they first appear in `ks`.
pub open spec fn is_count_breakdown(out: Seq<(Seq<char>, usize)>, ks: Seq<Seq<char>>) -> bool {
    let d = distinct(ks, ks.len() as int);
    let counts = Seq::new(d.len(), |t: int| occurrences(ks, d[t], ks.len() as int) as u64);
    exists|r: Seq<usize>|
        #[trigger] is_stable_desc_order(counts, r) && out.len() == r.len() && forall|i: int|
            0 <= i < out.len() ==> out[i].0 == d[r[i] as int] && out[i].1 == counts[r[i] as int]
}

fn ext_key_exec(f: &Vec<char>) -> (k: Vec<char>)
    ensures
        k@ == ext_key(f@),
{
    match extension_exec(f) {
        Some(e) => {
            let mut k: Vec<char> = Vec::new();
            k.push('.');
            let l = lower_chars(&e);
            let mut i: usize = 0;
            while i < l.len()
                invariant
                    i <= l.len(),
                    k@ == seq!['.'] + l@.subrange(0, i as int),
                decreases l.len() - i,
            {
                k.push(l[i]);
                i = i + 1;
                assert(k@ =~= seq!['.'] + l@.subrange(0, i as int));
            }
            assert(l@.subrange(0, l@.len() as int) =~= l@);
            k
        },
        None => to_chars("[no-ext]"),
    }
}

/// Position of `k` in `d`, if present.
fn position_of(d: &Vec<Vec<char>>, k: &Vec<char>) -> (r: Option<usize>)
    ensures
        r matches Some(t) ==> (t < d@.len() && d@[t as int]@ == k@),
        r is None ==> !d@.map_values(|v: Vec<char>| v@).contains(k@),
{
    let mut t: usize = 0;
    while t < d.len()
        invariant
            t <= d@.len(),
            forall|u: int| 0 <= u < t ==> d@[u]@ != k@,
        decreases d.len() - t,
    {
        if chars_eq(&d[t], k) {
            return Some(t);
        }
        t = t + 1;
    }
    proof {
        let dv = d@.map_values(|v: Vec<char>| v@);
        if dv.contains(k@) {
            let u = choose|u: int| 0 <= u < dv.len() && dv[u] == k@;
            assert(d@[u]@ == k@);
        }
    }
    None
}

/// The distinct keys of `ks` (first appearance order) and their counts.
fn tally(ks: &Vec<Vec<char>>) -> (r: (Vec<Vec<char>>, Vec<usize>))
    ensures
        r.0@.map_values(|v: Vec<char>| v@) == distinct(
            ks@.map_values(|v: Vec<char>| v@),
            ks@.len() as int,
        ),
        r.1@.len() == r.0@.len(),
        forall|t: int|
            0 <= t < r.1@.len() ==> r.1@[t] == occurrences(
                ks@.map_values(|v: Vec<char>| v@),
                r.0@[t]@,
                ks@.len() as int,
            ),
{
    let ghost kv = ks@.map_values(|v: Vec<char>| v@);
    let mut d: Vec<Vec<char>> = Vec::new();
    let mut c: Vec<usize> = Vec::new();
    let mut i: usize = 0;
    assert(d@.map_values(|v: Vec<char>| v@) =~= distinct(kv, 0));
    while i < ks.len()
        invariant
            i <= ks@.len(),
            kv == ks@.map_values(|v: Vec<char>| v@),
            d@.map_values(|v: Vec<char>| v@) == distinct(kv, i as int),
            forall|t: int, u: int| 0 <= t < u < d@.len() ==> d@[t]@ != d@[u]@,
            c@.len() == d@.len(),
            forall|t: int| 0 <= t < c@.len() ==> c@[t] == occurrences(kv, d@[t]@, i as int),
        decreases ks.len() - i,
    {
        let ghost dv = d@.map_values(|v: Vec<char>| v@);
        proof {
            assert forall|t: int| 0 <= t < c@.len() implies c@[t] <= i by {
                lemma_occurrences_bound(kv, d@[t]@, i as int);
            }
        }
        match position_of(&d, &ks[i]) {
            Some(t) => {
                assert(dv[t as int] == kv[i as int]);
                assert(dv.contains(kv[i as int]));
                let v = c[t] + 1;
                c.set(t, v);
                proof {
                    assert forall|u: int| 0 <= u < d@.len() && u != t implies d@[u]@ != kv[i as int] by {
                        if u < t {
                        } else {
                        }
                    }
                }
            },
            None => {
                d.push(ks[i].clone());
                c.push(1);
                proof {
                    assert(d@.map_values(|v: Vec<char>| v@) =~= dv.push(kv[i as int]));
                    assert(!distinct(kv, i as int).contains(kv[i as int]));
                    assert forall|u: int| 0 <= u < dv.len() implies dv[u] != kv[i as int] by {
                        if dv[u] == kv[i as int] {
                            assert(dv.contains(kv[i as int]));
                        }
                    }
                    let nd = d@.map_values(|v: Vec<char>| v@);
                    assert forall|t: int, u: int| 0 <= t < u < d@.len() implies d@[t]@ != d@[u]@ by {
                        assert(nd[t] == d@[t]@);
                        assert(nd[u] == d@[u]@);
                        if u == d@.len() - 1 {
                            assert(dv[t] != kv[i as int]);
                        } else {
                            assert(dv[t] == nd[t]);
                            assert(dv[u] == nd[u]);
                        }
                    }
                    assert(occurrences(kv, kv[i as int], i as int) == 0) by {
                        lemma_occurrences_absent(kv, kv[i as int], i as int);
                    }
                }
            },
        }
        proof {
            assert forall|t: int| 0 <= t < c@.len() implies c@[t] == occurrences(
                kv,
                d@[t]@,
                i + 1,
            ) by {
                if t < dv.len() {
                    assert(d@[t]@ == dv[t]);
                }
                if d@[t]@ == kv[i as int] {
                } else {
                }
            }
        }
        i = i + 1;
    }
    (d, c)
}

/// A value that does not appear in the distinct list does not occur.
pub proof fn lemma_occurrences_absent<A>(ks: Seq<A>, k: A, n: int)
    requires
        0 <= n <= ks.len(),
        !distinct(ks, n).contains(k),
    ensures
        occurrences(ks, k, n) == 0,
    decreases n,
{
    if n > 0 {
        let d = distinct(ks, n - 1);
        if !d.contains(ks[n - 1]) {
            let e = d.push(ks[n - 1]);
            assert(e[d.len() as int] == ks[n - 1]);
            if d.contains(k) {
                let u = choose|u: int| 0 <= u < d.len() && d[u] == k;
                assert(e[u] == k);
            }
        }
        lemma_occurrences_absent(ks, k, n - 1);
    }
}

/// Files per extension key, most frequent first.
pub fn extension_breakdown(files: &Vec<String>) -> (out: Vec<(String, usize)>)
    ensures
        is_count_breakdown(
            Seq::new(out@.len(), |i: int| (out@[i].0@, out@[i].1)),
            ext_keys(texts(files@)),
        ),
{
    let ghost tf = texts(files@);
    let mut ks: Vec<Vec<char>> = Vec::new();
    let mut i: usize = 0;
    while i < files.len()
        invariant
            i <= files.len(),
            tf == texts(files@),
            ks@.len() == i,
            forall|k: int| 0 <= k < i ==> ks@[k]@ == ext_key(tf[k]),
        decreases files.len() - i,
    {
        let fc = to_chars(files[i].as_str());
        ks.push(ext_key_exec(&fc));
        i = i + 1;
    }
    let ghost kv = ks@.map_values(|v: Vec<char>| v@);
    assert(kv =~= ext_keys(tf));
    let (d, c) = tally(&ks);
    let ghost dv = d@.map_values(|v: Vec<char>| v@);
    let mut c64: Vec<u64> = Vec::new();
    let mut t: usize = 0;
    while t < c.len()
        invariant
            t <= c@.len(),
            c64@.len() == t,
            forall|u: int| 0 <= u < t ==> c64@[u] == c@[u] as u64,
        decreases c.len() - t,
    {
        c64.push(c[t] as u64);
        t = t + 1;
    }
    let r = stable_desc_order(&c64);
    let mut out: Vec<(String, usize)> = Vec::new();
    let mut j: usize = 0;
    while j < r.len()
        invariant
            j <= r@.len(),
            is_stable_desc_order(c64@, r@),
            c64@.len() == c@.len(),
            c@.len() == d@.len(),
            out@.len() == j,
            forall|u: int|
                0 <= u < j ==> out@[u].0@ == d@[r@[u] as int]@ && out@[u].1 == c@[r@[u] as int],
        decreases r.len() - j,
    {
        let idx = r[j];
        out.push((from_chars(&d[idx]), c[idx]));
        j = j + 1;
    }
    proof {
        let ov = Seq::new(out@.len(), |i: int| (out@[i].0@, out@[i].1));
        let counts = Seq::new(dv.len(), |t: int| occurrences(kv, dv[t], kv.len() as int) as u64);
        assert(dv.len() == d@.len());
        assert forall|u: int| 0 <= u < c64@.len() implies c64@[u] == counts[u] by {
            assert(dv[u] == d@[u]@);
        }
        assert(c64@ =~= counts);
        assert forall|i: int| 0 <= i < ov.len() implies ov[i].0 == dv[r@[i] as int] && ov[i].1
            == counts[r@[i] as int] by {
            lemma_occurrences_bound(kv, dv[r@[i] as int], kv.len() as int);
        }
        assert(is_stable_desc_order(counts, r@));
    }
    out
}

// ---------------------------------------------------------------------------
// Size collisions and duplicate groups
// ---------------------------------------------------------------------------

/// Sizes of the files whose metadata could be read.
pub open spec fn sizes_of(sized: Seq<(String, u64)>) -> Seq<u64> {
    Seq::new(sized.len(), |i: int| sized[i].1)
}

/// The paths of `sized[..n]` whose size is shared with another file.
pub open spec fn size_candidates(sized: Seq<(String, u64)>, n: int) -> Seq<Seq<char>>
    decreases n,
{
    if n <= 0 {
        Seq::empty()
    } else if occurrences(sizes_of(sized), sized[n - 1].1, sized.len() as int) >= 2 {
        size_candidates(sized, n - 1).push(sized[n - 1].0@)
    } else {
        size_candidates(sized, n - 1)
    }
}

/// The paths of a list of sized files.
pub open spec fn sized_paths(p: Seq<(String, u64)>) -> Seq<Seq<char>> {
    Seq::new(p.len(), |i: int| p[i].0@)
}

/// `sized[..n]` with every entry whose path was listed before dropped
/// (roots that repeat or nest list a file more than once).
pub open spec fn first_sized(sized: Seq<(String, u64)>, n: int) -> Seq<(String, u64)>
    decreases n,
{
    if n <= 0 {
        Seq::empty()
    } else {
        let p = first_sized(sized, n - 1);
        if sized_paths(p).contains(sized[n - 1].0@) {
            p
        } else {
            p.push(sized[n - 1])
        }
    }
}

fn first_listed_sized(sized: &Vec<(String, u64)>) -> (out: Vec<(String, u64)>)
    ensures
        out@ == first_sized(sized@, sized@.len() as int),
{
    let mut out: Vec<(String, u64)> = Vec::new();
    let mut kept: Vec<String> = Vec::new();
    let mut i: usize = 0;
    while i < sized.len()
        invariant
            i <= sized@.len(),
            out@ == first_sized(sized@, i as int),
            texts(kept@) == sized_paths(out@),
        decreases sized.len() - i,
    {
        let c = to_chars(sized[i].0.as_str());
        if !contains_text(&kept, &c) {
            let ghost before = out@;
            let ghost before_kept = texts(kept@);
            let path = sized[i].0.clone();
            let copy = path.clone();
            assert(copy@ == sized@[i as int].0@);
            kept.push(copy);
            out.push((path, sized[i].1));
            assert(out@ =~= before.push(sized@[i as int]));
            assert(texts(kept@) =~= before_kept.push(sized@[i as int].0@));
            assert(texts(kept@) =~= sized_paths(out@));
        }
        i = i + 1;
    }
    out
}

/// Files that share their size with at least one other file: only these
/// can have duplicate contents, so only these are hashed. A file listed
/// more than once counts once.
pub fn size_collision_candidates(sized: &Vec<(String, u64)>) -> (out: Vec<String>)
    ensures
        ({
            let u = first_sized(sized@, sized@.len() as int);
            texts(out@) == size_candidates(u, u.len() as int)
        }),
{
    let unique = first_listed_sized(sized);
    shared_size_paths(&unique)
}

fn shared_size_paths(sized: &Vec<(String, u64)>) -> (out: Vec<String>)
    ensures
        texts(out@) == size_candidates(sized@, sized@.len() as int),
{
    broadcast use vstd::std_specs::hash::group_hash_axioms;

    let ghost sz = sizes_of(sized@);
    let mut counts: HashMap<u64, usize> = HashMap::new();
    let mut i: usize = 0;
    while i < sized.len()
        invariant
            i <= sized@.len(),
            sz == sizes_of(sized@),
            forall|s: u64| #[trigger] counts@.contains_key(s) <==> occurrences(sz, s, i as int) > 0,
            forall|s: u64|
                #[trigger] counts@.contains_key(s) ==> counts@[s] == occurrences(sz, s, i as int),
        decreases sized.len() - i,
    {
        let s = sized[i].1;
        proof {
            lemma_occurrences_bound(sz, s, i as int);
        }
        let next: usize = match counts.get(&s) {
            Some(c) => *c + 1,
            None => 1,
        };
        counts.insert(s, next);
        i = i + 1;
    }
    let mut out: Vec<String> = Vec::new();
    let mut j: usize = 0;
    assert(texts(out@) =~= size_candidates(sized@, 0));
    while j < sized.len()
        invariant
            j <= sized@.len(),
            sz == sizes_of(sized@),
            forall|s: u64| #[trigger] counts@.contains_key(s) <==> occurrences(sz, s, sized@.len() as int) > 0,
            forall|s: u64|
                #[trigger] counts@.contains_key(s) ==> counts@[s] == occurrences(sz, s, sized@.len() as int),
            texts(out@) == size_candidates(sized@, j as int),
        decreases sized.len() - j,
    {
        let s = sized[j].1;
        let shared = match counts.get(&s) {
            Some(c) => *c >= 2,
            None => false,
        };
        if shared {
            out.push(sized[j].0.clone());
        }
        j = j + 1;
        assert(texts(out@) =~= size_candidates(sized@, j as int));
    }
    out
}

/// `min(a * b, u64::MAX)`.
pub open spec fn sat_mul(a: u64, b: u64) -> u64 {
    if a * b > u64::MAX {
        u64::MAX
    } else {
        (a * b) as u64
    }
}

pub fn saturating_mul(a: u64, b: u64) -> (r: u64)
    ensures
        r == sat_mul(a, b),
{
    match a.checked_mul(b) {
        Some(v) => v,
        None => u64::MAX,
    }
}

/// Indices of `ks[..n]` holding `k`, increasing.
pub open spec fn members<A>(ks: Seq<A>, k: A, n: int) -> Seq<int>
    decreases n,
{
    if n <= 0 {
        Seq::empty()
    } else if ks[n - 1] == k {
        members(ks, k, n - 1).push(n - 1)
    } else {
        members(ks, k, n - 1)
    }
}

pub proof fn lemma_members_len<A>(ks: Seq<A>, k: A, n: int)
    requires
        0 <= n,
    ensures
        members(ks, k, n).len() == occurrences(ks, k, n),
    decreases n,
{
    if n > 0 {
        lemma_members_len(ks, k, n - 1);
    }
}

/// The distinct values of `ks` that occur at least twice, in order of
/// first appearance (`d` is `distinct(ks, ..)`, scanned up to `n`).
pub open spec fn repeated(ks: Seq<Seq<char>>, d: Seq<Seq<char>>, n: int) -> Seq<Seq<char>>
    decreases n,
{
    if n <= 0 {
        Seq::empty()
    } else if occurrences(ks, d[n - 1], ks.len() as int) >= 2 {
        repeated(ks, d, n - 1).push(d[n - 1])
    } else {
        repeated(ks, d, n - 1)
    }
}

/// The view of one hashed file: (hash, path, size).
pub open spec fn hashed_view(h: Seq<(String, String, u64)>) -> Seq<(Seq<char>, Seq<char>, u64)> {
    Seq::new(h.len(), |i: int| (h[i].0@, h[i].1@, h[i].2))
}

pub open spec fn hash_col(hv: Seq<(Seq<char>, Seq<char>, u64)>) -> Seq<Seq<char>> {
    Seq::new(hv.len(), |i: int| hv[i].0)
}

/// `g = (hash, size, files)` is the group of the files hashing to `k`: the
/// files in path order (stably), the size that of the first of them.
pub open spec fn is_group_of(
    hv: Seq<(Seq<char>, Seq<char>, u64)>,
    k: Seq<char>,
    g: (Seq<char>, u64, Seq<Seq<char>>),
) -> bool {
    let m = members(hash_col(hv), k, hv.len() as int);
    let mp = Seq::new(m.len(), |t: int| hv[m[t]].1);
    &&& g.0 == k
    &&& exists|r: Seq<usize>|
        #[trigger] is_stable_path_order(mp, r) && r.len() > 0 && g.2 == Seq::new(
            r.len(),
            |t: int| mp[r[t] as int],
        ) && g.1 == hv[m[r[0] as int]].2
}

/// Bytes that all but one copy of each group waste, summed modulo 2^64.
pub open spec fn waste_sum(gp: Seq<(Seq<char>, u64, Seq<Seq<char>>)>, n: int) -> nat
    decreases n,
{
    if n <= 0 {
        0
    } else {
        ((waste_sum(gp, n - 1) + sat_mul(gp[n - 1].1, (gp[n - 1].2.len() - 1) as u64)) % 0x1_0000_0000_0000_0000) as nat
    }
}

/// Total bytes of each group: its size times its number of files, saturated.
pub open spec fn group_totals(gp: Seq<(Seq<char>, u64, Seq<Seq<char>>)>) -> Seq<u64> {
    Seq::new(gp.len(), |t: int| sat_mul(gp[t].1, gp[t].2.len() as u64))
}

/// The view of a duplicate group: (hash, total bytes, files).
pub open spec fn group_view(g: DuplicateGroup) -> (Seq<char>, u64, Seq<Seq<char>>) {
    (g.hash@, g.total_bytes, texts(g.files@))
}

/// `groups` and `waste` are what grouping `hv` by hash gives: one group per
/// hash shared by two or more files, largest total first (stably, in order
/// of first appearance), and the bytes wasted by the extra copies.
pub open spec fn is_duplicate_grouping(
    hv: Seq<(Seq<char>, Seq<char>, u64)>,
    groups: Seq<DuplicateGroup>,
    waste: u64,
) -> bool {
    let ks = hash_col(hv);
    let q = repeated(ks, distinct(ks, ks.len() as int), distinct(ks, ks.len() as int).len() as int);
    exists|gp: Seq<(Seq<char>, u64, Seq<Seq<char>>)>, order: Seq<usize>|
        #[trigger] is_stable_desc_order(group_totals(gp), order) && gp.len() == q.len() && (forall|t: int| 0 <= t < q.len() ==> is_group_of(hv, q[t], gp[t]))
            && groups.len() == order.len() && (forall|i: int|
            0 <= i < groups.len() ==> group_view(groups[i]) == {
                let g = gp[order[i] as int];
                (g.0, sat_mul(g.1, g.2.len() as u64), g.2)
            }) && waste == waste_sum(gp, gp.len() as int)
}

fn index_members(hs: &Vec<Vec<char>>, key: &Vec<char>) -> (m: Vec<usize>)
    ensures
        m@.len() == members(hs@.map_values(|v: Vec<char>| v@), key@, hs@.len() as int).len(),
        forall|t: int|
            0 <= t < m@.len() ==> m@[t] as int == members(
                hs@.map_values(|v: Vec<char>| v@),
                key@,
                hs@.len() as int,
            )[t] && m@[t] < hs@.len(),
{
    let ghost ks = hs@.map_values(|v: Vec<char>| v@);
    let mut m: Vec<usize> = Vec::new();
    let mut i: usize = 0;
    while i < hs.len()
        invariant
            i <= hs@.len(),
            ks == hs@.map_values(|v: Vec<char>| v@),
            m@.len() == members(ks, key@, i as int).len(),
            forall|t: int|
                0 <= t < m@.len() ==> m@[t] as int == members(ks, key@, i as int)[t] && m@[t] < i,
        decreases hs.len() - i,
    {
        if chars_eq(&hs[i], key) {
            m.push(i);
        }
        i = i + 1;
    }
    m
}

pub(crate) fn clone_texts(v: &Vec<String>) -> (r: Vec<String>)
    ensures
        r@ == v@,
{
    v.clone()
}

fn copy_group(g: &DuplicateGroup) -> (r: DuplicateGroup)
    ensures
        group_view(r) == group_view(*g),
{
    DuplicateGroup { hash: g.hash.clone(), total_bytes: g.total_bytes, files: clone_texts(&g.files) }
}

/// The group of the files whose hash is `key`.
fn build_group(
    hashed: &Vec<(String, String, u64)>,
    hs: &Vec<Vec<char>>,
    ps: &Vec<Vec<char>>,
    key: &Vec<char>,
) -> (r: (DuplicateGroup, u64))
    requires
        hs@.len() == hashed@.len(),
        ps@.len() == hashed@.len(),
        forall|i: int| 0 <= i < hashed@.len() ==> hs@[i]@ == hashed@[i].0@ && ps@[i]@ == hashed@[i].1@,
        occurrences(hash_col(hashed_view(hashed@)), key@, hashed@.len() as int) >= 1,
    ensures
        is_group_of(hashed_view(hashed@), key@, (key@, r.1, texts(r.0.files@))),
        r.0.hash@ == key@,
        r.0.files@.len() == occurrences(hash_col(hashed_view(hashed@)), key@, hashed@.len() as int),
        r.0.total_bytes == sat_mul(r.1, r.0.files@.len() as u64),
{
    let ghost hv = hashed_view(hashed@);
    let ghost ks = hash_col(hv);
    assert(hs@.map_values(|v: Vec<char>| v@) =~= ks);
    let m = index_members(hs, key);
    let ghost mm = members(ks, key@, hv.len() as int);
    proof {
        lemma_members_len(ks, key@, hv.len() as int);
    }
    let mut mp: Vec<Vec<char>> = Vec::new();
    let mut t: usize = 0;
    while t < m.len()
        invariant
            t <= m@.len(),
            m@.len() == mm.len(),
            forall|u: int| 0 <= u < m@.len() ==> #[trigger] m@[u] < hashed@.len(),
            forall|u: int| 0 <= u < m@.len() ==> #[trigger] m@[u] as int == mm[u],
            ps@.len() == hashed@.len(),
            forall|i: int| 0 <= i < hashed@.len() ==> ps@[i]@ == hashed@[i].1@,
            hv == hashed_view(hashed@),
            mp@.len() == t,
            forall|u: int| 0 <= u < t ==> mp@[u]@ == hv[mm[u]].1,
        decreases m.len() - t,
    {
        mp.push(ps[m[t]].clone());
        t = t + 1;
    }
    let ghost mpv = Seq::new(mm.len(), |u: int| hv[mm[u]].1);
    assert(mp@.map_values(|v: Vec<char>| v@) =~= mpv);
    let r = stable_path_order(&mp);
    let mut files: Vec<String> = Vec::new();
    let mut t: usize = 0;
    while t < r.len()
        invariant
            t <= r@.len(),
            mpv == Seq::new(mm.len(), |u: int| hv[mm[u]].1),
            mpv.len() == m@.len(),
            r@.len() == m@.len(),
            forall|u: int| 0 <= u < r@.len() ==> r@[u] < m@.len(),
            m@.len() == mm.len(),
            forall|u: int| 0 <= u < m@.len() ==> #[trigger] m@[u] < hashed@.len(),
            forall|u: int| 0 <= u < m@.len() ==> #[trigger] m@[u] as int == mm[u],
            hv == hashed_view(hashed@),
            files@.len() == t,
            forall|u: int| 0 <= u < t ==> files@[u]@ == mpv[r@[u] as int],
        decreases r.len() - t,
    {
        files.push(hashed[m[r[t]]].1.clone());
        proof {
            let k = r@[t as int] as int;
            assert(0 <= k < m@.len());
            assert(k < mm.len());
            assert(m@[k] as int == mm[k]);
            assert(mpv[k] == hv[mm[k]].1);
            assert(files@[t as int]@ == hashed@[m@[k] as int].1@);
        }
        t = t + 1;
    }
    let size = hashed[m[r[0]]].2;
    let total = saturating_mul(size, files.len() as u64);
    proof {
        let g = (key@, size, texts(files@));
        assert(texts(files@) =~= Seq::new(r@.len(), |u: int| mpv[r@[u] as int]));
        assert(is_stable_path_order(mpv, r@) && r@.len() > 0 && g.2 == Seq::new(
            r@.len(),
            |u: int| mpv[r@[u] as int],
        ) && g.1 == hv[mm[r@[0] as int]].2);
    }
    (DuplicateGroup { hash: from_chars(key), total_bytes: total, files }, size)
}

/// `hv[..n]` with every entry whose path was listed before dropped.
pub open spec fn first_hashed(hv: Seq<(Seq<char>, Seq<char>, u64)>, n: int) -> Seq<(Seq<char>, Seq<char>, u64)>
    decreases n,
{
    if n <= 0 {
        Seq::empty()
    } else {
        let p = first_hashed(hv, n - 1);
        if hashed_paths(p).contains(hv[n - 1].1) {
            p
        } else {
            p.push(hv[n - 1])
        }
    }
}

pub open spec fn hashed_paths(hv: Seq<(Seq<char>, Seq<char>, u64)>) -> Seq<Seq<char>> {
    Seq::new(hv.len(), |i: int| hv[i].1)
}

/// The hashed files, each path once (the first time it is listed).
pub open spec fn unique_hashed(hashed: Seq<(String, String, u64)>) -> Seq<(Seq<char>, Seq<char>, u64)> {
    first_hashed(hashed_view(hashed), hashed.len() as int)
}

/// No two groups name the same file, and no group names a file twice.
pub open spec fn groups_disjoint(groups: Seq<DuplicateGroup>) -> bool {
    &&& forall|i: int, a: int, b: int|
        0 <= i < groups.len() && 0 <= a < b < groups[i].files@.len() ==> #[trigger] groups[i].files@[a]@
            != #[trigger] groups[i].files@[b]@
    &&& forall|i: int, j: int, a: int, b: int|
        0 <= i < j < groups.len() && 0 <= a < groups[i].files@.len() && 0 <= b < groups[j].files@.len()
            ==> #[trigger] groups[i].files@[a]@ != #[trigger] groups[j].files@[b]@
}

fn first_listed_hashed(hashed: &Vec<(String, String, u64)>) -> (out: Vec<(String, String, u64)>)
    ensures
        hashed_view(out@) == unique_hashed(hashed@),
{
    let ghost hv = hashed_view(hashed@);
    let mut out: Vec<(String, String, u64)> = Vec::new();
    let mut kept: Vec<String> = Vec::new();
    let mut i: usize = 0;
    while i < hashed.len()
        invariant
            i <= hashed@.len(),
            hv == hashed_view(hashed@),
            hashed_view(out@) == first_hashed(hv, i as int),
            texts(kept@) == hashed_paths(hashed_view(out@)),
        decreases hashed.len() - i,
    {
        let c = to_chars(hashed[i].1.as_str());
        if !contains_text(&kept, &c) {
            let ghost before = hashed_view(out@);
            let ghost before_kept = texts(kept@);
            let path = hashed[i].1.clone();
            let copy = path.clone();
            assert(copy@ == hv[i as int].1);
            kept.push(copy);
            out.push((hashed[i].0.clone(), path, hashed[i].2));
            assert(hashed_view(out@) =~= before.push(hv[i as int]));
            assert(texts(kept@) =~= before_kept.push(hv[i as int].1));
            assert(texts(kept@) =~= hashed_paths(hashed_view(out@)));
        }
        i = i + 1;
    }
    out
}

/// Groups hashed files by hash: one group per hash shared by two or more
/// distinct files (a file listed more than once counts once), largest
/// total first, and the bytes the extra copies waste (`+=` on `u64`,
/// wrapping as a release build does). No file is in two groups or twice
/// in one.
pub fn group_duplicates(hashed: &Vec<(String, String, u64)>) -> (r: (Vec<DuplicateGroup>, u64))
    ensures
        is_duplicate_grouping(unique_hashed(hashed@), r.0@, r.1),
        groups_disjoint(r.0@),
{
    let unique = first_listed_hashed(hashed);
    let r = group_listed(&unique);
    proof {
        law_duplicate_group_files_distinct(hashed@, r.0@, r.1);
    }
    r
}

fn group_listed(hashed: &Vec<(String, String, u64)>) -> (r: (Vec<DuplicateGroup>, u64))
    ensures
        is_duplicate_grouping(hashed_view(hashed@), r.0@, r.1),
{
    let ghost hv = hashed_view(hashed@);
    let ghost ks = hash_col(hv);
    let mut hs: Vec<Vec<char>> = Vec::new();
    let mut ps: Vec<Vec<char>> = Vec::new();
    let mut i: usize = 0;
    while i < hashed.len()
        invariant
            i <= hashed@.len(),
            hs@.len() == i,
            ps@.len() == i,
            forall|k: int| 0 <= k < i ==> hs@[k]@ == hashed@[k].0@ && ps@[k]@ == hashed@[k].1@,
        decreases hashed.len() - i,
    {
        hs.push(to_chars(hashed[i].0.as_str()));
        ps.push(to_chars(hashed[i].1.as_str()));
        i = i + 1;
    }
    assert(hs@.map_values(|v: Vec<char>| v@) =~= ks);
    let (d, c) = tally(&hs);
    let ghost dv = d@.map_values(|v: Vec<char>| v@);
    let ghost dl = dv.len() as int;
    let mut pre: Vec<DuplicateGroup> = Vec::new();
    let mut totals: Vec<u64> = Vec::new();
    let mut waste: u64 = 0;
    let ghost mut gp: Seq<(Seq<char>, u64, Seq<Seq<char>>)> = Seq::empty();
    let mut t: usize = 0;
    while t < d.len()
        invariant
            t <= d@.len(),
            dv == d@.map_values(|v: Vec<char>| v@),
            dv == distinct(ks, ks.len() as int),
            ks == hash_col(hv),
            hv == hashed_view(hashed@),
            hs@.len() == hashed@.len(),
            ps@.len() == hashed@.len(),
            forall|k: int| 0 <= k < hashed@.len() ==> hs@[k]@ == hashed@[k].0@ && ps@[k]@ == hashed@[k].1@,
            c@.len() == d@.len(),
            forall|u: int| 0 <= u < c@.len() ==> c@[u] == occurrences(ks, d@[u]@, ks.len() as int),
            gp.len() == repeated(ks, dv, t as int).len(),
            forall|q: int| 0 <= q < gp.len() ==> is_group_of(hv, repeated(ks, dv, t as int)[q], gp[q]),
            pre@.len() == gp.len(),
            forall|q: int| 0 <= q < gp.len() ==> group_view(pre@[q]) == (gp[q].0, sat_mul(gp[q].1, gp[q].2.len() as u64), gp[q].2),
            totals@ == group_totals(gp),
            waste == waste_sum(gp, gp.len() as int),
        decreases d.len() - t,
    {
        let ghost old_gp = gp;
        if c[t] >= 2 {
            assert(dv[t as int] == d@[t as int]@);
            let (g, size) = build_group(hashed, &hs, &ps, &d[t]);
            let n = g.files.len();
            let w = saturating_mul(size, (n - 1) as u64);
            waste = waste.wrapping_add(w);
            totals.push(g.total_bytes);
            proof {
                gp = old_gp.push((d@[t as int]@, size, texts(g.files@)));
                assert(waste_sum(gp, gp.len() as int) == ((waste_sum(old_gp, old_gp.len() as int) + w) % 0x1_0000_0000_0000_0000) as nat) by {
                    assert(gp.drop_last() =~= old_gp);
                    lemma_waste_sum_prefix(gp, old_gp);
                }
                assert(group_totals(gp) =~= group_totals(old_gp).push(g.total_bytes));
            }
            pre.push(g);
        }
        proof {
            assert forall|q: int| 0 <= q < gp.len() implies is_group_of(hv, repeated(ks, dv, t + 1)[q], gp[q]) by {
                if q < old_gp.len() {
                    assert(gp[q] == old_gp[q]);
                }
            }
            assert forall|q: int| 0 <= q < gp.len() implies group_view(pre@[q]) == (gp[q].0, sat_mul(gp[q].1, gp[q].2.len() as u64), gp[q].2) by {
                if q < old_gp.len() {
                    assert(gp[q] == old_gp[q]);
                }
            }
        }
        t = t + 1;
    }
    let order = stable_desc_order(&totals);
    let mut out: Vec<DuplicateGroup> = Vec::new();
    let mut j: usize = 0;
    while j < order.len()
        invariant
            j <= order@.len(),
            is_stable_desc_order(totals@, order@),
            totals@.len() == pre@.len(),
            out@.len() == j,
            forall|u: int| 0 <= u < j ==> group_view(out@[u]) == group_view(pre@[order@[u] as int]),
        decreases order.len() - j,
    {
        out.push(copy_group(&pre[order[j]]));
        j = j + 1;
    }
    proof {
        assert(dl == dv.len());
        let q = repeated(ks, distinct(ks, ks.len() as int), distinct(ks, ks.len() as int).len() as int);
        assert(is_stable_desc_order(group_totals(gp), order@) && gp.len() == q.len() && (forall|t: int|
            0 <= t < q.len() ==> is_group_of(hv, q[t], gp[t])) && out@.len() == order@.len() && (
        forall|i: int|
            0 <= i < out@.len() ==> group_view(out@[i]) == {
                let g = gp[order@[i] as int];
                (g.0, sat_mul(g.1, g.2.len() as u64), g.2)
            }) && waste == waste_sum(gp, gp.len() as int));
    }
    (out, waste)
}

proof fn lemma_waste_sum_prefix(
    gp: Seq<(Seq<char>, u64, Seq<Seq<char>>)>,
    old_gp: Seq<(Seq<char>, u64, Seq<Seq<char>>)>,
)
    requires
        gp.len() == old_gp.len() + 1,
        forall|q: int| 0 <= q < old_gp.len() ==> gp[q] == old_gp[q],
    ensures
        waste_sum(gp, old_gp.len() as int) == waste_sum(old_gp, old_gp.len() as int),
{
    lemma_waste_sum_agree(gp, old_gp, old_gp.len() as int);
}

proof fn lemma_waste_sum_agree(
    a: Seq<(Seq<char>, u64, Seq<Seq<char>>)>,
    b: Seq<(Seq<char>, u64, Seq<Seq<char>>)>,
    n: int,
)
    requires
        0 <= n <= a.len(),
        n <= b.len(),
        forall|q: int| 0 <= q < n ==> a[q] == b[q],
    ensures
        waste_sum(a, n) == waste_sum(b, n),
    decreases n,
{
    if n > 0 {
        lemma_waste_sum_agree(a, b, n - 1);
    }
}

// ---------------------------------------------------------------------------
// Scan summary
// ---------------------------------------------------------------------------

/// Assembles a scan summary from what the walk found: the roots, every file
/// seen, and the hashes of the files that share their size with another.
pub fn summarize_scan(
    roots: &Vec<String>,
    files: &Vec<String>,
    hashed: &Vec<(String, String, u64)>,
) -> (summary: ScanSummary)
    ensures
        summary.roots_scanned@ == roots@,
        summary.files_seen == files@.len(),
        is_duplicate_grouping(
            unique_hashed(hashed@),
            summary.duplicate_groups@,
            summary.duplicate_waste_bytes,
        ),
        groups_disjoint(summary.duplicate_groups@),
        hit_views(summary.leftovers@) == leftovers_of(texts(files@)),
        is_count_breakdown(
            Seq::new(
                summary.extension_breakdown@.len(),
                |i: int| (summary.extension_breakdown@[i].0@, summary.extension_breakdown@[i].1),
            ),
            ext_keys(texts(files@)),
        ),
{
    let (duplicate_groups, duplicate_waste_bytes) = group_duplicates(hashed);
    let leftovers = detect_leftovers(files);
    let extension_breakdown = extension_breakdown(files);
    ScanSummary {
        roots_scanned: clone_texts(roots),
        files_seen: files.len(),
        duplicate_groups,
        duplicate_waste_bytes,
        leftovers,
        extension_breakdown,
    }
}

// ---------------------------------------------------------------------------
// Ignore rules and cleanup candidates
// ---------------------------------------------------------------------------

/// A path is ignored when, case-insensitively, it contains one of the
/// ignored path fragments, or its `.`-prefixed extension is one of the
/// ignored extensions.
pub open spec fn is_ignored(p: Seq<char>, ignored_paths: Seq<Seq<char>>, ignored_exts: Seq<Seq<char>>) -> bool {
    ||| exists|i: int| 0 <= i < ignored_paths.len() && contains(lower(p), lower(ignored_paths[i]))
    ||| match extension(p) {
        Some(e) => exists|j: int|
            0 <= j < ignored_exts.len() && lower(ignored_exts[j]) == seq!['.'] + lower(e),
        None => false,
    }
}

fn lower_all(v: &Vec<String>) -> (r: Vec<Vec<char>>)
    ensures
        r@.len() == v@.len(),
        forall|i: int| 0 <= i < v@.len() ==> r@[i]@ == lower(v@[i]@),
{
    let mut r: Vec<Vec<char>> = Vec::new();
    let mut i: usize = 0;
    while i < v.len()
        invariant
            i <= v@.len(),
            r@.len() == i,
            forall|k: int| 0 <= k < i ==> r@[k]@ == lower(v@[k]@),
        decreases v.len() - i,
    {
        let c = to_chars(v[i].as_str());
        r.push(lower_chars(&c));
        i = i + 1;
    }
    r
}

fn is_ignored_lowered(
    p: &Vec<char>,
    lp: &Vec<Vec<char>>,
    le: &Vec<Vec<char>>,
    ignored_paths: &Vec<String>,
    ignored_exts: &Vec<String>,
) -> (r: bool)
    requires
        lp@.len() == ignored_paths@.len(),
        forall|i: int| 0 <= i < lp@.len() ==> lp@[i]@ == lower(ignored_paths@[i]@),
        le@.len() == ignored_exts@.len(),
        forall|i: int| 0 <= i < le@.len() ==> le@[i]@ == lower(ignored_exts@[i]@),
    ensures
        r == is_ignored(p@, texts(ignored_paths@), texts(ignored_exts@)),
{
    let ghost ip = texts(ignored_paths@);
    let ghost ie = texts(ignored_exts@);
    let lower_p = lower_chars(p);
    let mut i: usize = 0;
    while i < lp.len()
        invariant
            i <= lp@.len(),
            lp@.len() == ip.len(),
            ip == texts(ignored_paths@),
            forall|k: int| 0 <= k < lp@.len() ==> lp@[k]@ == lower(ignored_paths@[k]@),
            lower_p@ == lower(p@),
            forall|k: int| 0 <= k < i ==> !contains(lower(p@), lower(ip[k])),
        decreases lp.len() - i,
    {
        if contains_chars(&lower_p, &lp[i]) {
            assert(contains(lower(p@), lower(ip[i as int])));
            return true;
        }
        i = i + 1;
    }
    match extension_exec(p) {
        Some(e) => {
            let mut key: Vec<char> = Vec::new();
            key.push('.');
            let l = lower_chars(&e);
            let mut k: usize = 0;
            while k < l.len()
                invariant
                    k <= l@.len(),
                    key@ == seq!['.'] + l@.subrange(0, k as int),
                decreases l.len() - k,
            {
                key.push(l[k]);
                k = k + 1;
                assert(key@ =~= seq!['.'] + l@.subrange(0, k as int));
            }
            assert(l@.subrange(0, l@.len() as int) =~= l@);
            let mut j: usize = 0;
            while j < le.len()
                invariant
                    j <= le@.len(),
                    le@.len() == ie.len(),
                    ie == texts(ignored_exts@),
                    forall|q: int| 0 <= q < le@.len() ==> le@[q]@ == lower(ignored_exts@[q]@),
                    key@ == seq!['.'] + lower(e@),
                    extension(p@) == Some(e@),
                    forall|q: int| 0 <= q < j ==> lower(ie[q]) != key@,
                decreases le.len() - j,
            {
                if chars_eq(&le[j], &key) {
                    assert(lower(ie[j as int]) == key@);
                    assert(extension(p@) == Some(e@));
                    assert(0 <= j < ie.len() && lower(ie[j as int]) == seq!['.'] + lower(e@));
                    assert(is_ignored(p@, texts(ignored_paths@), texts(ignored_exts@)));
                    return true;
                }
                j = j + 1;
            }
            false
        },
        None => false,
    }
}

/// `str` form of the ignore rule.
pub fn is_ignored_path(path: &str, ignored_paths: &Vec<String>, ignored_exts: &Vec<String>) -> (r: bool)
    ensures
        r == is_ignored(path@, texts(ignored_paths@), texts(ignored_exts@)),
{
    let lp = lower_all(ignored_paths);
    let le = lower_all(ignored_exts);
    let p = to_chars(path);
    is_ignored_lowered(&p, &lp, &le, ignored_paths, ignored_exts)
}

/// Every file of a group but its first, group after group.
pub open spec fn group_tails(groups: Seq<DuplicateGroup>, n: int) -> Seq<Seq<char>>
    decreases n,
{
    if n <= 0 {
        Seq::empty()
    } else {
        let f = texts(groups[n - 1].files@);
        group_tails(groups, n - 1) + if f.len() > 0 {
            f.subrange(1, f.len() as int)
        } else {
            Seq::empty()
        }
    }
}

/// The paths that a cleanup batch considers, in the order it considers
/// them: the extra copies of each duplicate group, then the leftovers.
pub open spec fn candidate_sources(summary: ScanSummary) -> Seq<Seq<char>> {
    group_tails(summary.duplicate_groups@, summary.duplicate_groups@.len() as int) + Seq::new(
        summary.leftovers@.len(),
        |i: int| summary.leftovers@[i].path@,
    )
}

/// The sources that still exist, are not ignored and were not taken
/// already, among the first `n`, in order.
pub open spec fn kept_candidates(
    src: Seq<Seq<char>>,
    present: Seq<bool>,
    ignored_paths: Seq<Seq<char>>,
    ignored_exts: Seq<Seq<char>>,
    n: int,
) -> Seq<Seq<char>>
    decreases n,
{
    if n <= 0 {
        Seq::empty()
    } else {
        let prev = kept_candidates(src, present, ignored_paths, ignored_exts, n - 1);
        let i = n - 1;
        if i < present.len() && present[i] && !is_ignored(src[i], ignored_paths, ignored_exts)
            && !prev.contains(src[i]) {
            prev.push(src[i])
        } else {
            prev
        }
    }
}

/// The batch size actually taken: a limit of zero still lets one through.
pub open spec fn batch_cap(limit: usize) -> int {
    if limit == 0 {
        1
    } else {
        limit as int
    }
}

/// What a cleanup batch picks: the kept sources, at most `batch_cap(limit)`.
pub open spec fn cleanup_selection(
    summary: ScanSummary,
    limit: usize,
    ignored_paths: Seq<Seq<char>>,
    ignored_exts: Seq<Seq<char>>,
    present: Seq<bool>,
) -> Seq<Seq<char>> {
    let src = candidate_sources(summary);
    let k = kept_candidates(src, present, ignored_paths, ignored_exts, src.len() as int);
    if k.len() <= batch_cap(limit) {
        k
    } else {
        k.subrange(0, batch_cap(limit))
    }
}

/// The paths a cleanup batch considers, in order (see `candidate_sources`);
/// the caller reports, for each, whether it still exists.
pub fn cleanup_sources(summary: &ScanSummary) -> (src: Vec<String>)
    ensures
        texts(src@) == candidate_sources(*summary),
{
    let groups = &summary.duplicate_groups;
    let mut out: Vec<String> = Vec::new();
    let mut g: usize = 0;
    assert(texts(out@) =~= group_tails(groups@, 0));
    while g < groups.len()
        invariant
            g <= groups@.len(),
            groups == &summary.duplicate_groups,
            texts(out@) == group_tails(groups@, g as int),
        decreases groups.len() - g,
    {
        let files = &groups[g].files;
        let ghost before = texts(out@);
        let ghost f = texts(files@);
        if files.len() > 0 {
            let mut k: usize = 1;
            assert(texts(out@) =~= before + f.subrange(1, 1));
            while k < files.len()
                invariant
                    1 <= k <= files@.len(),
                    f == texts(files@),
                    texts(out@) == before + f.subrange(1, k as int),
                decreases files.len() - k,
            {
                let ghost o = texts(out@);
                out.push(files[k].clone());
                assert(texts(out@) =~= o.push(f[k as int]));
                k = k + 1;
                assert(texts(out@) =~= before + f.subrange(1, k as int));
            }
        } else {
            assert(texts(out@) =~= before + Seq::<Seq<char>>::empty());
        }
        g = g + 1;
        assert(texts(out@) =~= group_tails(groups@, g as int));
    }
    let ghost tails = texts(out@);
    let leftovers = &summary.leftovers;
    let mut i: usize = 0;
    while i < leftovers.len()
        invariant
            i <= leftovers@.len(),
            leftovers == &summary.leftovers,
            texts(out@) == tails + Seq::new(i as nat, |k: int| leftovers@[k].path@),
        decreases leftovers.len() - i,
    {
        let ghost o = texts(out@);
        out.push(leftovers[i].path.clone());
        assert(texts(out@) =~= o.push(leftovers@[i as int].path@));
        i = i + 1;
        assert(texts(out@) =~= tails + Seq::new(i as nat, |k: int| leftovers@[k].path@));
    }
    out
}

proof fn lemma_kept_prefix(
    src: Seq<Seq<char>>,
    present: Seq<bool>,
    ip: Seq<Seq<char>>,
    ie: Seq<Seq<char>>,
    n: int,
    m: int,
)
    requires
        0 <= n <= m,
    ensures
        kept_candidates(src, present, ip, ie, n).len() <= kept_candidates(src, present, ip, ie, m).len(),
        kept_candidates(src, present, ip, ie, m).subrange(
            0,
            kept_candidates(src, present, ip, ie, n).len() as int,
        ) == kept_candidates(src, present, ip, ie, n),
    decreases m - n,
{
    if m > n {
        lemma_kept_prefix(src, present, ip, ie, n, m - 1);
        let a = kept_candidates(src, present, ip, ie, n);
        let b = kept_candidates(src, present, ip, ie, m - 1);
        let c = kept_candidates(src, present, ip, ie, m);
        assert(c.subrange(0, a.len() as int) =~= b.subrange(0, a.len() as int));
    } else {
        let a = kept_candidates(src, present, ip, ie, n);
        assert(a.subrange(0, a.len() as int) =~= a);
    }
}

pub(crate) fn contains_text(v: &Vec<String>, x: &Vec<char>) -> (r: bool)
    ensures
        r == texts(v@).contains(x@),
{
    let mut i: usize = 0;
    while i < v.len()
        invariant
            i <= v@.len(),
            forall|k: int| 0 <= k < i ==> v@[k]@ != x@,
        decreases v.len() - i,
    {
        let c = to_chars(v[i].as_str());
        if chars_eq(&c, x) {
            assert(texts(v@)[i as int] == x@);
            return true;
        }
        i = i + 1;
    }
    proof {
        if texts(v@).contains(x@) {
            let k = choose|k: int| 0 <= k < texts(v@).len() && texts(v@)[k] == x@;
            assert(v@[k]@ == x@);
        }
    }
    false
}

/// The next batch of cleanup candidates: extra duplicate copies first, then
/// leftovers; skipping paths that no longer exist (`present[i]` tells for
/// the i-th of `cleanup_sources`, a missing entry counting as gone), that
/// the ignore rules cover, or that were taken already; at most `limit`
/// (one when `limit` is zero).
pub fn cleanup_candidates(
    summary: &ScanSummary,
    limit: usize,
    ignored_paths: &Vec<String>,
    ignored_exts: &Vec<String>,
    present: &Vec<bool>,
) -> (out: Vec<String>)
    ensures
        texts(out@) == cleanup_selection(
            *summary,
            limit,
            texts(ignored_paths@),
            texts(ignored_exts@),
            present@,
        ),
{
    let ghost ip = texts(ignored_paths@);
    let ghost ie = texts(ignored_exts@);
    let src = cleanup_sources(summary);
    let ghost sv = texts(src@);
    let lp = lower_all(ignored_paths);
    let le = lower_all(ignored_exts);
    let mut out: Vec<String> = Vec::new();
    let mut i: usize = 0;
    while i < src.len()
        invariant
            i <= src@.len(),
            sv == texts(src@),
            sv == candidate_sources(*summary),
            ip == texts(ignored_paths@),
            ie == texts(ignored_exts@),
            lp@.len() == ignored_paths@.len(),
            forall|k: int| 0 <= k < lp@.len() ==> lp@[k]@ == lower(ignored_paths@[k]@),
            le@.len() == ignored_exts@.len(),
            forall|k: int| 0 <= k < le@.len() ==> le@[k]@ == lower(ignored_exts@[k]@),
            texts(out@) == kept_candidates(sv, present@, ip, ie, i as int),
            out@.len() < batch_cap(limit),
        decreases src.len() - i,
    {
        let c = to_chars(src[i].as_str());
        let keep = i < present.len() && present[i] && !is_ignored_lowered(
            &c,
            &lp,
            &le,
            ignored_paths,
            ignored_exts,
        ) && !contains_text(&out, &c);
        if keep {
            out.push(src[i].clone());
        }
        i = i + 1;
        assert(texts(out@) =~= kept_candidates(sv, present@, ip, ie, i as int));
        if keep && out.len() >= limit {
            proof {
                lemma_kept_prefix(sv, present@, ip, ie, i as int, sv.len() as int);
                let kall = kept_candidates(sv, present@, ip, ie, sv.len() as int);
                assert(out@.len() == batch_cap(limit));
                if kall.len() <= batch_cap(limit) {
                    assert(kall =~= texts(out@));
                }
            }
            return out;
        }
    }
    out
}

// ---------------------------------------------------------------------------
// Content hashing (BLAKE3)
// ---------------------------------------------------------------------------

#[verifier::external_type_specification]
#[verifier::external_body]
pub struct ExBlake3Hasher(blake3::Hasher);

/// The bytes a `blake3::Hasher` has been fed since it was created.
pub uninterp spec fn blake3_input(h: blake3::Hasher) -> Seq<u8>;

/// Lower-case hexadecimal BLAKE3 digest of a byte string.
pub uninterp spec fn blake3_hex(input: Seq<u8>) -> Seq<char>;

/// `blake3::Hasher::new`: a hasher that has been fed nothing.
#[verifier::external_body]
fn blake3_new() -> (h: blake3::Hasher)
    ensures
        blake3_input(h) == Seq::<u8>::empty(),
{
    blake3::Hasher::new()
}

/// `blake3::Hasher::update`: feeding appends the bytes to the input
/// (hashing in pieces equals hashing the concatenation).
#[verifier::external_body]
fn blake3_update(h: &mut blake3::Hasher, data: &[u8])
    ensures
        blake3_input(*final(h)) == blake3_input(*old(h)) + data@,
{
    h.update(data);
}

/// `blake3::Hasher::finalize` followed by `Hash::to_hex`: the 64 lower-case
/// hexadecimal digits of the digest of everything fed so far.
#[verifier::external_body]
fn blake3_finalize_hex(h: &blake3::Hasher) -> (hex: String)
    ensures
        hex@ == blake3_hex(blake3_input(*h)),
        hex@.len() == 64,
{
    h.finalize().to_hex().to_string()
}

/// Incremental content hashing for duplicate detection.
pub struct ContentHasher {
    inner: blake3::Hasher,
}

impl ContentHasher {
    /// Everything fed so far.
    pub closed spec fn fed(&self) -> Seq<u8> {
        blake3_input(self.inner)
    }

    pub fn new() -> (h: Self)
        ensures
            h.fed() == Seq::<u8>::empty(),
    {
        ContentHasher { inner: blake3_new() }
    }

    /// Feeds the next chunk of a file.
    pub fn absorb(&mut self, chunk: &[u8])
        ensures
            final(self).fed() == old(self).fed() + chunk@,
    {
        blake3_update(&mut self.inner, chunk);
    }

    /// The digest of everything fed, as 64 lower-case hex digits.
    pub fn hex_digest(&self) -> (hex: String)
        ensures
            hex@ == blake3_hex(self.fed()),
            hex@.len() == 64,
    {
        blake3_finalize_hex(&self.inner)
    }
}

/// The BLAKE3 digest of a byte string, as 64 lower-case hex digits.
pub fn hash_bytes(data: &[u8]) -> (hex: String)
    ensures
        hex@ == blake3_hex(data@),
        hex@.len() == 64,
{
    let mut h = ContentHasher::new();
    h.absorb(data);
    assert(h.fed() =~= data@);
    h.hex_digest()
}

} // verus!
