//! Bookkeeping of cleanup batches and quarantine restores.
//!
//! Moving, deleting and renaming files is the caller's work; it reports
//! what happened to each path, and these functions keep the counters, the
//! log lines and the quarantine index.

use vstd::prelude::*;
use crate::models::{CleanupMode, CleanupResult, QuarantineEntry, texts};
use crate::paths::{join, join_exec, file_name};
use crate::laws::law_quarantine_target_name;
use crate::text::{to_chars, from_chars, concat, concat3, copy_str, decimal, usize_string};
use crate::scanner::{clone_texts, contains_text};
use crate::laws::lemma_candidates_not_all_taken;

verus! {

// ---------------------------------------------------------------------------
// Quarantine file names
// ---------------------------------------------------------------------------

/// A path flattened into one file name: `:` dropped, separators turned into
/// `_`.
pub open spec fn sanitize(s: Seq<char>) -> Seq<char>
    decreases s.len(),
{
    if s.len() == 0 {
        Seq::empty()
    } else {
        let c = s.last();
        sanitize(s.drop_last()) + if c == ':' {
            Seq::<char>::empty()
        } else if c == '\\' || c == '/' {
            seq!['_']
        } else {
            seq![c]
        }
    }
}

/// Flattens a path into a file name usable inside the quarantine folder.
pub fn sanitize_for_fs(path: &str) -> (r: String)
    ensures
        r@ == sanitize(path@),
{
    let v = to_chars(path);
    let mut out: Vec<char> = Vec::new();
    let mut i: usize = 0;
    while i < v.len()
        invariant
            i <= v@.len(),
            v@ == path@,
            out@ == sanitize(v@.subrange(0, i as int)),
        decreases v.len() - i,
    {
        let c = v[i];
        if c == ':' {
        } else if c == '\\' || c == '/' {
            out.push('_');
        } else {
            out.push(c);
        }
        proof {
            let p = v@.subrange(0, i + 1);
            assert(p.drop_last() =~= v@.subrange(0, i as int));
            assert(p.last() == c);
        }
        i = i + 1;
        assert(out@ =~= sanitize(v@.subrange(0, i as int)));
    }
    assert(v@.subrange(0, v@.len() as int) =~= v@);
    from_chars(&out)
}

/// What tells apart the `k`-th candidate name for one file and stamp:
/// nothing for the first, `_k` after it.
pub open spec fn copy_suffix(k: nat) -> Seq<char> {
    if k == 0 {
        Seq::empty()
    } else {
        "_"@ + decimal(k)
    }
}

/// Where a file goes in quarantine, as the `k`-th candidate:
/// `<dir>/<stamp>_<sanitized path><suffix>`.
pub open spec fn quarantine_target_spec(dir: Seq<char>, stamp: Seq<char>, path: Seq<char>, k: nat) -> Seq<char> {
    join(dir, stamp + "_"@ + sanitize(path) + copy_suffix(k))
}

/// The `k`-th candidate quarantine destination of `path` for the given
/// time stamp.
pub fn quarantine_target(dir: &str, stamp: &str, path: &str, k: usize) -> (r: String)
    ensures
        r@ == quarantine_target_spec(dir@, stamp@, path@, k as nat),
{
    let safe = sanitize_for_fs(path);
    let name = concat3(stamp, "_", safe.as_str());
    if k == 0 {
        proof {
            assert(name@ + copy_suffix(0) =~= name@);
        }
        join_exec(dir, name.as_str())
    } else {
        let n = usize_string(k);
        let full = concat3(name.as_str(), "_", n.as_str());
        proof {
            reveal_strlit("_");
            assert(full@ =~= name@ + copy_suffix(k as nat));
        }
        join_exec(dir, full.as_str())
    }
}

/// A character of a compact time stamp: a digit, the `_` between date and
/// time, or the sign chrono puts before a year outside 0..=9999.
pub open spec fn stamp_char(c: char) -> bool {
    ('0' <= c && c <= '9') || c == '_' || c == '+' || c == '-'
}

/// `chrono::Local::now().format("%Y%m%d_%H%M%S")`: the local time as a
/// compact stamp. Which time it shows depends on the clock; chrono
/// documents each field as zero-padded digits (`%Y` at least four, with a
/// sign for years outside 0..=9999), so the stamp has at least fifteen
/// characters, each a digit, `_` or a sign.
#[verifier::external_body]
fn local_compact_stamp() -> (stamp: String)
    ensures
        stamp@.len() >= 15,
        forall|j: int| 0 <= j < stamp@.len() ==> stamp_char(#[trigger] stamp@[j]),
{
    chrono::Local::now().format("%Y%m%d_%H%M%S").to_string()
}

/// `t` is a candidate destination for `path` that is not taken, and every
/// earlier candidate for the same stamp is taken.
pub open spec fn first_free_target(
    t: Seq<char>,
    dir: Seq<char>,
    stamp: Seq<char>,
    path: Seq<char>,
    k: nat,
    taken: Seq<Seq<char>>,
) -> bool {
    &&& t == quarantine_target_spec(dir, stamp, path, k)
    &&& !taken.contains(t)
    &&& forall|j: nat| j < k ==> taken.contains(#[trigger] quarantine_target_spec(dir, stamp, path, j))
}

/// `t` is the first free candidate destination for `path` under some
/// stamp the local clock writes.
pub open spec fn fresh_target(t: Seq<char>, dir: Seq<char>, path: Seq<char>, taken: Seq<Seq<char>>) -> bool {
    exists|stamp: Seq<char>, k: nat| is_stamp(stamp) && #[trigger] first_free_target(t, dir, stamp, path, k, taken)
}

/// A stamp as the local clock writes it.
pub open spec fn is_stamp(stamp: Seq<char>) -> bool {
    stamp.len() >= 15 && forall|j: int| 0 <= j < stamp.len() ==> stamp_char(#[trigger] stamp[j])
}

/// The quarantine destination of `path`, stamped with the current local
/// time: the first candidate that none of `taken` (the destinations in use)
/// holds. It lies directly inside `dir`.
pub fn unique_quarantine_target(dir: &str, path: &str, taken: &Vec<String>) -> (r: String)
    ensures
        exists|stamp: Seq<char>, k: nat|
            #![trigger quarantine_target_spec(dir@, stamp, path@, k)]
            is_stamp(stamp) && first_free_target(r@, dir@, stamp, path@, k, texts(taken@)) && file_name(r@)
                == Some(stamp + "_"@ + sanitize(path@) + copy_suffix(k)),
{
    let stamp = local_compact_stamp();
    let ghost tk = texts(taken@);
    let total: usize = taken.len();
    let mut k: usize = 0;
    loop
        invariant
            k <= total,
            total == taken@.len(),
            tk == texts(taken@),
            is_stamp(stamp@),
            forall|j: nat| j < k ==> tk.contains(#[trigger] quarantine_target_spec(dir@, stamp@, path@, j)),
        decreases total - k,
    {
        let t = quarantine_target(dir, stamp.as_str(), path, k);
        let c = to_chars(t.as_str());
        if !contains_text(taken, &c) {
            proof {
                law_quarantine_target_name(dir@, stamp@, path@, k as nat);
                assert(first_free_target(t@, dir@, stamp@, path@, k as nat, tk));
            }
            return t;
        }
        proof {
            assert(tk.contains(quarantine_target_spec(dir@, stamp@, path@, k as nat)));
            assert forall|j: nat| j <= k implies tk.contains(#[trigger] quarantine_target_spec(dir@, stamp@, path@, j)) by {
                if j < k {
                }
            }
            if k == taken@.len() {
                lemma_candidates_not_all_taken(dir@, stamp@, path@, tk);
            }
        }
        k = k + 1;
    }
}

/// Destinations for a batch, in order: each is the first candidate for its
/// path that neither `taken` nor an earlier destination of the batch holds,
/// so no two coincide and none is in use.
pub fn quarantine_targets(dir: &str, paths: &Vec<String>, taken: &Vec<String>) -> (targets: Vec<String>)
    ensures
        targets@.len() == paths@.len(),
        forall|i: int| 0 <= i < targets@.len() ==> !texts(taken@).contains(#[trigger] targets@[i]@),
        forall|i: int, j: int| 0 <= i < j < targets@.len() ==> targets@[i]@ != targets@[j]@,
        forall|i: int|
            0 <= i < targets@.len() ==> fresh_target(
                #[trigger] targets@[i]@,
                dir@,
                paths@[i]@,
                texts(taken@) + texts(targets@.subrange(0, i)),
            ),
{
    let mut targets: Vec<String> = Vec::new();
    let mut in_use: Vec<String> = clone_texts(taken);
    let mut i: usize = 0;
    while i < paths.len()
        invariant
            i <= paths@.len(),
            targets@.len() == i,
            texts(in_use@) == texts(taken@) + texts(targets@),
            forall|a: int| 0 <= a < i ==> !texts(taken@).contains(#[trigger] targets@[a]@),
            forall|a: int, b: int| 0 <= a < b < i ==> targets@[a]@ != targets@[b]@,
            forall|a: int|
                0 <= a < i ==> fresh_target(
                    #[trigger] targets@[a]@,
                    dir@,
                    paths@[a]@,
                    texts(taken@) + texts(targets@.subrange(0, a)),
                ),
        decreases paths.len() - i,
    {
        let t = unique_quarantine_target(dir, paths[i].as_str(), &in_use);
        let ghost before = targets@;
        let ghost used = texts(in_use@);
        let ghost (st, kk) = choose|stamp: Seq<char>, k: nat|
            #![trigger quarantine_target_spec(dir@, stamp, paths@[i as int]@, k)]
            is_stamp(stamp) && first_free_target(t@, dir@, stamp, paths@[i as int]@, k, used) && file_name(t@)
                == Some(stamp + "_"@ + sanitize(paths@[i as int]@) + copy_suffix(k));
        proof {
            assert(texts(before.subrange(0, i as int)) =~= texts(before));
            assert forall|a: int| 0 <= a < i implies before[a]@ != t@ by {
                assert(texts(before)[a] == before[a]@);
                assert(used[texts(taken@).len() + a] == before[a]@);
            }
            assert(!texts(taken@).contains(t@)) by {
                if texts(taken@).contains(t@) {
                    let w = choose|w: int| 0 <= w < texts(taken@).len() && texts(taken@)[w] == t@;
                    assert(used[w] == t@);
                }
            }
        }
        let copy = t.clone();
        targets.push(t);
        in_use.push(copy);
        proof {
            assert(texts(in_use@) =~= used.push(targets@[i as int]@));
            assert(texts(in_use@) =~= texts(taken@) + texts(targets@));
            assert(texts(targets@.subrange(0, i as int)) =~= texts(before));
            assert(texts(taken@) + texts(targets@.subrange(0, i as int)) =~= used);
            assert(first_free_target(targets@[i as int]@, dir@, st, paths@[i as int]@, kk, texts(taken@) + texts(targets@.subrange(0, i as int))));
            assert forall|a: int|
                0 <= a <= i implies fresh_target(
                    #[trigger] targets@[a]@,
                    dir@,
                    paths@[a]@,
                    texts(taken@) + texts(targets@.subrange(0, a)),
                ) by {
                if a < i {
                    assert(targets@[a] == before[a]);
                    assert(texts(targets@.subrange(0, a)) =~= texts(before.subrange(0, a)));
                } else {
                    assert(quarantine_target_spec(dir@, st, paths@[a]@, kk) == targets@[a]@);
                }
            }
        }
        i = i + 1;
    }
    targets
}

// ---------------------------------------------------------------------------
// Cleanup batches
// ---------------------------------------------------------------------------

/// What happened to one path of a cleanup batch.
pub enum CleanupOutcome {
    /// The path no longer existed; it was skipped.
    Missing,
    /// Moving or deleting failed.
    Failed,
    /// The path was deleted (plainly or after being overwritten).
    Deleted,
    /// The path was moved into quarantine at `target`, at `timestamp`.
    Quarantined { target: String, timestamp: String },
}

/// The outcome for one path, from whether it existed and whether the move
/// or deletion that `mode` asks for went through; a quarantine move records
/// its destination and time.
pub fn cleanup_outcome(mode: CleanupMode, exists: bool, done: bool, target: String, timestamp: String) -> (r: CleanupOutcome)
    ensures
        !exists ==> r is Missing,
        exists && !done ==> r is Failed,
        exists && done && mode is Quarantine ==> r == (CleanupOutcome::Quarantined { target, timestamp }),
        exists && done && !(mode is Quarantine) ==> r is Deleted,
{
    if !exists {
        CleanupOutcome::Missing
    } else if !done {
        CleanupOutcome::Failed
    } else {
        match mode {
            CleanupMode::Quarantine => CleanupOutcome::Quarantined { target, timestamp },
            _ => CleanupOutcome::Deleted,
        }
    }
}

/// The log line for a path that could not be processed.
pub open spec fn failure_line(mode: CleanupMode, path: Seq<char>) -> Seq<char> {
    match mode {
        CleanupMode::Quarantine => "Failed to quarantine "@ + path,
        CleanupMode::Delete => "Failed to delete "@ + path,
        CleanupMode::SecureDelete => "Failed secure delete "@ + path,
    }
}

/// The view of a quarantine index entry:
/// (original path, quarantined path, time stamp, restored).
pub open spec fn entry_view(e: QuarantineEntry) -> (Seq<char>, Seq<char>, Seq<char>, bool) {
    (e.original_path@, e.quarantined_path@, e.timestamp@, e.restored)
}

pub open spec fn entry_views(v: Seq<QuarantineEntry>) -> Seq<(Seq<char>, Seq<char>, Seq<char>, bool)> {
    Seq::new(v.len(), |i: int| entry_view(v[i]))
}

/// Counters, log lines and new index entries of a batch after its first `n`
/// paths: (moved, deleted, failed, logs, new entries).
pub open spec fn batch_tally(
    paths: Seq<Seq<char>>,
    mode: CleanupMode,
    outcomes: Seq<CleanupOutcome>,
    n: int,
) -> (nat, nat, nat, Seq<Seq<char>>, Seq<(Seq<char>, Seq<char>, Seq<char>, bool)>)
    decreases n,
{
    if n <= 0 {
        (0, 0, 0, Seq::empty(), Seq::empty())
    } else {
        let (m, d, f, logs, added) = batch_tally(paths, mode, outcomes, n - 1);
        let i = n - 1;
        if i >= outcomes.len() {
            (m, d, f, logs, added)
        } else {
            match outcomes[i] {
                CleanupOutcome::Missing => (m, d, f, logs, added),
                CleanupOutcome::Failed => (m, d, f + 1, logs.push(failure_line(mode, paths[i])), added),
                CleanupOutcome::Deleted => (m, d + 1, f, logs, added),
                CleanupOutcome::Quarantined { target, timestamp } => (
                    m + 1,
                    d,
                    f,
                    logs,
                    added.push((paths[i], target@, timestamp@, false)),
                ),
            }
        }
    }
}

proof fn lemma_batch_tally_bounds(
    paths: Seq<Seq<char>>,
    mode: CleanupMode,
    outcomes: Seq<CleanupOutcome>,
    n: int,
)
    requires
        0 <= n,
    ensures
        batch_tally(paths, mode, outcomes, n).0 + batch_tally(paths, mode, outcomes, n).1
            + batch_tally(paths, mode, outcomes, n).2 <= n,
    decreases n,
{
    if n > 0 {
        lemma_batch_tally_bounds(paths, mode, outcomes, n - 1);
    }
}

fn failure_message(mode: CleanupMode, path: &str) -> (r: String)
    ensures
        r@ == failure_line(mode, path@),
{
    match mode {
        CleanupMode::Quarantine => concat("Failed to quarantine ", path),
        CleanupMode::Delete => concat("Failed to delete ", path),
        CleanupMode::SecureDelete => concat("Failed secure delete ", path),
    }
}

/// Records a cleanup batch: the counters and log lines of the result, and
/// a new (unrestored) quarantine index entry for each path moved. Paths
/// beyond the reported outcomes count as skipped.
pub fn tally_cleanup(
    paths: &Vec<String>,
    mode: CleanupMode,
    outcomes: &Vec<CleanupOutcome>,
    index: &mut Vec<QuarantineEntry>,
) -> (result: CleanupResult)
    ensures
        ({
            let (m, d, f, logs, added) = batch_tally(texts(paths@), mode, outcomes@, paths@.len() as int);
            &&& result.moved == m
            &&& result.deleted == d
            &&& result.failed == f
            &&& result.restored == 0
            &&& texts(result.logs@) == logs
            &&& entry_views(final(index)@) == entry_views(old(index)@) + added
        }),
{
    let ghost tp = texts(paths@);
    let ghost start = entry_views(index@);
    let mut result = CleanupResult::default();
    let mut i: usize = 0;
    assert(texts(result.logs@) =~= Seq::<Seq<char>>::empty());
    assert(entry_views(index@) =~= start + Seq::empty());
    while i < paths.len()
        invariant
            i <= paths@.len(),
            tp == texts(paths@),
            ({
                let (m, d, f, logs, added) = batch_tally(tp, mode, outcomes@, i as int);
                &&& result.moved == m
                &&& result.deleted == d
                &&& result.failed == f
                &&& result.restored == 0
                &&& texts(result.logs@) == logs
                &&& entry_views(index@) == start + added
            }),
        decreases paths.len() - i,
    {
        proof {
            lemma_batch_tally_bounds(tp, mode, outcomes@, i as int);
        }
        let ghost old_logs = texts(result.logs@);
        let ghost old_index = entry_views(index@);
        if i < outcomes.len() {
            match &outcomes[i] {
                CleanupOutcome::Missing => {},
                CleanupOutcome::Failed => {
                    result.failed = result.failed + 1;
                    let line = failure_message(mode, paths[i].as_str());
                    result.logs.push(line);
                    assert(texts(result.logs@) =~= old_logs.push(failure_line(mode, tp[i as int])));
                },
                CleanupOutcome::Deleted => {
                    result.deleted = result.deleted + 1;
                },
                CleanupOutcome::Quarantined { target, timestamp } => {
                    result.moved = result.moved + 1;
                    index.push(
                        QuarantineEntry {
                            original_path: paths[i].clone(),
                            quarantined_path: target.clone(),
                            timestamp: timestamp.clone(),
                            restored: false,
                        },
                    );
                    assert(entry_views(index@) =~= old_index.push(
                        (tp[i as int], target@, timestamp@, false),
                    ));
                },
            }
        }
        i = i + 1;
    }
    result
}

// ---------------------------------------------------------------------------
// Restores
// ---------------------------------------------------------------------------

/// Indices of the unrestored entries of `index[..n]`, newest first.
pub open spec fn unrestored_newest_first(index: Seq<QuarantineEntry>, n: int) -> Seq<usize>
    decreases n,
{
    if n <= 0 {
        Seq::empty()
    } else if !index[n - 1].restored {
        seq![(n - 1) as usize] + unrestored_newest_first(index, n - 1)
    } else {
        unrestored_newest_first(index, n - 1)
    }
}

pub open spec fn pending(index: Seq<QuarantineEntry>) -> Seq<usize> {
    unrestored_newest_first(index, index.len() as int)
}

pub proof fn lemma_pending_entries(index: Seq<QuarantineEntry>, n: int)
    requires
        0 <= n <= index.len(),
        index.len() <= usize::MAX,
    ensures
        forall|k: int|
            0 <= k < unrestored_newest_first(index, n).len() ==> unrestored_newest_first(
                index,
                n,
            )[k] < n && !index[unrestored_newest_first(index, n)[k] as int].restored,
        forall|k: int, l: int|
            0 <= k < l < unrestored_newest_first(index, n).len() ==> unrestored_newest_first(
                index,
                n,
            )[k] > unrestored_newest_first(index, n)[l],
    decreases n,
{
    if n > 0 {
        lemma_pending_entries(index, n - 1);
        let s = unrestored_newest_first(index, n);
        let p = unrestored_newest_first(index, n - 1);
        if !index[n - 1].restored {
            assert(s == seq![(n - 1) as usize] + p);
            assert forall|k: int| 0 <= k < s.len() implies s[k] < n && !index[s[k] as int].restored by {
                if k > 0 {
                    assert(s[k] == p[k - 1]);
                }
            }
            assert forall|k: int, l: int| 0 <= k < l < s.len() implies s[k] > s[l] by {
                assert(s[l] == p[l - 1]);
                if k > 0 {
                    assert(s[k] == p[k - 1]);
                }
            }
        }
    }
}

/// The first `limit` pending entries, newest first.
pub open spec fn restore_selection(index: Seq<QuarantineEntry>, limit: usize) -> Seq<usize> {
    if pending(index).len() <= limit {
        pending(index)
    } else {
        pending(index).subrange(0, limit as int)
    }
}

/// The entries a bulk restore tries: the `limit` most recently quarantined
/// of those not restored yet, newest first.
pub fn restore_plan(index: &Vec<QuarantineEntry>, limit: usize) -> (plan: Vec<usize>)
    ensures
        plan@ == restore_selection(index@, limit),
{
    let mut all: Vec<usize> = Vec::new();
    let mut k: usize = index.len();
    assert(all@ =~= unrestored_newest_first(index@, index@.len() as int).subrange(0, 0));
    proof {
        lemma_pending_entries(index@, index@.len() as int);
    }
    // Walk from the newest entry back.
    let ghost full = pending(index@);
    while k > 0
        invariant
            k <= index@.len(),
            full == pending(index@),
            all@ + unrestored_newest_first(index@, k as int) == full,
        decreases k,
    {
        k = k - 1;
        if !index[k].restored {
            all.push(k);
            assert(unrestored_newest_first(index@, k + 1) == seq![k] + unrestored_newest_first(index@, k as int));
        }
        assert(all@ + unrestored_newest_first(index@, k as int) =~= full);
    }
    assert(all@ =~= full);
    if all.len() > limit {
        all.truncate(limit);
    }
    all
}

/// The entry that a targeted restore of the `offset`-th pending item tries,
/// counted as the quarantine browser lists them (oldest first).
pub fn unrestored_at(index: &Vec<QuarantineEntry>, offset: usize) -> (r: Option<usize>)
    ensures
        r == (if offset < unrestored_oldest_first(index@, index@.len() as int).len() {
            Some(unrestored_oldest_first(index@, index@.len() as int)[offset as int])
        } else {
            None::<usize>
        }),
{
    let listed = unrestored_entries(index);
    if offset < listed.len() {
        Some(listed[offset])
    } else {
        None
    }
}

/// Indices of the unrestored entries of `index[..n]`, oldest first, as the
/// quarantine browser lists them.
pub open spec fn unrestored_oldest_first(index: Seq<QuarantineEntry>, n: int) -> Seq<usize>
    decreases n,
{
    if n <= 0 {
        Seq::empty()
    } else if !index[n - 1].restored {
        unrestored_oldest_first(index, n - 1).push((n - 1) as usize)
    } else {
        unrestored_oldest_first(index, n - 1)
    }
}

/// The entries the quarantine browser lists: those not restored yet, in
/// index order.
pub fn unrestored_entries(index: &Vec<QuarantineEntry>) -> (r: Vec<usize>)
    ensures
        r@ == unrestored_oldest_first(index@, index@.len() as int),
{
    let mut r: Vec<usize> = Vec::new();
    let mut i: usize = 0;
    while i < index.len()
        invariant
            i <= index@.len(),
            r@ == unrestored_oldest_first(index@, i as int),
        decreases index.len() - i,
    {
        if !index[i].restored {
            r.push(i);
        }
        i = i + 1;
    }
    r
}

/// What happened to one entry of a restore.
#[derive(Clone, Copy, PartialEq, Eq, Structural)]
pub enum RestoreOutcome {
    /// The quarantined file was gone; the entry is marked restored anyway.
    Vanished,
    /// The file was moved back.
    Restored,
    /// Moving it back failed.
    Failed,
}

/// The index and counters after the first `n` steps of a restore:
/// (index, restored, failed, logs).
pub open spec fn restore_tally(
    index: Seq<QuarantineEntry>,
    plan: Seq<usize>,
    outcomes: Seq<RestoreOutcome>,
    n: int,
) -> (Seq<QuarantineEntry>, nat, nat, Seq<Seq<char>>)
    decreases n,
{
    if n <= 0 {
        (index, 0, 0, Seq::empty())
    } else {
        let (ix, r, f, logs) = restore_tally(index, plan, outcomes, n - 1);
        let k = n - 1;
        let t = plan[k] as int;
        if t >= ix.len() {
            (ix, r, f, logs)
        } else {
            match outcomes[k] {
                RestoreOutcome::Vanished => (
                    ix.update(t, QuarantineEntry { restored: true, ..ix[t] }),
                    r,
                    f,
                    logs,
                ),
                RestoreOutcome::Restored => (
                    ix.update(t, QuarantineEntry { restored: true, ..ix[t] }),
                    r + 1,
                    f,
                    logs,
                ),
                RestoreOutcome::Failed => (
                    ix,
                    r,
                    f + 1,
                    logs.push("Failed restore "@ + ix[t].original_path@),
                ),
            }
        }
    }
}

proof fn lemma_restore_tally_facts(
    index: Seq<QuarantineEntry>,
    plan: Seq<usize>,
    outcomes: Seq<RestoreOutcome>,
    n: int,
)
    requires
        0 <= n,
    ensures
        restore_tally(index, plan, outcomes, n).0.len() == index.len(),
        restore_tally(index, plan, outcomes, n).1 + restore_tally(index, plan, outcomes, n).2 <= n,
    decreases n,
{
    if n > 0 {
        lemma_restore_tally_facts(index, plan, outcomes, n - 1);
    }
}

/// Applies the outcomes of a restore to the index: each entry of `plan`
/// whose file came back, or was gone, is marked restored; failures are
/// counted and logged. Steps beyond the shorter of `plan` and `outcomes`,
/// and plan entries outside the index, are ignored.
pub fn apply_restore_outcomes(
    index: &mut Vec<QuarantineEntry>,
    plan: &Vec<usize>,
    outcomes: &Vec<RestoreOutcome>,
) -> (result: CleanupResult)
    ensures
        ({
            let n = if plan@.len() <= outcomes@.len() { plan@.len() } else { outcomes@.len() };
            let (ix, r, f, logs) = restore_tally(old(index)@, plan@, outcomes@, n as int);
            &&& final(index)@ == ix
            &&& result.restored == r
            &&& result.failed == f
            &&& result.moved == 0
            &&& result.deleted == 0
            &&& texts(result.logs@) == logs
        }),
{
    let ghost start = index@;
    let n = if plan.len() <= outcomes.len() {
        plan.len()
    } else {
        outcomes.len()
    };
    let mut result = CleanupResult::default();
    assert(texts(result.logs@) =~= Seq::<Seq<char>>::empty());
    let mut k: usize = 0;
    while k < n
        invariant
            k <= n,
            n <= plan@.len(),
            n <= outcomes@.len(),
            ({
                let (ix, r, f, logs) = restore_tally(start, plan@, outcomes@, k as int);
                &&& index@ == ix
                &&& result.restored == r
                &&& result.failed == f
                &&& result.moved == 0
                &&& result.deleted == 0
                &&& texts(result.logs@) == logs
            }),
        decreases n - k,
    {
        proof {
            lemma_restore_tally_facts(start, plan@, outcomes@, k as int);
        }
        let t = plan[k];
        if t < index.len() {
            let ghost old_logs = texts(result.logs@);
            match outcomes[k] {
                RestoreOutcome::Vanished => {
                    let e = QuarantineEntry {
                        original_path: index[t].original_path.clone(),
                        quarantined_path: index[t].quarantined_path.clone(),
                        timestamp: index[t].timestamp.clone(),
                        restored: true,
                    };
                    index.set(t, e);
                },
                RestoreOutcome::Restored => {
                    let e = QuarantineEntry {
                        original_path: index[t].original_path.clone(),
                        quarantined_path: index[t].quarantined_path.clone(),
                        timestamp: index[t].timestamp.clone(),
                        restored: true,
                    };
                    index.set(t, e);
                    result.restored = result.restored + 1;
                },
                RestoreOutcome::Failed => {
                    result.failed = result.failed + 1;
                    let line = concat("Failed restore ", index[t].original_path.as_str());
                    result.logs.push(line);
                    assert(texts(result.logs@) =~= old_logs.push(
                        "Failed restore "@ + index@[t as int].original_path@,
                    ));
                },
            }
        }
        k = k + 1;
    }
    result
}

/// The result of a targeted restore when no pending item has the requested
/// offset.
pub fn missing_item_result() -> (result: CleanupResult)
    ensures
        result.moved == 0,
        result.restored == 0,
        result.deleted == 0,
        result.failed == 1,
        texts(result.logs@) == seq!["No quarantine item at requested index"@],
{
    let mut result = CleanupResult::default();
    result.failed = 1;
    result.logs.push(copy_str("No quarantine item at requested index"));
    assert(texts(result.logs@) =~= seq!["No quarantine item at requested index"@]);
    result
}

} // verus!
