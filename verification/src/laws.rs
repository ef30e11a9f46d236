//! Properties that hold across the library's operations, stated over the
//! same models the operations' contracts use.

use vstd::prelude::*;
use vstd::relations::injective_on;
use vstd::seq_lib::seq_to_set_is_finite;
use vstd::set_lib::{lemma_int_range, lemma_len_subset, lemma_map_size, lemma_subset_equality, set_int_range};
use crate::cleanup::{
    batch_tally, copy_suffix, entry_views, lemma_pending_entries, pending, quarantine_target_spec,
    restore_selection, restore_tally, sanitize, unrestored_newest_first, CleanupOutcome,
    RestoreOutcome,
};
use crate::control::{
    dup_rows, group_rows, is_candidate_listing, is_listing_order, leftover_rows,
    lemma_split_pieces_nonempty, list_tokens, nonempty_trimmed, passes_filter, root_tokens,
    split_pieces, DuplicateSort, RowView,
};
use crate::health::{
    overall_score_spec, score_sum, health_rows, row_metrics, row_warnings, row_recommendations,
    metric_view, metric_views, HealthProbes, MetricRow, disk_free_score_spec, memory_score_spec,
    temp_score_spec, process_bloat_score_spec, startup_entry_score_spec, service_score_spec,
};
use crate::integrity::{
    config_issue, executable_issues, file_issues_spec, integrity_score_spec, partial_issue,
    severity_count, sibling_issue, verdict_issue, zero_issue, zip_issue, FileFacts, IssueView,
};
use crate::models::{
    HealthReport, RunMode,
    texts, CleanupMode, DuplicateGroup, HealthMetric, HistoryEntry, IntegrityIssue, LeftoverHit,
    QuarantineEntry, ScanSummary,
};
use crate::order::{is_permutation, is_stable_desc_order, is_stable_path_order};
use crate::paths::{file_name, is_sep, join_sep, name_start, trimmed_len};
use crate::scanner::{
    batch_cap, candidate_sources, cleanup_selection, distinct, extraction_hit, folder_pass,
    group_view, hash_col, installer_hit, is_count_breakdown, is_duplicate_grouping, is_group_of,
    is_ignored, kept_candidates, leftovers_of, lemma_members_len, lemma_occurrences_absent,
    lemma_occurrences_bound, members, name_pass, occurrences, pair_hit, repeated, temp_hit,
    first_hashed, groups_disjoint, hashed_paths, hashed_view, unique_hashed,
};
use crate::storage::{capped_history, HISTORY_CAP};
use crate::text::{
    contains, decimal, ends_with, is_whitespace, lemma_decimal_digits, lemma_decimal_injective, lower,
    trim, trim_end, trim_start,
};
use crate::updater::{
    installer_index, normalize_version_spec, release_stage_spec, semver_accepts,
    semver_not_newer, GitHubReleaseAsset,
};

verus! {

// ---------------------------------------------------------------------------
// History
// ---------------------------------------------------------------------------

/// Recording a history entry keeps at most `HISTORY_CAP` entries, ends with
/// the new entry, and keeps the newest of the earlier ones in their order:
/// the result is a suffix of the old history followed by the entry, and
/// nothing is dropped while the history is below the cap.
pub proof fn law_history_is_bounded_suffix(items: Seq<HistoryEntry>, entry: HistoryEntry)
    ensures
        capped_history(items, entry).len() <= HISTORY_CAP,
        capped_history(items, entry).last() == entry,
        ({
            let s = items.push(entry);
            let c = capped_history(items, entry);
            c == s.subrange(s.len() - c.len(), s.len() as int)
        }),
        items.len() < HISTORY_CAP ==> capped_history(items, entry) == items.push(entry),
        items.len() >= HISTORY_CAP ==> capped_history(items, entry).len() == HISTORY_CAP,
{
    let s = items.push(entry);
    let c = capped_history(items, entry);
    if s.len() <= HISTORY_CAP {
        assert(c == s);
        assert(s.subrange(0, s.len() as int) =~= s);
    }
}

// ---------------------------------------------------------------------------
// Restores
// ---------------------------------------------------------------------------

proof fn lemma_unrestored_listed(index: Seq<QuarantineEntry>, n: int, i: int)
    requires
        0 <= i < n <= index.len(),
        index.len() <= usize::MAX,
        !index[i].restored,
    ensures
        unrestored_newest_first(index, n).contains(i as usize),
    decreases n,
{
    let s = unrestored_newest_first(index, n);
    if i == n - 1 {
        assert(s[0] == i as usize);
    } else {
        lemma_unrestored_listed(index, n - 1, i);
        let p = unrestored_newest_first(index, n - 1);
        let k = choose|k: int| 0 <= k < p.len() && p[k] == i as usize;
        if !index[n - 1].restored {
            assert(s[k + 1] == p[k]);
        } else {
            assert(s[k] == p[k]);
        }
    }
}

/// A bulk restore of at most `limit` entries tries only entries that are
/// not restored yet, each once, newest first; every unrestored entry is
/// pending, and the plan is the newest `limit` of the pending ones (all of
/// them when there are no more than `limit`).
pub proof fn law_restore_plan_takes_newest_unrestored(index: Seq<QuarantineEntry>, limit: usize)
    requires
        index.len() <= usize::MAX,
    ensures
        restore_selection(index, limit).len() <= limit,
        forall|k: int|
            0 <= k < restore_selection(index, limit).len() ==> restore_selection(index, limit)[k]
                < index.len() && !index[restore_selection(index, limit)[k] as int].restored,
        forall|k: int, l: int|
            0 <= k < l < restore_selection(index, limit).len() ==> restore_selection(index, limit)[k]
                > restore_selection(index, limit)[l],
        forall|i: int|
            0 <= i < index.len() && !index[i].restored ==> pending(index).contains(i as usize),
        restore_selection(index, limit) == pending(index).subrange(
            0,
            restore_selection(index, limit).len() as int,
        ),
        pending(index).len() <= limit ==> restore_selection(index, limit) == pending(index),
{
    let n = index.len() as int;
    lemma_pending_entries(index, n);
    let p = pending(index);
    let sel = restore_selection(index, limit);
    assert forall|i: int| 0 <= i < index.len() && !index[i].restored implies p.contains(i as usize) by {
        lemma_unrestored_listed(index, n, i);
    }
    if p.len() <= limit {
        assert(p.subrange(0, p.len() as int) =~= p);
    } else {
        assert forall|k: int| 0 <= k < sel.len() implies sel[k] < index.len()
            && !index[sel[k] as int].restored by {
            assert(sel[k] == p[k]);
        }
        assert forall|k: int, l: int| 0 <= k < l < sel.len() implies sel[k] > sel[l] by {
            assert(sel[k] == p[k]);
            assert(sel[l] == p[l]);
        }
    }
}

/// Applying restore outcomes never forgets an entry or changes where it came
/// from or went: the index keeps its length and, entry by entry, its paths
/// and time stamp. A restored entry stays restored, and an entry becomes
/// restored only when the plan tried it and the file came back or was
/// gone. The restored and failed counts together never exceed the steps.
pub proof fn law_restore_only_marks_planned(
    index: Seq<QuarantineEntry>,
    plan: Seq<usize>,
    outcomes: Seq<RestoreOutcome>,
    n: int,
)
    requires
        0 <= n <= plan.len(),
        n <= outcomes.len(),
    ensures
        ({
            let (ix, r, f, logs) = restore_tally(index, plan, outcomes, n);
            &&& ix.len() == index.len()
            &&& r + f <= n
            &&& logs.len() == f
            &&& forall|i: int|
                0 <= i < index.len() ==> #[trigger] ix[i].original_path == index[i].original_path
                    && ix[i].quarantined_path == index[i].quarantined_path && ix[i].timestamp
                    == index[i].timestamp
            &&& forall|i: int| 0 <= i < index.len() && index[i].restored ==> #[trigger] ix[i].restored
            &&& forall|i: int|
                0 <= i < index.len() && #[trigger] ix[i].restored && !index[i].restored ==> exists|k: int|
                    0 <= k < n && plan[k] == i && outcomes[k] != RestoreOutcome::Failed
        }),
    decreases n,
{
    if n > 0 {
        law_restore_only_marks_planned(index, plan, outcomes, n - 1);
        let (ix0, r0, f0, logs0) = restore_tally(index, plan, outcomes, n - 1);
        let (ix, r, f, logs) = restore_tally(index, plan, outcomes, n);
        let k = n - 1;
        let t = plan[k] as int;
        assert(ix0.len() == index.len());
        if t < ix0.len() {
            match outcomes[k] {
                RestoreOutcome::Vanished => {
                    assert(ix == ix0.update(t, QuarantineEntry { restored: true, ..ix0[t] }));
                },
                RestoreOutcome::Restored => {
                    assert(ix == ix0.update(t, QuarantineEntry { restored: true, ..ix0[t] }));
                },
                RestoreOutcome::Failed => {
                    assert(ix == ix0);
                },
            }
        } else {
            assert(ix == ix0);
        }
        assert(ix.len() == index.len());
        assert forall|i: int|
            0 <= i < index.len() && #[trigger] ix[i].restored && !index[i].restored implies exists|j: int|
                0 <= j < n && plan[j] == i && outcomes[j] != RestoreOutcome::Failed by {
            if ix0[i].restored {
                let j = choose|j: int|
                    0 <= j < n - 1 && plan[j] == i && outcomes[j] != RestoreOutcome::Failed;
                assert(0 <= j < n && plan[j] == i && outcomes[j] != RestoreOutcome::Failed);
            } else {
                assert(t == i);
                assert(outcomes[k] != RestoreOutcome::Failed);
            }
        }
    }
}

/// What a cleanup batch moves into quarantine can be restored: once its new
/// index entries are appended, each of them is pending, and a bulk restore
/// with room for them tries them before any older entry.
pub proof fn law_quarantined_entries_are_pending(
    before: Seq<QuarantineEntry>,
    after: Seq<QuarantineEntry>,
    added: Seq<(Seq<char>, Seq<char>, Seq<char>, bool)>,
)
    requires
        entry_views(after) == entry_views(before) + added,
        forall|j: int| 0 <= j < added.len() ==> !(#[trigger] added[j]).3,
        after.len() <= usize::MAX,
    ensures
        after.len() == before.len() + added.len(),
        forall|j: int| 0 <= j < added.len() ==> #[trigger] pending(after).contains((before.len() + j) as usize),
        forall|k: int, l: int|
            0 <= k < l < pending(after).len() && #[trigger] pending(after)[l] >= before.len()
                ==> #[trigger] pending(after)[k] >= before.len(),
{
    assert(entry_views(after).len() == after.len());
    assert forall|j: int| 0 <= j < added.len() implies #[trigger] pending(after).contains((before.len() + j) as usize) by {
        let i = before.len() + j;
        assert(entry_views(after)[i] == added[j]);
        lemma_unrestored_listed(after, after.len() as int, i);
    }
    lemma_pending_entries(after, after.len() as int);
}

/// Quarantining a file and restoring it is a round trip in the index: a
/// batch that moves `path` to `target` appends an unrestored entry for it;
/// the next bulk restore (of at least one item) tries that entry first; and
/// once the file is moved back, the entry is marked restored and still
/// records where the file came from and where it was kept.
pub proof fn law_quarantine_then_restore_round_trip(
    before: Seq<QuarantineEntry>,
    after: Seq<QuarantineEntry>,
    path: Seq<char>,
    target: String,
    timestamp: String,
    limit: usize,
)
    requires
        entry_views(after) == entry_views(before) + batch_tally(
            seq![path],
            CleanupMode::Quarantine,
            seq![CleanupOutcome::Quarantined { target, timestamp }],
            1,
        ).4,
        after.len() <= usize::MAX,
        limit >= 1,
    ensures
        after.len() == before.len() + 1,
        after[before.len() as int].original_path@ == path,
        after[before.len() as int].quarantined_path@ == target@,
        !after[before.len() as int].restored,
        restore_selection(after, limit)[0] == before.len(),
        ({
            let plan = restore_selection(after, limit);
            let done = restore_tally(after, plan, seq![RestoreOutcome::Restored], 1);
            &&& done.0[before.len() as int].restored
            &&& done.0[before.len() as int].original_path == after[before.len() as int].original_path
            &&& done.0[before.len() as int].quarantined_path == after[before.len() as int].quarantined_path
            &&& done.1 == 1
        }),
{
    let n = before.len() as int;
    let added = batch_tally(
        seq![path],
        CleanupMode::Quarantine,
        seq![CleanupOutcome::Quarantined { target, timestamp }],
        1,
    ).4;
    reveal_with_fuel(batch_tally, 2);
    assert(added =~= seq![(path, target@, timestamp@, false)]);
    assert(entry_views(after).len() == after.len());
    assert(entry_views(after)[n] == added[0]);
    lemma_pending_entries(after, after.len() as int);
    lemma_unrestored_listed(after, after.len() as int, n);
    let p = pending(after);
    assert(p[0] == n) by {
        let k = choose|k: int| 0 <= k < p.len() && p[k] == n as usize;
        if k > 0 {
            assert(p[0] > p[k]);
            assert(p[0] < after.len());
        }
    }
    let plan = restore_selection(after, limit);
    assert(plan[0] == p[0]);
    reveal_with_fuel(restore_tally, 2);
    let done = restore_tally(after, plan, seq![RestoreOutcome::Restored], 1);
    assert(done.0 == after.update(n, QuarantineEntry { restored: true, ..after[n] }));
}

// ---------------------------------------------------------------------------
// Cleanup batches
// ---------------------------------------------------------------------------

/// A cleanup batch counts each path at most once: moved, deleted and failed
/// together never exceed the paths handled; one log line per failure; and
/// each new quarantine index entry is unrestored and records a path of the
/// batch that was reported moved, to the target reported for it.
pub proof fn law_cleanup_batch_accounts(
    paths: Seq<Seq<char>>,
    mode: CleanupMode,
    outcomes: Seq<CleanupOutcome>,
    n: int,
)
    requires
        0 <= n <= paths.len(),
    ensures
        ({
            let (m, d, f, logs, added) = batch_tally(paths, mode, outcomes, n);
            &&& m + d + f <= n
            &&& logs.len() == f
            &&& added.len() == m
            &&& forall|j: int|
                0 <= j < added.len() ==> !(#[trigger] added[j]).3 && exists|i: int|
                    0 <= i < n && i < outcomes.len() && added[j].0 == paths[i]
                        && (outcomes[i] matches CleanupOutcome::Quarantined { target, timestamp } && added[j].1
                        == target@ && added[j].2 == timestamp@)
        }),
    decreases n,
{
    if n > 0 {
        law_cleanup_batch_accounts(paths, mode, outcomes, n - 1);
        let (m0, d0, f0, logs0, added0) = batch_tally(paths, mode, outcomes, n - 1);
        let (m, d, f, logs, added) = batch_tally(paths, mode, outcomes, n);
        assert forall|j: int| 0 <= j < added.len() implies !(#[trigger] added[j]).3 && exists|i: int|
            0 <= i < n && i < outcomes.len() && added[j].0 == paths[i]
                && (outcomes[i] matches CleanupOutcome::Quarantined { target, timestamp } && added[j].1
                == target@ && added[j].2 == timestamp@) by {
            if j < added0.len() {
                assert(added[j] == added0[j]);
                let i = choose|i: int|
                    0 <= i < n - 1 && i < outcomes.len() && added0[j].0 == paths[i]
                        && (outcomes[i] matches CleanupOutcome::Quarantined { target, timestamp }
                        && added0[j].1 == target@ && added0[j].2 == timestamp@);
                assert(0 <= i < n);
            } else {
                assert(n - 1 < outcomes.len());
            }
        }
    }
}

/// No two index entries keep their file at the same place.
pub open spec fn quarantine_paths_distinct(index: Seq<QuarantineEntry>) -> bool {
    forall|i: int, j: int|
        0 <= i < j < index.len() ==> index[i].quarantined_path@ != index[j].quarantined_path@
}

/// Where an outcome moved its file, if it moved it into quarantine.
pub open spec fn outcome_target(o: CleanupOutcome) -> Option<Seq<char>> {
    match o {
        CleanupOutcome::Quarantined { target, timestamp } => Some(target@),
        _ => None,
    }
}

proof fn lemma_added_targets(paths: Seq<Seq<char>>, mode: CleanupMode, outcomes: Seq<CleanupOutcome>, n: int)
    requires
        0 <= n,
    ensures
        forall|a: int|
            0 <= a < batch_tally(paths, mode, outcomes, n).4.len() ==> exists|i: int|
                0 <= i < n && i < outcomes.len() && outcome_target(outcomes[i]) == Some(
                    (#[trigger] batch_tally(paths, mode, outcomes, n).4[a]).1,
                ),
        (forall|i: int, j: int|
            0 <= i < j < n && j < outcomes.len() && outcome_target(outcomes[i]) is Some
                && outcome_target(outcomes[j]) is Some ==> outcome_target(outcomes[i])
                != outcome_target(outcomes[j])) ==> forall|a: int, b: int|
            0 <= a < b < batch_tally(paths, mode, outcomes, n).4.len() ==> batch_tally(
                paths,
                mode,
                outcomes,
                n,
            ).4[a].1 != batch_tally(paths, mode, outcomes, n).4[b].1,
    decreases n,
{
    if n > 0 {
        lemma_added_targets(paths, mode, outcomes, n - 1);
        let p = batch_tally(paths, mode, outcomes, n - 1).4;
        let q = batch_tally(paths, mode, outcomes, n).4;
        assert forall|a: int| 0 <= a < q.len() implies exists|i: int|
            0 <= i < n && i < outcomes.len() && outcome_target(outcomes[i]) == Some((#[trigger] q[a]).1) by {
            if a < p.len() {
                assert(q[a] == p[a]);
                let i = choose|i: int|
                    0 <= i < n - 1 && i < outcomes.len() && outcome_target(outcomes[i]) == Some(p[a].1);
                assert(0 <= i < n);
            } else {
                assert(n - 1 < outcomes.len());
            }
        }
        if forall|i: int, j: int|
            0 <= i < j < n && j < outcomes.len() && outcome_target(outcomes[i]) is Some
                && outcome_target(outcomes[j]) is Some ==> outcome_target(outcomes[i])
                != outcome_target(outcomes[j]) {
            assert forall|a: int, b: int| 0 <= a < b < q.len() implies q[a].1 != q[b].1 by {
                if b < p.len() {
                    assert(q[a] == p[a] && q[b] == p[b]);
                } else {
                    assert(q[a] == p[a]);
                    let i = choose|i: int|
                        0 <= i < n - 1 && i < outcomes.len() && outcome_target(outcomes[i]) == Some(p[a].1);
                    assert(n - 1 < outcomes.len());
                    assert(outcome_target(outcomes[n - 1]) == Some(q[b].1));
                }
            }
        }
    }
}

/// A cleanup batch whose quarantine destinations are fresh (none already
/// holds an index entry's file) and pairwise distinct, as
/// `quarantine_targets` gives them, keeps every quarantined file at its own
/// place: no later move overwrites an earlier one, so each entry can still
/// be restored.
pub proof fn law_quarantine_paths_stay_distinct(
    before: Seq<QuarantineEntry>,
    after: Seq<QuarantineEntry>,
    paths: Seq<Seq<char>>,
    mode: CleanupMode,
    outcomes: Seq<CleanupOutcome>,
)
    requires
        entry_views(after) == entry_views(before) + batch_tally(paths, mode, outcomes, paths.len() as int).4,
        quarantine_paths_distinct(before),
        forall|i: int, e: int|
            0 <= i < outcomes.len() && 0 <= e < before.len() && outcome_target(outcomes[i]) is Some
                ==> outcome_target(outcomes[i]) != Some(before[e].quarantined_path@),
        forall|i: int, j: int|
            0 <= i < j < outcomes.len() && outcome_target(outcomes[i]) is Some && outcome_target(
                outcomes[j],
            ) is Some ==> outcome_target(outcomes[i]) != outcome_target(outcomes[j]),
    ensures
        quarantine_paths_distinct(after),
{
    let n = paths.len() as int;
    let added = batch_tally(paths, mode, outcomes, n).4;
    lemma_added_targets(paths, mode, outcomes, n);
    let ev = entry_views(after);
    let m = before.len() as int;
    assert(ev.len() == after.len());
    assert forall|i: int, j: int|
        0 <= i < j < after.len() implies after[i].quarantined_path@ != after[j].quarantined_path@ by {
        assert(ev[i].1 == after[i].quarantined_path@);
        assert(ev[j].1 == after[j].quarantined_path@);
        if j < m {
            assert(ev[i] == entry_views(before)[i]);
            assert(ev[j] == entry_views(before)[j]);
        } else if i < m {
            assert(ev[i] == entry_views(before)[i]);
            assert(ev[j] == added[j - m]);
            let k = choose|k: int|
                0 <= k < n && k < outcomes.len() && outcome_target(outcomes[k]) == Some(added[j - m].1);
            assert(outcome_target(outcomes[k]) != Some(before[i].quarantined_path@));
        } else {
            assert(ev[i] == added[i - m]);
            assert(ev[j] == added[j - m]);
        }
    }
}

// ---------------------------------------------------------------------------
// Cleanup selection
// ---------------------------------------------------------------------------

proof fn lemma_kept_facts(
    src: Seq<Seq<char>>,
    present: Seq<bool>,
    ip: Seq<Seq<char>>,
    ie: Seq<Seq<char>>,
    n: int,
)
    requires
        0 <= n <= src.len(),
    ensures
        ({
            let k = kept_candidates(src, present, ip, ie, n);
            &&& k.len() <= n
            &&& forall|a: int, b: int| 0 <= a < b < k.len() ==> k[a] != k[b]
            &&& forall|a: int|
                0 <= a < k.len() ==> !is_ignored(#[trigger] k[a], ip, ie) && exists|i: int|
                    0 <= i < n && i < present.len() && present[i] && src[i] == k[a]
        }),
    decreases n,
{
    if n > 0 {
        lemma_kept_facts(src, present, ip, ie, n - 1);
        let prev = kept_candidates(src, present, ip, ie, n - 1);
        let k = kept_candidates(src, present, ip, ie, n);
        let i = n - 1;
        if i < present.len() && present[i] && !is_ignored(src[i], ip, ie) && !prev.contains(src[i]) {
            assert forall|a: int, b: int| 0 <= a < b < k.len() implies k[a] != k[b] by {
                if b == k.len() - 1 {
                    assert(k[b] == src[i]);
                    assert(k[a] == prev[a]);
                    if k[a] == k[b] {
                        assert(prev.contains(src[i]));
                    }
                } else {
                    assert(k[a] == prev[a] && k[b] == prev[b]);
                }
            }
            assert forall|a: int| 0 <= a < k.len() implies !is_ignored(#[trigger] k[a], ip, ie)
                && exists|j: int| 0 <= j < n && j < present.len() && present[j] && src[j] == k[a] by {
                if a == k.len() - 1 {
                    assert(k[a] == src[i]);
                } else {
                    assert(k[a] == prev[a]);
                    let j = choose|j: int|
                        0 <= j < n - 1 && j < present.len() && present[j] && src[j] == prev[a];
                    assert(0 <= j < n);
                }
            }
        } else {
            assert forall|a: int| 0 <= a < k.len() implies !is_ignored(#[trigger] k[a], ip, ie)
                && exists|j: int| 0 <= j < n && j < present.len() && present[j] && src[j] == k[a] by {
                let j = choose|j: int|
                    0 <= j < n - 1 && j < present.len() && present[j] && src[j] == prev[a];
                assert(0 <= j < n);
            }
        }
    }
}

/// A cleanup batch is safe to act on: it holds at most `limit` paths (one
/// when `limit` is zero), no path twice, and only extra duplicate copies or
/// leftovers of the scan that were reported present and that no ignore rule
/// covers.
pub proof fn law_cleanup_selection_is_safe(
    summary: ScanSummary,
    limit: usize,
    ignored_paths: Seq<Seq<char>>,
    ignored_exts: Seq<Seq<char>>,
    present: Seq<bool>,
)
    ensures
        ({
            let sel = cleanup_selection(summary, limit, ignored_paths, ignored_exts, present);
            let src = candidate_sources(summary);
            &&& sel.len() <= batch_cap(limit)
            &&& forall|a: int, b: int| 0 <= a < b < sel.len() ==> sel[a] != sel[b]
            &&& forall|a: int|
                0 <= a < sel.len() ==> !is_ignored(#[trigger] sel[a], ignored_paths, ignored_exts)
                    && exists|i: int|
                    0 <= i < src.len() && i < present.len() && present[i] && src[i] == sel[a]
        }),
{
    let src = candidate_sources(summary);
    let k = kept_candidates(src, present, ignored_paths, ignored_exts, src.len() as int);
    let sel = cleanup_selection(summary, limit, ignored_paths, ignored_exts, present);
    lemma_kept_facts(src, present, ignored_paths, ignored_exts, src.len() as int);
    if k.len() > batch_cap(limit) {
        assert forall|a: int, b: int| 0 <= a < b < sel.len() implies sel[a] != sel[b] by {
            assert(sel[a] == k[a] && sel[b] == k[b]);
        }
        assert forall|a: int| 0 <= a < sel.len() implies !is_ignored(
            #[trigger] sel[a],
            ignored_paths,
            ignored_exts,
        ) && exists|i: int| 0 <= i < src.len() && i < present.len() && present[i] && src[i] == sel[a] by {
            assert(sel[a] == k[a]);
        }
    }
}

// ---------------------------------------------------------------------------
// Quarantine names
// ---------------------------------------------------------------------------

/// Flattening a path for the quarantine folder leaves no separator and no
/// `:` in it, and never lengthens it.
pub proof fn law_sanitized_name_is_flat(path: Seq<char>)
    ensures
        sanitize(path).len() <= path.len(),
        forall|j: int|
            0 <= j < sanitize(path).len() ==> !is_sep(#[trigger] sanitize(path)[j]) && sanitize(
                path,
            )[j] != ':',
    decreases path.len(),
{
    if path.len() > 0 {
        law_sanitized_name_is_flat(path.drop_last());
        let p = sanitize(path.drop_last());
        let s = sanitize(path);
        assert forall|j: int| 0 <= j < s.len() implies !is_sep(#[trigger] s[j]) && s[j] != ':' by {
            if j < p.len() {
                assert(s[j] == p[j]);
            }
        }
    }
}

proof fn lemma_name_start_after(s: Seq<char>, k: int, e: int)
    requires
        0 <= k <= e <= s.len(),
        k == 0 || is_sep(s[k - 1]),
        forall|j: int| k <= j < e ==> !is_sep(#[trigger] s[j]),
    ensures
        name_start(s, e) == k,
    decreases e,
{
    if e > k {
        lemma_name_start_after(s, k, e - 1);
    }
}

/// A file moved into quarantine lands directly in the quarantine folder:
/// the file name of its target is the time stamp, `_`, the flattened
/// original path and the candidate's suffix (for a stamp without
/// separators, as the local time stamp is).
pub proof fn law_quarantine_target_name(dir: Seq<char>, stamp: Seq<char>, path: Seq<char>, k: nat)
    requires
        forall|j: int| 0 <= j < stamp.len() ==> !is_sep(#[trigger] stamp[j]),
    ensures
        file_name(quarantine_target_spec(dir, stamp, path, k)) == Some(
            stamp + "_"@ + sanitize(path) + copy_suffix(k),
        ),
{
    law_sanitized_name_is_flat(path);
    reveal_strlit("_");
    lemma_decimal_digits(k);
    let base = stamp + "_"@ + sanitize(path);
    let suffix = copy_suffix(k);
    let name = base + suffix;
    let t = quarantine_target_spec(dir, stamp, path, k);
    let pre = if dir.len() == 0 {
        Seq::<char>::empty()
    } else if is_sep(dir.last()) {
        dir
    } else {
        dir + seq![join_sep(dir)]
    };
    assert(t =~= pre + name);
    assert forall|j: int| 0 <= j < suffix.len() implies !is_sep(#[trigger] suffix[j]) by {
        if j > 0 {
            assert(suffix[j] == decimal(k)[j - 1]);
        }
    }
    assert forall|j: int| 0 <= j < name.len() implies !is_sep(#[trigger] name[j]) by {
        if j < stamp.len() {
            assert(name[j] == stamp[j]);
        } else if j == stamp.len() {
            assert(name[j] == '_');
        } else if j < base.len() {
            assert(name[j] == sanitize(path)[j - stamp.len() - 1]);
        } else {
            assert(name[j] == suffix[j - base.len()]);
        }
    }
    assert(name[stamp.len() as int] == '_');
    assert(!is_sep(t.last())) by {
        assert(t.last() == name[name.len() - 1]);
    }
    assert(trimmed_len(t) == t.len());
    assert forall|j: int| pre.len() <= j < t.len() implies !is_sep(#[trigger] t[j]) by {
        assert(t[j] == name[j - pre.len()]);
    }
    lemma_name_start_after(t, pre.len() as int, t.len() as int);
    assert(t.subrange(pre.len() as int, t.len() as int) =~= name);
    assert(name != seq!['.']) by {
        if name.len() == 1 {
            assert(name[0] == '_');
        }
    }
    assert(name != seq!['.', '.']) by {
        if name.len() == 2 {
            assert(name[0] == '_' || name[1] == '_');
        }
    }
}

/// Different candidates for one file and stamp are different destinations.
pub proof fn lemma_candidates_differ(dir: Seq<char>, stamp: Seq<char>, path: Seq<char>, a: nat, b: nat)
    requires
        quarantine_target_spec(dir, stamp, path, a) == quarantine_target_spec(dir, stamp, path, b),
    ensures
        a == b,
{
    reveal_strlit("_");
    let base = stamp + "_"@ + sanitize(path);
    let ta = quarantine_target_spec(dir, stamp, path, a);
    let pre_len: int = if dir.len() == 0 {
        0
    } else if is_sep(dir.last()) {
        dir.len() as int
    } else {
        dir.len() + 1int
    };
    let ca = base + copy_suffix(a);
    let cb = base + copy_suffix(b);
    assert(ca =~= ta.subrange(pre_len, ta.len() as int));
    assert(cb =~= ta.subrange(pre_len, ta.len() as int));
    assert(copy_suffix(a) =~= ca.subrange(base.len() as int, ca.len() as int));
    assert(copy_suffix(b) =~= cb.subrange(base.len() as int, cb.len() as int));
    lemma_decimal_digits(a);
    lemma_decimal_digits(b);
    if a != 0 && b != 0 {
        assert(decimal(a) =~= copy_suffix(a).drop_first());
        assert(decimal(b) =~= copy_suffix(b).drop_first());
        lemma_decimal_injective(a, b);
    }
}

/// Among the first `taken.len() + 1` candidates for one file and stamp, one
/// is not taken.
pub proof fn lemma_candidates_not_all_taken(dir: Seq<char>, stamp: Seq<char>, path: Seq<char>, taken: Seq<Seq<char>>)
    ensures
        !(forall|j: nat| j <= taken.len() ==> taken.contains(#[trigger] quarantine_target_spec(dir, stamp, path, j))),
{
    if forall|j: nat| j <= taken.len() ==> taken.contains(#[trigger] quarantine_target_spec(dir, stamp, path, j)) {
        let n = taken.len() as int;
        let x = set_int_range(0, n + 1);
        let f = |j: int| quarantine_target_spec(dir, stamp, path, j as nat);
        lemma_int_range(0, n + 1);
        assert(injective_on(f, x)) by {
            assert forall|a: int, b: int| x.contains(a) && x.contains(b) && #[trigger] f(a) == #[trigger] f(b) implies a == b by {
                lemma_candidates_differ(dir, stamp, path, a as nat, b as nat);
            }
        }
        let y = x.map(f);
        lemma_map_size(x, y, f);
        seq_to_set_is_finite(taken);
        taken.lemma_cardinality_of_set();
        assert(y.subset_of(taken.to_set())) by {
            assert forall|t: Seq<char>| y.contains(t) implies taken.to_set().contains(t) by {
                let a = choose|a: int| x.contains(a) && f(a) == t;
                assert(taken.contains(quarantine_target_spec(dir, stamp, path, a as nat)));
            }
        }
        lemma_len_subset(y, taken.to_set());
    }
}

// ---------------------------------------------------------------------------
// Duplicate groups
// ---------------------------------------------------------------------------

proof fn lemma_repeated_occur_twice(ks: Seq<Seq<char>>, d: Seq<Seq<char>>, n: int)
    requires
        0 <= n <= d.len(),
    ensures
        forall|t: int|
            0 <= t < repeated(ks, d, n).len() ==> occurrences(
                ks,
                #[trigger] repeated(ks, d, n)[t],
                ks.len() as int,
            ) >= 2,
    decreases n,
{
    if n > 0 {
        lemma_repeated_occur_twice(ks, d, n - 1);
        let p = repeated(ks, d, n - 1);
        let q = repeated(ks, d, n);
        assert forall|t: int| 0 <= t < q.len() implies occurrences(ks, #[trigger] q[t], ks.len() as int) >= 2 by {
            if t < p.len() {
                assert(q[t] == p[t]);
            }
        }
    }
}

proof fn lemma_members_hold<A>(ks: Seq<A>, k: A, n: int)
    requires
        0 <= n <= ks.len(),
    ensures
        forall|t: int|
            0 <= t < members(ks, k, n).len() ==> 0 <= #[trigger] members(ks, k, n)[t] < n && ks[members(
                ks,
                k,
                n,
            )[t]] == k,
    decreases n,
{
    if n > 0 {
        lemma_members_hold(ks, k, n - 1);
        let p = members(ks, k, n - 1);
        let m = members(ks, k, n);
        assert forall|t: int| 0 <= t < m.len() implies 0 <= #[trigger] m[t] < n && ks[m[t]] == k by {
            if t < p.len() {
                assert(m[t] == p[t]);
            }
        }
    }
}

/// `p` is one of the hashed files, with hash `hash`.
pub open spec fn hashed_as(hashed: Seq<(Seq<char>, Seq<char>, u64)>, hash: Seq<char>, p: Seq<char>) -> bool {
    exists|j: int| 0 <= j < hashed.len() && hashed[j].0 == hash && hashed[j].1 == p
}

proof fn lemma_group_facts(
    hashed: Seq<(Seq<char>, Seq<char>, u64)>,
    groups: Seq<DuplicateGroup>,
    waste: u64,
    i: int,
)
    requires
        is_duplicate_grouping(hashed, groups, waste),
        0 <= i < groups.len(),
    ensures
        texts(groups[i].files@).len() >= 2,
        forall|f: int|
            0 <= f < groups[i].files@.len() ==> hashed_as(hashed, groups[i].hash@, #[trigger] groups[i].files@[f]@),
{
    let ks = hash_col(hashed);
    let d = distinct(ks, ks.len() as int);
    let q = repeated(ks, d, d.len() as int);
    let (gp, order) = choose|gp: Seq<(Seq<char>, u64, Seq<Seq<char>>)>, order: Seq<usize>|
        #[trigger] crate::order::is_stable_desc_order(crate::scanner::group_totals(gp), order)
            && gp.len() == q.len() && (forall|t: int| 0 <= t < q.len() ==> is_group_of(hashed, q[t], gp[t]))
            && groups.len() == order.len() && (forall|i: int|
            0 <= i < groups.len() ==> group_view(groups[i]) == {
                let g = gp[order[i] as int];
                (g.0, crate::scanner::sat_mul(g.1, g.2.len() as u64), g.2)
            }) && waste == crate::scanner::waste_sum(gp, gp.len() as int);
    lemma_repeated_occur_twice(ks, d, d.len() as int);
    let t = order[i] as int;
    let g = gp[t];
    assert(is_group_of(hashed, q[t], g));
    let k = q[t];
    let m = members(ks, k, hashed.len() as int);
    let mp = Seq::new(m.len(), |u: int| hashed[m[u]].1);
    let r = choose|r: Seq<usize>|
        #[trigger] is_stable_path_order(mp, r) && r.len() > 0 && g.2 == Seq::new(
            r.len(),
            |u: int| mp[r[u] as int],
        ) && g.1 == hashed[m[r[0] as int]].2;
    lemma_members_len(ks, k, hashed.len() as int);
    lemma_members_hold(ks, k, hashed.len() as int);
    assert(occurrences(ks, q[t], ks.len() as int) >= 2);
    assert(texts(groups[i].files@) == g.2);
    assert forall|f: int| 0 <= f < groups[i].files@.len() implies hashed_as(hashed, groups[i].hash@, #[trigger] groups[i].files@[f]@) by {
        assert(groups[i].files@[f]@ == texts(groups[i].files@)[f]);
        let j = m[r[f] as int];
        assert(ks[j] == k);
        assert(hashed[j].1 == mp[r[f] as int]);
    }
}

proof fn lemma_repeated_from_distinct(ks: Seq<Seq<char>>, d: Seq<Seq<char>>, m: int)
    requires
        0 <= m <= d.len(),
        d.no_duplicates(),
    ensures
        forall|a: int|
            0 <= a < repeated(ks, d, m).len() ==> exists|t: int| 0 <= t < m && d[t] == #[trigger] repeated(ks, d, m)[a],
        forall|a: int, b: int|
            0 <= a < b < repeated(ks, d, m).len() ==> repeated(ks, d, m)[a] != repeated(ks, d, m)[b],
    decreases m,
{
    if m > 0 {
        lemma_repeated_from_distinct(ks, d, m - 1);
        let p = repeated(ks, d, m - 1);
        let q = repeated(ks, d, m);
        assert forall|a: int| 0 <= a < q.len() implies exists|t: int| 0 <= t < m && d[t] == #[trigger] q[a] by {
            if a < p.len() {
                assert(q[a] == p[a]);
                let t = choose|t: int| 0 <= t < m - 1 && d[t] == p[a];
                assert(0 <= t < m && d[t] == q[a]);
            } else {
                assert(q[a] == d[m - 1]);
            }
        }
        assert forall|a: int, b: int| 0 <= a < b < q.len() implies q[a] != q[b] by {
            if b < p.len() {
                assert(q[a] == p[a] && q[b] == p[b]);
            } else {
                assert(q[b] == d[m - 1]);
                assert(q[a] == p[a]);
                let t = choose|t: int| 0 <= t < m - 1 && d[t] == p[a];
                assert(d[t] != d[m - 1]);
            }
        }
    }
}

proof fn lemma_group_hashes_differ(
    hashed: Seq<(Seq<char>, Seq<char>, u64)>,
    groups: Seq<DuplicateGroup>,
    waste: u64,
    i: int,
    j: int,
)
    requires
        is_duplicate_grouping(hashed, groups, waste),
        0 <= i < j < groups.len(),
    ensures
        groups[i].hash@ != groups[j].hash@,
{
    let ks = hash_col(hashed);
    let d = distinct(ks, ks.len() as int);
    let q = repeated(ks, d, d.len() as int);
    let (gp, order) = choose|gp: Seq<(Seq<char>, u64, Seq<Seq<char>>)>, order: Seq<usize>|
        #[trigger] crate::order::is_stable_desc_order(crate::scanner::group_totals(gp), order)
            && gp.len() == q.len() && (forall|t: int| 0 <= t < q.len() ==> is_group_of(hashed, q[t], gp[t]))
            && groups.len() == order.len() && (forall|i: int|
            0 <= i < groups.len() ==> group_view(groups[i]) == {
                let g = gp[order[i] as int];
                (g.0, crate::scanner::sat_mul(g.1, g.2.len() as u64), g.2)
            }) && waste == crate::scanner::waste_sum(gp, gp.len() as int);
    lemma_distinct_facts(ks, ks.len() as int);
    lemma_repeated_from_distinct(ks, d, d.len() as int);
    let a = order[i] as int;
    let b = order[j] as int;
    assert(a != b);
    assert(is_group_of(hashed, q[a], gp[a]));
    assert(is_group_of(hashed, q[b], gp[b]));
    assert(groups[i].hash@ == q[a]);
    assert(groups[j].hash@ == q[b]);
    if a < b {
        assert(q[a] != q[b]);
    } else {
        assert(q[b] != q[a]);
    }
}

proof fn lemma_members_increasing<A>(ks: Seq<A>, k: A, n: int)
    requires
        0 <= n <= ks.len(),
    ensures
        forall|a: int, b: int|
            0 <= a < b < members(ks, k, n).len() ==> members(ks, k, n)[a] < members(ks, k, n)[b],
    decreases n,
{
    if n > 0 {
        lemma_members_increasing(ks, k, n - 1);
        lemma_members_hold(ks, k, n - 1);
        let p = members(ks, k, n - 1);
        let m = members(ks, k, n);
        assert forall|a: int, b: int| 0 <= a < b < m.len() implies m[a] < m[b] by {
            if b < p.len() {
                assert(m[a] == p[a] && m[b] == p[b]);
            } else {
                assert(m[a] == p[a]);
            }
        }
    }
}

proof fn lemma_first_hashed_unique(hv: Seq<(Seq<char>, Seq<char>, u64)>, n: int)
    requires
        0 <= n <= hv.len(),
    ensures
        forall|a: int, b: int|
            0 <= a < b < first_hashed(hv, n).len() ==> first_hashed(hv, n)[a].1 != first_hashed(hv, n)[b].1,
    decreases n,
{
    if n > 0 {
        lemma_first_hashed_unique(hv, n - 1);
        let p = first_hashed(hv, n - 1);
        let q = first_hashed(hv, n);
        if !hashed_paths(p).contains(hv[n - 1].1) {
            assert forall|a: int, b: int| 0 <= a < b < q.len() implies q[a].1 != q[b].1 by {
                if b == q.len() - 1 {
                    assert(q[a] == p[a]);
                    assert(hashed_paths(p)[a] == p[a].1);
                } else {
                    assert(q[a] == p[a] && q[b] == p[b]);
                }
            }
        }
    }
}

/// Positions in `hv` of the files of group `i`, in the group's order: each
/// holds the group's hash, and no position repeats.
proof fn lemma_group_positions(
    hv: Seq<(Seq<char>, Seq<char>, u64)>,
    groups: Seq<DuplicateGroup>,
    waste: u64,
    i: int,
) -> (idx: Seq<int>)
    requires
        is_duplicate_grouping(hv, groups, waste),
        0 <= i < groups.len(),
    ensures
        idx.len() == groups[i].files@.len(),
        forall|f: int|
            0 <= f < idx.len() ==> 0 <= #[trigger] idx[f] < hv.len() && hv[idx[f]].1 == groups[i].files@[f]@
                && hv[idx[f]].0 == groups[i].hash@,
        forall|a: int, b: int| 0 <= a < b < idx.len() ==> idx[a] != idx[b],
{
    let ks = hash_col(hv);
    let d = distinct(ks, ks.len() as int);
    let q = repeated(ks, d, d.len() as int);
    let (gp, order) = choose|gp: Seq<(Seq<char>, u64, Seq<Seq<char>>)>, order: Seq<usize>|
        #[trigger] crate::order::is_stable_desc_order(crate::scanner::group_totals(gp), order)
            && gp.len() == q.len() && (forall|t: int| 0 <= t < q.len() ==> is_group_of(hv, q[t], gp[t]))
            && groups.len() == order.len() && (forall|i: int|
            0 <= i < groups.len() ==> group_view(groups[i]) == {
                let g = gp[order[i] as int];
                (g.0, crate::scanner::sat_mul(g.1, g.2.len() as u64), g.2)
            }) && waste == crate::scanner::waste_sum(gp, gp.len() as int);
    let t = order[i] as int;
    let g = gp[t];
    assert(is_group_of(hv, q[t], g));
    let k = q[t];
    let m = members(ks, k, hv.len() as int);
    let mp = Seq::new(m.len(), |u: int| hv[m[u]].1);
    let r = choose|r: Seq<usize>|
        #[trigger] is_stable_path_order(mp, r) && r.len() > 0 && g.2 == Seq::new(
            r.len(),
            |u: int| mp[r[u] as int],
        ) && g.1 == hv[m[r[0] as int]].2;
    lemma_members_hold(ks, k, hv.len() as int);
    lemma_members_increasing(ks, k, hv.len() as int);
    assert(texts(groups[i].files@) == g.2);
    let idx = Seq::new(r.len(), |u: int| m[r[u] as int]);
    assert forall|f: int| 0 <= f < idx.len() implies 0 <= #[trigger] idx[f] < hv.len() && hv[idx[f]].1
        == groups[i].files@[f]@ && hv[idx[f]].0 == groups[i].hash@ by {
        assert(groups[i].files@[f]@ == texts(groups[i].files@)[f]);
        assert(ks[idx[f]] == k);
    }
    assert forall|a: int, b: int| 0 <= a < b < idx.len() implies idx[a] != idx[b] by {
        assert(r[a] != r[b]);
        if r[a] < r[b] {
            assert(m[r[a] as int] < m[r[b] as int]);
        } else {
            assert(m[r[b] as int] < m[r[a] as int]);
        }
    }
    idx
}

/// Once repeated listings are dropped, no file is in two duplicate groups,
/// and no group names a file twice: every "additional copy" is another
/// file.
pub proof fn law_duplicate_group_files_distinct(
    hashed: Seq<(String, String, u64)>,
    groups: Seq<DuplicateGroup>,
    waste: u64,
)
    requires
        is_duplicate_grouping(unique_hashed(hashed), groups, waste),
    ensures
        groups_disjoint(groups),
{
    let hv = unique_hashed(hashed);
    lemma_first_hashed_unique(hashed_view(hashed), hashed.len() as int);
    assert forall|i: int, a: int, b: int|
        0 <= i < groups.len() && 0 <= a < b < groups[i].files@.len() implies #[trigger] groups[i].files@[a]@
            != #[trigger] groups[i].files@[b]@ by {
        let idx = lemma_group_positions(hv, groups, waste, i);
        assert(idx[a] != idx[b]);
        if idx[a] < idx[b] {
            assert(hv[idx[a]].1 != hv[idx[b]].1);
        } else {
            assert(hv[idx[b]].1 != hv[idx[a]].1);
        }
    }
    assert forall|i: int, j: int, a: int, b: int|
        0 <= i < j < groups.len() && 0 <= a < groups[i].files@.len() && 0 <= b < groups[j].files@.len()
            implies #[trigger] groups[i].files@[a]@ != #[trigger] groups[j].files@[b]@ by {
        let ii = lemma_group_positions(hv, groups, waste, i);
        let jj = lemma_group_positions(hv, groups, waste, j);
        lemma_group_hashes_differ(hv, groups, waste, i, j);
        assert(hv[ii[a]].0 != hv[jj[b]].0);
        if ii[a] < jj[b] {
            assert(hv[ii[a]].1 != hv[jj[b]].1);
        } else {
            assert(hv[jj[b]].1 != hv[ii[a]].1);
        }
    }
}

/// Every duplicate group names two or more files, no two groups share a
/// hash, and every file of a group is one of the hashed files with the
/// group's hash.
pub proof fn law_duplicate_groups_hold_copies(
    hashed: Seq<(Seq<char>, Seq<char>, u64)>,
    groups: Seq<DuplicateGroup>,
    waste: u64,
)
    requires
        is_duplicate_grouping(hashed, groups, waste),
    ensures
        forall|i: int| 0 <= i < groups.len() ==> #[trigger] texts(groups[i].files@).len() >= 2,
        forall|i: int, j: int| 0 <= i < j < groups.len() ==> groups[i].hash@ != groups[j].hash@,
        forall|i: int, f: int|
            0 <= i < groups.len() && 0 <= f < groups[i].files@.len() ==> hashed_as(hashed, groups[i].hash@, #[trigger] groups[i].files@[f]@),
{
    assert forall|i: int| 0 <= i < groups.len() implies #[trigger] texts(groups[i].files@).len() >= 2 by {
        lemma_group_facts(hashed, groups, waste, i);
    }
    assert forall|i: int, j: int| 0 <= i < j < groups.len() implies groups[i].hash@ != groups[j].hash@ by {
        lemma_group_hashes_differ(hashed, groups, waste, i, j);
    }
    assert forall|i: int, f: int|
        0 <= i < groups.len() && 0 <= f < groups[i].files@.len() implies hashed_as(hashed, groups[i].hash@, #[trigger] groups[i].files@[f]@) by {
        lemma_group_facts(hashed, groups, waste, i);
    }
}

// ---------------------------------------------------------------------------
// Leftovers
// ---------------------------------------------------------------------------

/// `p` is one of `files`.
pub open spec fn listed(files: Seq<Seq<char>>, p: Seq<char>) -> bool {
    exists|i: int| 0 <= i < files.len() && files[i] == p
}

proof fn lemma_name_pass_listed(files: Seq<Seq<char>>, n: int)
    requires
        0 <= n <= files.len(),
    ensures
        forall|k: int| 0 <= k < name_pass(files, n).len() ==> listed(files, #[trigger] name_pass(files, n)[k].1),
    decreases n,
{
    if n > 0 {
        lemma_name_pass_listed(files, n - 1);
        let p = name_pass(files, n - 1);
        let a = installer_hit(files[n - 1]);
        let b = temp_hit(files[n - 1]);
        let h = name_pass(files, n);
        assert(h == p + a + b);
        assert forall|k: int| 0 <= k < h.len() implies listed(files, #[trigger] h[k].1) by {
            if k < p.len() {
                assert(h[k] == p[k]);
            } else if k < p.len() + a.len() {
                assert(h[k] == a[k - p.len()]);
                assert(files[n - 1] == h[k].1);
            } else {
                assert(h[k] == b[k - p.len() - a.len()]);
                assert(files[n - 1] == h[k].1);
            }
        }
    }
}

proof fn lemma_folder_pass_listed(files: Seq<Seq<char>>, n: int)
    requires
        0 <= n <= files.len(),
    ensures
        forall|k: int| 0 <= k < folder_pass(files, n).len() ==> listed(files, #[trigger] folder_pass(files, n)[k].1),
    decreases n,
{
    if n > 0 {
        lemma_folder_pass_listed(files, n - 1);
        let p = folder_pass(files, n - 1);
        let a = extraction_hit(files[n - 1]);
        let b = pair_hit(files, n - 1);
        let h = folder_pass(files, n);
        assert(h == p + a + b);
        assert forall|k: int| 0 <= k < h.len() implies listed(files, #[trigger] h[k].1) by {
            if k < p.len() {
                assert(h[k] == p[k]);
            } else if k < p.len() + a.len() {
                assert(h[k] == a[k - p.len()]);
                assert(files[n - 1] == h[k].1);
            } else {
                assert(h[k] == b[k - p.len() - a.len()]);
                assert(files[n - 1] == h[k].1);
            }
        }
    }
}

/// Every leftover hit names one of the scanned files, and each file is hit
/// at most four times (installer or temporary name, extraction folder,
/// archive pair).
pub proof fn law_leftovers_name_scanned_files(files: Seq<Seq<char>>)
    ensures
        forall|k: int|
            0 <= k < leftovers_of(files).len() ==> listed(files, #[trigger] leftovers_of(files)[k].1),
        leftovers_of(files).len() <= 4 * files.len(),
{
    let n = files.len() as int;
    lemma_name_pass_listed(files, n);
    lemma_folder_pass_listed(files, n);
    lemma_pass_lengths(files, n);
    let a = name_pass(files, n);
    let b = folder_pass(files, n);
    let h = leftovers_of(files);
    assert forall|k: int| 0 <= k < h.len() implies listed(files, #[trigger] h[k].1) by {
        if k < a.len() {
            assert(h[k] == a[k]);
        } else {
            assert(h[k] == b[k - a.len()]);
        }
    }
}

proof fn lemma_pass_lengths(files: Seq<Seq<char>>, n: int)
    requires
        0 <= n <= files.len(),
    ensures
        name_pass(files, n).len() <= 2 * n,
        folder_pass(files, n).len() <= 2 * n,
    decreases n,
{
    if n > 0 {
        lemma_pass_lengths(files, n - 1);
    }
}

// ---------------------------------------------------------------------------
// Scores
// ---------------------------------------------------------------------------

/// The integrity score lies between 5 and 100, is 100 when nothing was
/// found, and never rises when more issues of any severity are found.
pub proof fn law_integrity_score_bounded_and_monotone(
    critical: nat,
    warning: nat,
    info: nat,
    more_critical: nat,
    more_warning: nat,
    more_info: nat,
)
    ensures
        5 <= integrity_score_spec(critical as int, warning as int, info as int) <= 100,
        integrity_score_spec(0, 0, 0) == 100,
        integrity_score_spec(
            (critical + more_critical) as int,
            (warning + more_warning) as int,
            (info + more_info) as int,
        ) <= integrity_score_spec(critical as int, warning as int, info as int),
{
}

proof fn lemma_score_sum_between(ms: Seq<HealthMetric>, n: int, lo: int, hi: int)
    requires
        0 <= n <= ms.len(),
        forall|i: int| 0 <= i < ms.len() ==> lo <= #[trigger] ms[i].score <= hi,
    ensures
        lo * n <= score_sum(ms, n) <= hi * n,
    decreases n,
{
    if n > 0 {
        lemma_score_sum_between(ms, n - 1, lo, hi);
        let prev = score_sum(ms, n - 1) as int;
        let x = ms[n - 1].score as int;
        assert(score_sum(ms, n) == prev + x);
        assert(lo <= x <= hi);
        assert(lo * n == lo * (n - 1) + lo) by (nonlinear_arith);
        assert(hi * n == hi * (n - 1) + hi) by (nonlinear_arith);
        assert(lo * (n - 1) <= prev <= hi * (n - 1));
        assert(lo * n <= prev + x <= hi * n);
    } else {
        assert(lo * n == 0 && hi * n == 0) by (nonlinear_arith)
            requires
                n == 0,
        ;
    }
}

/// The overall health score is the mean of the metric scores, so it lies
/// between the lowest and the highest of them; with every metric scored
/// out of 100 it is out of 100 too. Without metrics it is 50.
pub proof fn law_overall_score_between_metric_scores(ms: Seq<HealthMetric>, lo: int, hi: int)
    requires
        ms.len() > 0,
        forall|i: int| 0 <= i < ms.len() ==> lo <= #[trigger] ms[i].score <= hi,
    ensures
        lo <= overall_score_spec(ms) <= hi,
        overall_score_spec(Seq::<HealthMetric>::empty()) == 50,
{
    let n = ms.len() as int;
    lemma_score_sum_between(ms, n, lo, hi);
    let s = score_sum(ms, n) as int;
    assert(lo <= s / n <= hi) by (nonlinear_arith)
        requires
            n > 0,
            lo * n <= s <= hi * n,
    ;
}

// ---------------------------------------------------------------------------
// Separated lists
// ---------------------------------------------------------------------------

proof fn lemma_trim_start_suffix(s: Seq<char>)
    ensures
        trim_start(s).len() <= s.len(),
        trim_start(s) == s.subrange(s.len() - trim_start(s).len(), s.len() as int),
        trim_start(s).len() > 0 ==> !is_whitespace(trim_start(s)[0]),
    decreases s.len(),
{
    if s.len() > 0 && is_whitespace(s[0]) {
        lemma_trim_start_suffix(s.drop_first());
        let t = trim_start(s.drop_first());
        assert(s.drop_first().subrange(s.len() - 1 - t.len(), s.len() - 1) =~= s.subrange(
            s.len() - t.len(),
            s.len() as int,
        ));
    } else {
        assert(s.subrange(0, s.len() as int) =~= s);
    }
}

proof fn lemma_trim_end_prefix(s: Seq<char>)
    ensures
        trim_end(s).len() <= s.len(),
        trim_end(s) == s.subrange(0, trim_end(s).len() as int),
        trim_end(s).len() > 0 ==> !is_whitespace(trim_end(s).last()),
    decreases s.len(),
{
    if s.len() > 0 && is_whitespace(s.last()) {
        lemma_trim_end_prefix(s.drop_last());
        let t = trim_end(s.drop_last());
        assert(s.drop_last().subrange(0, t.len() as int) =~= s.subrange(0, t.len() as int));
    } else {
        assert(s.subrange(0, s.len() as int) =~= s);
    }
}

/// A trimmed text neither starts nor ends with whitespace, and holds only
/// characters of the text it came from.
proof fn lemma_trim_facts(s: Seq<char>, sep: char)
    ensures
        trim(s).len() > 0 ==> !is_whitespace(trim(s)[0]) && !is_whitespace(trim(s).last()),
        (forall|j: int| 0 <= j < s.len() ==> s[j] != sep) ==> forall|k: int|
            0 <= k < trim(s).len() ==> #[trigger] trim(s)[k] != sep,
{
    lemma_trim_start_suffix(s);
    let a = trim_start(s);
    lemma_trim_end_prefix(a);
    let t = trim(s);
    if t.len() > 0 {
        assert(t[0] == a[0]);
    }
    if forall|j: int| 0 <= j < s.len() ==> s[j] != sep {
        assert forall|k: int| 0 <= k < t.len() implies #[trigger] t[k] != sep by {
            assert(t[k] == a[k]);
            assert(a[k] == s[s.len() - a.len() + k]);
        }
    }
}

proof fn lemma_split_pieces_free(s: Seq<char>, sep: char)
    ensures
        forall|p: int, j: int|
            0 <= p < split_pieces(s, sep).len() && 0 <= j < split_pieces(s, sep)[p].len()
                ==> #[trigger] split_pieces(s, sep)[p][j] != sep,
    decreases s.len(),
{
    if s.len() > 0 {
        lemma_split_pieces_free(s.drop_last(), sep);
        lemma_split_pieces_nonempty(s.drop_last(), sep);
        let q = split_pieces(s.drop_last(), sep);
        let r = split_pieces(s, sep);
        assert forall|p: int, j: int| 0 <= p < r.len() && 0 <= j < r[p].len() implies #[trigger] r[p][j] != sep by {
            if s.last() == sep {
                if p < q.len() {
                    assert(r[p] == q[p]);
                } else {
                    assert(r[p].len() == 0);
                }
            } else {
                if p < q.len() - 1 {
                    assert(r[p] == q[p]);
                } else {
                    assert(r[p] == q.last().push(s.last()));
                    if j < q.last().len() {
                        assert(r[p][j] == q[q.len() - 1][j]);
                    }
                }
            }
        }
    }
}

proof fn lemma_nonempty_trimmed_clean(pieces: Seq<Seq<char>>, n: int, sep: char)
    requires
        0 <= n <= pieces.len(),
        forall|p: int, j: int| 0 <= p < pieces.len() && 0 <= j < pieces[p].len() ==> #[trigger] pieces[p][j] != sep,
    ensures
        forall|k: int|
            0 <= k < nonempty_trimmed(pieces, n).len() ==> clean_item(#[trigger] nonempty_trimmed(pieces, n)[k], sep),
    decreases n,
{
    if n > 0 {
        lemma_nonempty_trimmed_clean(pieces, n - 1, sep);
        let prev = nonempty_trimmed(pieces, n - 1);
        let cur = nonempty_trimmed(pieces, n);
        let x = pieces[n - 1];
        lemma_trim_facts(x, sep);
        assert(forall|j: int| 0 <= j < x.len() ==> x[j] != sep);
        assert forall|k: int| 0 <= k < cur.len() implies clean_item(#[trigger] cur[k], sep) by {
            if k < prev.len() {
                assert(cur[k] == prev[k]);
            } else {
                assert(cur[k] == trim(x));
            }
        }
    }
}

/// A list item: not empty, without whitespace at either end, and without
/// the separator.
pub open spec fn clean_item(t: Seq<char>, sep: char) -> bool {
    &&& t.len() > 0
    &&& !is_whitespace(t[0])
    &&& !is_whitespace(t.last())
    &&& forall|j: int| 0 <= j < t.len() ==> t[j] != sep
}

/// Every item parsed from a separated list (the `;`-separated scan roots,
/// the `,`-separated ignore rules) is a non-empty text with no whitespace
/// at either end and no separator.
pub proof fn law_list_tokens_are_clean(input: Seq<char>, sep: char)
    ensures
        forall|k: int| 0 <= k < list_tokens(input, sep).len() ==> clean_item(#[trigger] list_tokens(input, sep)[k], sep),
        root_tokens(input) == list_tokens(input, ';'),
{
    let p = split_pieces(input, sep);
    lemma_split_pieces_free(input, sep);
    lemma_nonempty_trimmed_clean(p, p.len() as int, sep);
}

// ---------------------------------------------------------------------------
// Extension breakdown
// ---------------------------------------------------------------------------

proof fn lemma_distinct_facts(ks: Seq<Seq<char>>, n: int)
    requires
        0 <= n <= ks.len(),
    ensures
        distinct(ks, n).no_duplicates(),
        forall|i: int| 0 <= i < n ==> distinct(ks, n).contains(#[trigger] ks[i]),
        forall|t: int|
            0 <= t < distinct(ks, n).len() ==> exists|i: int| 0 <= i < n && ks[i] == #[trigger] distinct(ks, n)[t],
    decreases n,
{
    if n > 0 {
        lemma_distinct_facts(ks, n - 1);
        let d = distinct(ks, n - 1);
        let e = distinct(ks, n);
        let k = ks[n - 1];
        if d.contains(k) {
            assert(e == d);
        } else {
            assert(e == d.push(k));
            assert(e[d.len() as int] == k);
            assert forall|i: int| 0 <= i < n implies e.contains(#[trigger] ks[i]) by {
                if i < n - 1 {
                    let u = choose|u: int| 0 <= u < d.len() && d[u] == ks[i];
                    assert(e[u] == ks[i]);
                }
            }
            assert forall|t: int| 0 <= t < e.len() implies exists|i: int| 0 <= i < n && ks[i] == #[trigger] e[t] by {
                if t < d.len() {
                    assert(e[t] == d[t]);
                    let i = choose|i: int| 0 <= i < n - 1 && ks[i] == d[t];
                    assert(0 <= i < n && ks[i] == e[t]);
                } else {
                    assert(ks[n - 1] == e[t]);
                }
            }
        }
    }
}

/// Occurrences in `ks[..n]` of the first `m` values of `d`, summed.
pub open spec fn occ_total(ks: Seq<Seq<char>>, d: Seq<Seq<char>>, m: int, n: int) -> nat
    decreases m,
{
    if m <= 0 {
        0
    } else {
        occ_total(ks, d, m - 1, n) + occurrences(ks, d[m - 1], n)
    }
}

/// How many of the first `m` values of `d` equal `k`.
pub open spec fn hits(d: Seq<Seq<char>>, k: Seq<char>, m: int) -> nat
    decreases m,
{
    if m <= 0 {
        0
    } else {
        hits(d, k, m - 1) + if d[m - 1] == k { 1nat } else { 0nat }
    }
}

proof fn lemma_occ_total_step(ks: Seq<Seq<char>>, d: Seq<Seq<char>>, m: int, n: int)
    requires
        0 < n <= ks.len(),
        0 <= m,
    ensures
        occ_total(ks, d, m, n) == occ_total(ks, d, m, n - 1) + hits(d, ks[n - 1], m),
    decreases m,
{
    if m > 0 {
        lemma_occ_total_step(ks, d, m - 1, n);
    }
}

proof fn lemma_hits_unique(d: Seq<Seq<char>>, k: Seq<char>, m: int)
    requires
        0 <= m <= d.len(),
        d.no_duplicates(),
    ensures
        (exists|t: int| 0 <= t < m && d[t] == k) ==> hits(d, k, m) == 1,
        (forall|t: int| 0 <= t < m ==> d[t] != k) ==> hits(d, k, m) == 0,
    decreases m,
{
    if m > 0 {
        lemma_hits_unique(d, k, m - 1);
        if d[m - 1] == k {
            assert forall|t: int| 0 <= t < m - 1 implies d[t] != k by {
                assert(d[t] != d[m - 1]);
            }
        } else {
            if exists|t: int| 0 <= t < m && d[t] == k {
                let t = choose|t: int| 0 <= t < m && d[t] == k;
                assert(0 <= t < m - 1);
            }
        }
    }
}

proof fn lemma_occ_total_prefix(ks: Seq<Seq<char>>, d: Seq<Seq<char>>, e: Seq<Seq<char>>, m: int, n: int)
    requires
        0 <= m <= d.len(),
        m <= e.len(),
        forall|t: int| 0 <= t < m ==> d[t] == e[t],
    ensures
        occ_total(ks, d, m, n) == occ_total(ks, e, m, n),
    decreases m,
{
    if m > 0 {
        lemma_occ_total_prefix(ks, d, e, m - 1, n);
    }
}

proof fn lemma_occurrences_cover(ks: Seq<Seq<char>>, n: int)
    requires
        0 <= n <= ks.len(),
    ensures
        occ_total(ks, distinct(ks, n), distinct(ks, n).len() as int, n) == n,
    decreases n,
{
    if n > 0 {
        lemma_occurrences_cover(ks, n - 1);
        lemma_distinct_facts(ks, n - 1);
        lemma_distinct_facts(ks, n);
        let d = distinct(ks, n - 1);
        let e = distinct(ks, n);
        let k = ks[n - 1];
        if d.contains(k) {
            assert(e == d);
            lemma_occ_total_step(ks, d, d.len() as int, n);
            let t = choose|t: int| 0 <= t < d.len() && d[t] == k;
            lemma_hits_unique(d, k, d.len() as int);
        } else {
            assert(e == d.push(k));
            let m = d.len() as int;
            lemma_occ_total_prefix(ks, d, e, m, n);
            lemma_occ_total_step(ks, d, m, n);
            lemma_hits_unique(d, k, m);
            lemma_occurrences_absent(ks, k, n - 1);
            assert(e[m] == k);
            assert(occ_total(ks, e, m + 1, n) == occ_total(ks, e, m, n) + occurrences(ks, k, n));
        }
    }
}

/// Sum of a sequence of integers.
pub open spec fn seq_sum(s: Seq<int>) -> int
    decreases s.len(),
{
    if s.len() == 0 {
        0
    } else {
        seq_sum(s.drop_last()) + s.last()
    }
}

proof fn lemma_seq_sum_remove(s: Seq<int>, p: int)
    requires
        0 <= p < s.len(),
    ensures
        seq_sum(s) == seq_sum(s.remove(p)) + s[p],
    decreases s.len(),
{
    if p < s.len() - 1 {
        lemma_seq_sum_remove(s.drop_last(), p);
        assert(s.remove(p).drop_last() =~= s.drop_last().remove(p));
        assert(s.remove(p).last() == s.last());
    } else {
        assert(s.remove(p) =~= s.drop_last());
    }
}

proof fn lemma_permutation_has_top(r: Seq<usize>, n: nat)
    requires
        is_permutation(r, n),
        n > 0,
    ensures
        exists|p: int| 0 <= p < r.len() && r[p] == n - 1,
{
    let ri = Seq::new(r.len(), |i: int| r[i] as int);
    assert(ri.no_duplicates()) by {
        assert forall|i: int, j: int| 0 <= i < ri.len() && 0 <= j < ri.len() && i != j implies ri[i] != ri[j] by {
            if i < j {
                assert(r[i] != r[j]);
            } else {
                assert(r[j] != r[i]);
            }
        }
    }
    ri.unique_seq_to_set();
    lemma_int_range(0, n as int);
    assert(ri.to_set().subset_of(set_int_range(0, n as int))) by {
        assert forall|x: int| ri.to_set().contains(x) implies set_int_range(0, n as int).contains(x) by {
            let i = choose|i: int| 0 <= i < ri.len() && ri[i] == x;
            assert(r[i] < n);
        }
    }
    seq_to_set_is_finite(ri);
    lemma_subset_equality(ri.to_set(), set_int_range(0, n as int));
    assert(set_int_range(0, n as int).contains(n - 1));
    assert(ri.to_set().contains(n - 1));
    let p = choose|p: int| 0 <= p < ri.len() && ri[p] == n - 1;
    assert(r[p] == n - 1);
}

proof fn lemma_permuted_sum(v: Seq<int>, r: Seq<usize>)
    requires
        is_permutation(r, v.len()),
    ensures
        seq_sum(Seq::new(r.len(), |i: int| v[r[i] as int])) == seq_sum(v),
    decreases v.len(),
{
    let n = v.len();
    let s = Seq::new(r.len(), |i: int| v[r[i] as int]);
    if n == 0 {
        assert(s.len() == 0);
    } else {
        lemma_permutation_has_top(r, n);
        let p = choose|p: int| 0 <= p < r.len() && r[p] == n - 1;
        let r2 = r.remove(p);
        let v2 = v.drop_last();
        assert(is_permutation(r2, v2.len())) by {
            assert forall|i: int| 0 <= i < r2.len() implies r2[i] < v2.len() by {
                let j = if i < p { i } else { i + 1 };
                assert(r2[i] == r[j]);
                assert(r[j] != r[p]);
            }
            assert forall|i: int, j: int| 0 <= i < j < r2.len() implies r2[i] != r2[j] by {
                let a = if i < p { i } else { i + 1 };
                let b = if j < p { j } else { j + 1 };
                assert(r2[i] == r[a] && r2[j] == r[b]);
                assert(a < b);
            }
        }
        lemma_permuted_sum(v2, r2);
        let s2 = Seq::new(r2.len(), |i: int| v2[r2[i] as int]);
        assert(s2 =~= s.remove(p)) by {
            assert forall|i: int| 0 <= i < s2.len() implies s2[i] == s.remove(p)[i] by {
                let j = if i < p { i } else { i + 1 };
                assert(r2[i] == r[j]);
                assert(r[j] != r[p]);
                assert(s.remove(p)[i] == s[j]);
            }
        }
        lemma_seq_sum_remove(s, p);
        assert(s[p] == v[n - 1]);
    }
}

/// Sum of the counts of a breakdown.
pub open spec fn breakdown_total(out: Seq<(Seq<char>, usize)>) -> int {
    seq_sum(Seq::new(out.len(), |i: int| out[i].1 as int))
}

/// The extension breakdown accounts for every file exactly once: its counts
/// add up to the number of files, no extension key is listed twice, every
/// listed count is at least one, and every file's key is listed.
pub proof fn law_breakdown_counts_every_file(out: Seq<(Seq<char>, usize)>, ks: Seq<Seq<char>>)
    requires
        is_count_breakdown(out, ks),
        ks.len() <= u64::MAX,
    ensures
        breakdown_total(out) == ks.len(),
        forall|a: int, b: int| 0 <= a < b < out.len() ==> out[a].0 != out[b].0,
        forall|a: int| 0 <= a < out.len() ==> #[trigger] out[a].1 >= 1,
        forall|i: int| 0 <= i < ks.len() ==> exists|a: int| 0 <= a < out.len() && out[a].0 == #[trigger] ks[i],
{
    let n = ks.len() as int;
    let d = distinct(ks, n);
    let counts = Seq::new(d.len(), |t: int| occurrences(ks, d[t], n) as u64);
    let r = choose|r: Seq<usize>|
        #[trigger] is_stable_desc_order(counts, r) && out.len() == r.len() && forall|i: int|
            0 <= i < out.len() ==> out[i].0 == d[r[i] as int] && out[i].1 == counts[r[i] as int];
    lemma_distinct_facts(ks, n);
    lemma_occurrences_cover(ks, n);
    assert forall|t: int| 0 <= t < d.len() implies counts[t] as int == occurrences(ks, d[t], n) by {
        lemma_occurrences_bound(ks, d[t], n);
    }
    let ci = Seq::new(d.len(), |t: int| counts[t] as int);
    assert(seq_sum(ci) == occ_total(ks, d, d.len() as int, n)) by {
        lemma_sum_counts(ks, d, ci, d.len() as int, n);
    }
    lemma_permuted_sum(ci, r);
    assert(Seq::new(r.len(), |i: int| ci[r[i] as int]) =~= Seq::new(out.len(), |i: int| out[i].1 as int));
    assert forall|a: int, b: int| 0 <= a < b < out.len() implies out[a].0 != out[b].0 by {
        assert(r[a] != r[b]);
    }
    assert forall|a: int| 0 <= a < out.len() implies #[trigger] out[a].1 >= 1 by {
        let t = r[a] as int;
        let i = choose|i: int| 0 <= i < n && ks[i] == d[t];
        lemma_occurrence_present(ks, d[t], n, i);
    }
    assert forall|i: int| 0 <= i < ks.len() implies exists|a: int| 0 <= a < out.len() && out[a].0 == #[trigger] ks[i] by {
        let t = choose|t: int| 0 <= t < d.len() && d[t] == ks[i];
        lemma_permutation_covers(r, d.len(), t);
        let a = choose|a: int| 0 <= a < r.len() && r[a] == t;
        assert(out[a].0 == ks[i]);
    }
}

proof fn lemma_sum_counts(ks: Seq<Seq<char>>, d: Seq<Seq<char>>, ci: Seq<int>, m: int, n: int)
    requires
        0 <= m <= ci.len(),
        ci.len() == d.len(),
        forall|t: int| 0 <= t < ci.len() ==> ci[t] == occurrences(ks, #[trigger] d[t], n),
    ensures
        seq_sum(ci.subrange(0, m)) == occ_total(ks, d, m, n),
        m == ci.len() ==> seq_sum(ci) == occ_total(ks, d, m, n),
    decreases m,
{
    if m > 0 {
        lemma_sum_counts(ks, d, ci, m - 1, n);
        assert(ci.subrange(0, m).drop_last() =~= ci.subrange(0, m - 1));
    }
    if m == ci.len() {
        assert(ci.subrange(0, m) =~= ci);
    }
}

proof fn lemma_occurrence_present(ks: Seq<Seq<char>>, k: Seq<char>, n: int, i: int)
    requires
        0 <= i < n <= ks.len(),
        ks[i] == k,
    ensures
        occurrences(ks, k, n) >= 1,
    decreases n,
{
    if i < n - 1 {
        lemma_occurrence_present(ks, k, n - 1, i);
    }
}

proof fn lemma_permutation_covers(r: Seq<usize>, n: nat, t: int)
    requires
        is_permutation(r, n),
        0 <= t < n,
    ensures
        exists|a: int| 0 <= a < r.len() && r[a] == t,
{
    let ri = Seq::new(r.len(), |i: int| r[i] as int);
    assert(ri.no_duplicates()) by {
        assert forall|i: int, j: int| 0 <= i < ri.len() && 0 <= j < ri.len() && i != j implies ri[i] != ri[j] by {
            if i < j {
                assert(r[i] != r[j]);
            } else {
                assert(r[j] != r[i]);
            }
        }
    }
    ri.unique_seq_to_set();
    lemma_int_range(0, n as int);
    assert(ri.to_set().subset_of(set_int_range(0, n as int))) by {
        assert forall|x: int| ri.to_set().contains(x) implies set_int_range(0, n as int).contains(x) by {
            let i = choose|i: int| 0 <= i < ri.len() && ri[i] == x;
            assert(r[i] < n);
        }
    }
    seq_to_set_is_finite(ri);
    lemma_subset_equality(ri.to_set(), set_int_range(0, n as int));
    assert(set_int_range(0, n as int).contains(t));
    assert(ri.to_set().contains(t));
    let a = choose|a: int| 0 <= a < ri.len() && ri[a] == t;
    assert(r[a] == t);
}

// ---------------------------------------------------------------------------
// Integrity issues
// ---------------------------------------------------------------------------

/// One of the three severities the report counts.
pub open spec fn counted_severity(sev: Seq<char>) -> bool {
    sev == "critical"@ || sev == "warning"@ || sev == "info"@
}

proof fn lemma_severity_buckets(issues: Seq<IntegrityIssue>, n: int)
    requires
        0 <= n <= issues.len(),
        forall|k: int| 0 <= k < issues.len() ==> counted_severity(#[trigger] issues[k].severity@),
    ensures
        severity_count(issues, "critical"@, n) + severity_count(issues, "warning"@, n) + severity_count(
            issues,
            "info"@,
            n,
        ) == n,
    decreases n,
{
    reveal_strlit("critical");
    reveal_strlit("warning");
    reveal_strlit("info");
    if n > 0 {
        lemma_severity_buckets(issues, n - 1);
        assert(counted_severity(issues[n - 1].severity@));
        assert("critical"@.len() == 8 && "warning"@.len() == 7 && "info"@.len() == 4);
    }
}

/// The severity buckets partition the issues: when every issue is
/// critical, a warning or informational, the three counts of the report
/// add up to the number of issues.
pub proof fn law_severity_counts_partition_issues(issues: Seq<IntegrityIssue>)
    requires
        forall|k: int| 0 <= k < issues.len() ==> counted_severity(#[trigger] issues[k].severity@),
    ensures
        severity_count(issues, "critical"@, issues.len() as int) + severity_count(
            issues,
            "warning"@,
            issues.len() as int,
        ) + severity_count(issues, "info"@, issues.len() as int) == issues.len(),
{
    lemma_severity_buckets(issues, issues.len() as int);
}

/// An issue raised for the file at `path`: counted by severity, and naming
/// the file, except a sibling clash, which names the folder.
pub open spec fn file_issue_ok(path: Seq<char>, x: IssueView) -> bool {
    &&& counted_severity(x.1)
    &&& (x.2 == path || x.0 == "Sibling Version Clash"@)
}

pub open spec fn all_file_issues_ok(path: Seq<char>, s: Seq<IssueView>) -> bool {
    forall|k: int| 0 <= k < s.len() ==> file_issue_ok(path, #[trigger] s[k])
}

proof fn lemma_all_ok_concat(path: Seq<char>, a: Seq<IssueView>, b: Seq<IssueView>)
    requires
        all_file_issues_ok(path, a),
        all_file_issues_ok(path, b),
    ensures
        all_file_issues_ok(path, a + b),
{
    assert forall|k: int| 0 <= k < (a + b).len() implies file_issue_ok(path, #[trigger] (a + b)[k]) by {
        if k < a.len() {
            assert((a + b)[k] == a[k]);
        } else {
            assert((a + b)[k] == b[k - a.len()]);
        }
    }
}

/// Every issue the checks raise for one file falls into one of the three
/// severity buckets, and names that file (a sibling clash names the file's
/// folder); a file whose metadata cannot be read raises that one critical
/// issue and nothing else.
pub proof fn law_file_issues_are_bucketed(path: Seq<char>, facts: FileFacts)
    ensures
        all_file_issues_ok(path, file_issues_spec(path, facts)),
        facts.metadata is Err ==> file_issues_spec(path, facts).len() == 1
            && file_issues_spec(path, facts)[0].1 == "critical"@,
{
    reveal_strlit("critical");
    reveal_strlit("warning");
    reveal_strlit("info");
    match facts.metadata {
        Err(e) => {
            let s = file_issues_spec(path, facts);
            assert(file_issue_ok(path, s[0]));
        },
        Ok(len) => {
            let z = zero_issue(path, len);
            let pa = partial_issue(path);
            let ex = executable_issues(path, len, facts.pe_header);
            let zi = zip_issue(path, facts.zip_archive);
            let c = config_issue(path, facts.config_parse);
            let sb = sibling_issue(facts.sibling_clashes);
            assert(all_file_issues_ok(path, z));
            assert(all_file_issues_ok(path, pa));
            assert(all_file_issues_ok(path, ex)) by {
                let pe = verdict_issue(
                    facts.pe_header,
                    "PE Header Corruption"@,
                    "critical"@,
                    path,
                    "Replace or reinstall the affected executable/library."@,
                );
                assert(all_file_issues_ok(path, pe));
                let tiny: Seq<IssueView> = if len < 4096 {
                    seq![
                        (
                            "Tiny Executable/Library"@,
                            "critical"@,
                            path,
                            "Executable/library size is unexpectedly small."@,
                            "Reinstall this application from a trusted source."@,
                        ),
                    ]
                } else {
                    Seq::empty()
                };
                assert(all_file_issues_ok(path, tiny));
                lemma_all_ok_concat(path, tiny, pe);
            }
            assert(all_file_issues_ok(path, zi));
            assert(all_file_issues_ok(path, c));
            assert(all_file_issues_ok(path, sb));
            lemma_all_ok_concat(path, z, pa);
            lemma_all_ok_concat(path, z + pa, ex);
            lemma_all_ok_concat(path, z + pa + ex, zi);
            lemma_all_ok_concat(path, z + pa + ex + zi, c);
            lemma_all_ok_concat(path, z + pa + ex + zi + c, sb);
        },
    }
}

// ---------------------------------------------------------------------------
// Updates
// ---------------------------------------------------------------------------

proof fn lemma_installer_index_facts(assets: Seq<GitHubReleaseAsset>, n: int)
    requires
        0 <= n <= assets.len(),
    ensures
        match installer_index(assets, n) {
            Some(i) => 0 <= i < n && ends_with(lower(assets[i].name@), ".exe"@) && forall|j: int|
                0 <= j < i ==> !ends_with(lower(#[trigger] assets[j].name@), ".exe"@),
            None => forall|j: int| 0 <= j < n ==> !ends_with(lower(#[trigger] assets[j].name@), ".exe"@),
        },
    decreases n,
{
    if n > 0 {
        lemma_installer_index_facts(assets, n - 1);
    }
}

/// An update is planned only for a release whose tag reads as a version
/// newer than the running one, and what is downloaded is the release's
/// first `.exe` asset (compared without case).
pub proof fn law_updates_only_move_forward(
    release: Result<(Seq<char>, Seq<GitHubReleaseAsset>), Seq<char>>,
    current: Seq<char>,
)
    ensures
        release_stage_spec(release, current) matches Ok((i, raw)) ==> {
            &&& release matches Ok((tag, assets)) && raw == normalize_version_spec(tag)
                && 0 <= i < assets.len() && ends_with(lower(assets[i].name@), ".exe"@)
                && forall|j: int| 0 <= j < i ==> !ends_with(lower(#[trigger] assets[j].name@), ".exe"@)
            &&& semver_accepts(normalize_version_spec(raw))
            &&& !semver_not_newer(normalize_version_spec(raw), current)
        },
{
    match release {
        Ok((tag, assets)) => {
            lemma_installer_index_facts(assets, assets.len() as int);
        },
        Err(_) => {},
    }
}

// ---------------------------------------------------------------------------
// Candidate list
// ---------------------------------------------------------------------------

/// A listed row passes the (lower-cased) filter and carries one of the four
/// risk levels: 45 for a duplicate copy, 62, 57 or 49 for a leftover.
pub open spec fn row_ok(r: RowView, f: Seq<char>) -> bool {
    &&& passes_filter(r.0, f)
    &&& (r.3 == 45 || r.3 == 49 || r.3 == 57 || r.3 == 62)
}

pub open spec fn rows_ok(rows: Seq<RowView>, f: Seq<char>) -> bool {
    forall|k: int| 0 <= k < rows.len() ==> row_ok(#[trigger] rows[k], f)
}

proof fn lemma_rows_ok_concat(a: Seq<RowView>, b: Seq<RowView>, f: Seq<char>)
    requires
        rows_ok(a, f),
        rows_ok(b, f),
    ensures
        rows_ok(a + b, f),
{
    assert forall|k: int| 0 <= k < (a + b).len() implies row_ok(#[trigger] (a + b)[k], f) by {
        if k < a.len() {
            assert((a + b)[k] == a[k]);
        } else {
            assert((a + b)[k] == b[k - a.len()]);
        }
    }
}

proof fn lemma_group_rows_ok(files: Seq<Seq<char>>, f: Seq<char>, n: int)
    ensures
        rows_ok(group_rows(files, f, n), f),
    decreases n,
{
    if n > 1 {
        lemma_group_rows_ok(files, f, n - 1);
        let p = group_rows(files, f, n - 1);
        let q = group_rows(files, f, n);
        assert forall|k: int| 0 <= k < q.len() implies row_ok(#[trigger] q[k], f) by {
            if k < p.len() {
                assert(q[k] == p[k]);
            }
        }
    }
}

proof fn lemma_dup_rows_ok(groups: Seq<DuplicateGroup>, r: Seq<usize>, f: Seq<char>, n: int)
    ensures
        rows_ok(dup_rows(groups, r, f, n), f),
    decreases n,
{
    if n > 0 {
        lemma_dup_rows_ok(groups, r, f, n - 1);
        let files = texts(groups[r[n - 1] as int].files@);
        lemma_group_rows_ok(files, f, files.len() as int);
        lemma_rows_ok_concat(dup_rows(groups, r, f, n - 1), group_rows(files, f, files.len() as int), f);
    }
}

proof fn lemma_leftover_rows_ok(ls: Seq<LeftoverHit>, f: Seq<char>, n: int)
    ensures
        rows_ok(leftover_rows(ls, f, n), f),
    decreases n,
{
    if n > 0 {
        lemma_leftover_rows_ok(ls, f, n - 1);
        let p = leftover_rows(ls, f, n - 1);
        let q = leftover_rows(ls, f, n);
        assert forall|k: int| 0 <= k < q.len() implies row_ok(#[trigger] q[k], f) by {
            if k < p.len() {
                assert(q[k] == p[k]);
            }
        }
    }
}

/// Every row of the candidate list passes the operator's filter (compared
/// without case) and carries one of the four risk levels.
pub proof fn law_candidate_rows_pass_filter(
    summary: Option<ScanSummary>,
    sort: DuplicateSort,
    filter: Seq<char>,
    rows: Seq<RowView>,
)
    requires
        is_candidate_listing(summary, sort, filter, rows),
    ensures
        rows_ok(rows, lower(filter)),
{
    match summary {
        None => {},
        Some(s) => {
            let f = lower(filter);
            let g = s.duplicate_groups@;
            let r = choose|r: Seq<usize>|
                #[trigger] is_listing_order(g, sort, r) && rows == dup_rows(g, r, f, g.len() as int)
                    + leftover_rows(s.leftovers@, f, s.leftovers@.len() as int);
            lemma_dup_rows_ok(g, r, f, g.len() as int);
            lemma_leftover_rows_ok(s.leftovers@, f, s.leftovers@.len() as int);
            lemma_rows_ok_concat(
                dup_rows(g, r, f, g.len() as int),
                leftover_rows(s.leftovers@, f, s.leftovers@.len() as int),
                f,
            );
        },
    }
}

/// `r` lists its elements so that each may come before every later one
/// (`le`), and elements that may come either way keep increasing order.
pub open spec fn sorted_by(le: spec_fn(usize, usize) -> bool, r: Seq<usize>) -> bool {
    &&& forall|i: int, j: int| 0 <= i < j < r.len() ==> #[trigger] le(r[i], r[j])
    &&& forall|i: int, j: int|
        0 <= i < j < r.len() && le(r[i], r[j]) && le(r[j], r[i]) ==> r[i] < r[j]
}

proof fn lemma_sorted_unique(le: spec_fn(usize, usize) -> bool, r1: Seq<usize>, r2: Seq<usize>)
    requires
        r1.no_duplicates(),
        r2.no_duplicates(),
        forall|x: usize| r1.contains(x) <==> r2.contains(x),
        sorted_by(le, r1),
        sorted_by(le, r2),
    ensures
        r1 == r2,
    decreases r1.len(),
{
    if r1.len() == 0 {
        if r2.len() > 0 {
            assert(r2.contains(r2[0]));
        }
        assert(r1 =~= r2);
    } else {
        if r2.len() == 0 {
            assert(r1.contains(r1[0]));
        }
        let a = r1[0];
        let b = r2[0];
        assert(r2.contains(b));
        assert(r1.contains(a));
        let j = choose|j: int| 0 <= j < r1.len() && r1[j] == b;
        let i = choose|i: int| 0 <= i < r2.len() && r2[i] == a;
        if a != b {
            assert(le(r1[0], r1[j]));
            assert(le(r2[0], r2[i]));
            assert(a < b);
            assert(b < a);
        }
        let t1 = r1.drop_first();
        let t2 = r2.drop_first();
        assert forall|x: usize| t1.contains(x) <==> t2.contains(x) by {
            if t1.contains(x) {
                let k = choose|k: int| 0 <= k < t1.len() && t1[k] == x;
                assert(r1[k + 1] == x);
                assert(x != a);
                assert(r2.contains(x));
                let l = choose|l: int| 0 <= l < r2.len() && r2[l] == x;
                assert(l != 0);
                assert(t2[l - 1] == x);
            }
            if t2.contains(x) {
                let k = choose|k: int| 0 <= k < t2.len() && t2[k] == x;
                assert(r2[k + 1] == x);
                assert(x != b);
                assert(r1.contains(x));
                let l = choose|l: int| 0 <= l < r1.len() && r1[l] == x;
                assert(l != 0);
                assert(t1[l - 1] == x);
            }
        }
        assert(sorted_by(le, t1)) by {
            assert forall|i: int, j: int| 0 <= i < j < t1.len() implies #[trigger] le(t1[i], t1[j]) by {
                assert(t1[i] == r1[i + 1] && t1[j] == r1[j + 1]);
            }
            assert forall|i: int, j: int|
                0 <= i < j < t1.len() && le(t1[i], t1[j]) && le(t1[j], t1[i]) implies t1[i] < t1[j] by {
                assert(t1[i] == r1[i + 1] && t1[j] == r1[j + 1]);
            }
        }
        assert(sorted_by(le, t2)) by {
            assert forall|i: int, j: int| 0 <= i < j < t2.len() implies #[trigger] le(t2[i], t2[j]) by {
                assert(t2[i] == r2[i + 1] && t2[j] == r2[j + 1]);
            }
            assert forall|i: int, j: int|
                0 <= i < j < t2.len() && le(t2[i], t2[j]) && le(t2[j], t2[i]) implies t2[i] < t2[j] by {
                assert(t2[i] == r2[i + 1] && t2[j] == r2[j + 1]);
            }
        }
        lemma_sorted_unique(le, t1, t2);
        assert(r1 =~= r2) by {
            assert(r1.len() == t1.len() + 1 && r2.len() == t2.len() + 1);
            assert forall|k: int| 0 <= k < r1.len() implies r1[k] == r2[k] by {
                if k > 0 {
                    assert(r1[k] == t1[k - 1] && r2[k] == t2[k - 1]);
                }
            }
        }
    }
}

proof fn lemma_permutation_facts(r: Seq<usize>, n: nat)
    requires
        is_permutation(r, n),
    ensures
        r.no_duplicates(),
        forall|x: usize| r.contains(x) <==> x < n,
{
    assert forall|i: int, j: int| 0 <= i < r.len() && 0 <= j < r.len() && i != j implies r[i] != r[j] by {
        if i > j {
            assert(r[j] != r[i]);
        }
    }
    assert forall|x: usize| r.contains(x) <==> x < n by {
        if x < n {
            lemma_permutation_covers(r, n, x as int);
        }
    }
}

/// Two listings of the same groups by the same sort take the same order:
/// the stable orders are unique.
proof fn lemma_listing_order_unique(groups: Seq<DuplicateGroup>, sort: DuplicateSort, r1: Seq<usize>, r2: Seq<usize>)
    requires
        is_listing_order(groups, sort, r1),
        is_listing_order(groups, sort, r2),
    ensures
        r1 == r2,
{
    let n = groups.len();
    match sort {
        DuplicateSort::Waste => {
            let keys = crate::control::group_totals_of(groups);
            let le = |x: usize, y: usize| keys[x as int] >= keys[y as int];
            lemma_permutation_facts(r1, n);
            lemma_permutation_facts(r2, n);
            lemma_sorted_unique(le, r1, r2);
        },
        DuplicateSort::Copies => {
            let keys = crate::control::group_copies_of(groups);
            let le = |x: usize, y: usize| keys[x as int] >= keys[y as int];
            lemma_permutation_facts(r1, n);
            lemma_permutation_facts(r2, n);
            lemma_sorted_unique(le, r1, r2);
        },
        DuplicateSort::Path => {
            let keys = crate::control::group_first_paths(groups);
            let le = |x: usize, y: usize| !crate::order::lex_lt(keys[y as int], keys[x as int], false);
            lemma_permutation_facts(r1, n);
            lemma_permutation_facts(r2, n);
            assert forall|r: Seq<usize>| #[trigger] is_listing_order(groups, sort, r) implies sorted_by(le, r) by {
                assert forall|i: int, j: int| 0 <= i < j < r.len() implies #[trigger] le(r[i], r[j]) by {
                }
                assert forall|i: int, j: int|
                    0 <= i < j < r.len() && le(r[i], r[j]) && le(r[j], r[i]) implies r[i] < r[j] by {
                    assert(crate::order::lex_equiv(keys[r[i] as int], keys[r[j] as int], false));
                }
            }
            lemma_sorted_unique(le, r1, r2);
        },
    }
}

/// The rows a filter keeps.
pub open spec fn keeps(f: Seq<char>) -> spec_fn(RowView) -> bool {
    |r: RowView| passes_filter(r.0, f)
}

proof fn lemma_group_rows_filter(files: Seq<Seq<char>>, f: Seq<char>, n: int)
    ensures
        group_rows(files, f, n) == group_rows(files, Seq::empty(), n).filter(keeps(f)),
    decreases n,
{
    reveal(Seq::filter);
    let all = group_rows(files, Seq::empty(), n);
    if n <= 1 {
        assert(all.filter(keeps(f)) =~= Seq::empty());
    } else {
        lemma_group_rows_filter(files, f, n - 1);
        let prev = group_rows(files, Seq::empty(), n - 1);
        assert(all == prev.push((files[n - 1], "Duplicate"@, "Additional copy in duplicate group"@, 45u8)));
        assert(all.drop_last() =~= prev);
    }
}

proof fn lemma_leftover_rows_filter(ls: Seq<LeftoverHit>, f: Seq<char>, n: int)
    ensures
        leftover_rows(ls, f, n) == leftover_rows(ls, Seq::empty(), n).filter(keeps(f)),
    decreases n,
{
    reveal(Seq::filter);
    let all = leftover_rows(ls, Seq::empty(), n);
    if n <= 0 {
        assert(all.filter(keeps(f)) =~= Seq::empty());
    } else {
        lemma_leftover_rows_filter(ls, f, n - 1);
        let prev = leftover_rows(ls, Seq::empty(), n - 1);
        assert(all.drop_last() =~= prev);
    }
}

proof fn lemma_dup_rows_filter(groups: Seq<DuplicateGroup>, r: Seq<usize>, f: Seq<char>, n: int)
    ensures
        dup_rows(groups, r, f, n) == dup_rows(groups, r, Seq::empty(), n).filter(keeps(f)),
    decreases n,
{
    if n <= 0 {
        reveal(Seq::filter);
        assert(dup_rows(groups, r, Seq::empty(), n).filter(keeps(f)) =~= Seq::empty());
    } else {
        lemma_dup_rows_filter(groups, r, f, n - 1);
        let files = texts(groups[r[n - 1] as int].files@);
        lemma_group_rows_filter(files, f, files.len() as int);
        Seq::filter_distributes_over_add(
            dup_rows(groups, r, Seq::empty(), n - 1),
            group_rows(files, Seq::empty(), files.len() as int),
            keeps(f),
        );
    }
}

/// Filtering the candidate list keeps exactly the rows of the unfiltered
/// list whose path contains the filter (compared without case), in the same
/// order.
pub proof fn law_filter_keeps_matching_rows(
    summary: Option<ScanSummary>,
    sort: DuplicateSort,
    filter: Seq<char>,
    all_rows: Seq<RowView>,
    rows: Seq<RowView>,
)
    requires
        is_candidate_listing(summary, sort, Seq::empty(), all_rows),
        is_candidate_listing(summary, sort, filter, rows),
    ensures
        rows == all_rows.filter(keeps(lower(filter))),
        filter.len() > 0 ==> forall|k: int|
            0 <= k < rows.len() ==> contains(lower(#[trigger] rows[k].0), lower(filter)),
{
    let f = lower(filter);
    match summary {
        None => {
            reveal(Seq::filter);
            assert(all_rows.filter(keeps(f)) =~= Seq::empty());
        },
        Some(s) => {
            let g = s.duplicate_groups@;
            let e = lower(Seq::<char>::empty());
            assert(e =~= Seq::<char>::empty());
            let r0 = choose|r: Seq<usize>|
                #[trigger] is_listing_order(g, sort, r) && all_rows == dup_rows(g, r, e, g.len() as int)
                    + leftover_rows(s.leftovers@, e, s.leftovers@.len() as int);
            let r1 = choose|r: Seq<usize>|
                #[trigger] is_listing_order(g, sort, r) && rows == dup_rows(g, r, f, g.len() as int)
                    + leftover_rows(s.leftovers@, f, s.leftovers@.len() as int);
            lemma_listing_order_unique(g, sort, r0, r1);
            lemma_dup_rows_filter(g, r0, f, g.len() as int);
            lemma_leftover_rows_filter(s.leftovers@, f, s.leftovers@.len() as int);
            Seq::filter_distributes_over_add(
                dup_rows(g, r0, e, g.len() as int),
                leftover_rows(s.leftovers@, e, s.leftovers@.len() as int),
                keeps(f),
            );
        },
    }
    law_candidate_rows_pass_filter(summary, sort, filter, rows);
    assert(lower(filter).len() == filter.len());
}


/// The warnings (or recommendations) raised by the first `k` rows come
/// first among those raised by all rows.
proof fn lemma_row_alerts_prefix(rows: Seq<MetricRow>, k: int)
    requires
        0 <= k <= rows.len(),
    ensures
        row_warnings(rows.subrange(0, k)).len() <= row_warnings(rows).len(),
        row_warnings(rows.subrange(0, k)) == row_warnings(rows).subrange(0, row_warnings(rows.subrange(0, k)).len() as int),
        row_recommendations(rows.subrange(0, k)).len() <= row_recommendations(rows).len(),
        row_recommendations(rows.subrange(0, k)) == row_recommendations(rows).subrange(
            0,
            row_recommendations(rows.subrange(0, k)).len() as int,
        ),
    decreases rows.len(),
{
    if k == rows.len() {
        assert(rows.subrange(0, k) =~= rows);
        assert(row_warnings(rows).subrange(0, row_warnings(rows).len() as int) =~= row_warnings(rows));
        assert(row_recommendations(rows).subrange(0, row_recommendations(rows).len() as int)
            =~= row_recommendations(rows));
    } else {
        let d = rows.drop_last();
        assert(d.subrange(0, k) =~= rows.subrange(0, k));
        lemma_row_alerts_prefix(d, k);
        let w = row_warnings(rows.subrange(0, k));
        let r = row_recommendations(rows.subrange(0, k));
        assert(row_warnings(d).subrange(0, w.len() as int) =~= row_warnings(rows).subrange(0, w.len() as int));
        assert(row_recommendations(d).subrange(0, r.len() as int) =~= row_recommendations(rows).subrange(
            0,
            r.len() as int,
        ));
    }
}

/// How many of the metrics score below 50.
pub open spec fn low_score_count(ms: Seq<(Seq<char>, u8, Seq<char>)>) -> nat
    decreases ms.len(),
{
    if ms.len() == 0 {
        0
    } else {
        low_score_count(ms.drop_last()) + if ms.last().1 < 50 { 1nat } else { 0 }
    }
}

proof fn lemma_alerts_count_low_scores(rows: Seq<MetricRow>)
    ensures
        row_warnings(rows).len() == low_score_count(row_metrics(rows)),
        row_recommendations(rows).len() == low_score_count(row_metrics(rows)),
    decreases rows.len(),
{
    if rows.len() > 0 {
        lemma_alerts_count_low_scores(rows.drop_last());
        assert(row_metrics(rows).drop_last() =~= row_metrics(rows.drop_last()));
    }
}

/// What every health check records, quick or deep: disk capacity, memory
/// pressure and processor load first; the temporary-storage metric right
/// after them exactly when the temporary folder was probed, with its
/// warning and recommendation when it scores below 50; a quick check
/// records nothing more, a deep one adds processes, startup entries and,
/// where the query answered, services. Each metric scoring below 50 raises
/// one warning and one recommendation, and no other does.
pub proof fn law_health_check_records(mode: RunMode, p: HealthProbes, report: HealthReport)
    requires
        metric_views(report.metrics@) == row_metrics(health_rows(mode, p)),
        texts(report.warnings@) == row_warnings(health_rows(mode, p)),
        texts(report.recommendations@) == row_recommendations(health_rows(mode, p)),
    ensures
        report.metrics@.len() == 3 + (if p.temp is Some { 1int } else { 0 }) + match mode {
            RunMode::Quick => 0int,
            RunMode::Deep => 2 + if p.services is Some { 1int } else { 0 },
        },
        metric_view(report.metrics@[0]) == (
            "Disk Capacity"@,
            disk_free_score_spec(p.free_space as nat, p.total_space as nat),
            p.disk_details@,
        ),
        metric_view(report.metrics@[1]) == (
            "Memory Pressure"@,
            memory_score_spec(p.used_memory as nat, p.total_memory as nat),
            p.memory_details@,
        ),
        metric_view(report.metrics@[2]) == ("CPU Load"@, p.cpu_score, p.cpu_details@),
        p.temp matches Some((bytes, details)) ==> metric_view(report.metrics@[3]) == (
            "Temp Storage"@,
            temp_score_spec(bytes as nat),
            details@,
        ),
        p.temp matches Some((bytes, details)) && temp_score_spec(bytes as nat) < 50 ==> texts(
            report.warnings@,
        ).contains("Temporary file accumulation is heavy."@) && texts(report.recommendations@).contains(
            "Purge stale temporary folders and extraction leftovers."@,
        ),
        ({
            let t = if p.temp is Some { 4int } else { 3int };
            mode is Deep ==> metric_view(report.metrics@[t]) == (
                "Process Bloat"@,
                process_bloat_score_spec(p.process_count as nat),
                "Running processes: "@ + decimal(p.process_count as nat),
            ) && metric_view(report.metrics@[t + 1]) == (
                "Startup Entries"@,
                startup_entry_score_spec(p.startup_count as nat),
                "Startup items found: "@ + decimal(p.startup_count as nat),
            ) && (p.services matches Some((total, running)) ==> metric_view(report.metrics@[t + 2]) == (
                "Service Load"@,
                service_score_spec(running as nat, total as nat),
                "Running/Total services: "@ + decimal(running as nat) + "/"@ + decimal(total as nat),
            ))
        }),
        report.warnings@.len() == low_score_count(metric_views(report.metrics@)),
        report.recommendations@.len() == low_score_count(metric_views(report.metrics@)),
{
    let rows = health_rows(mode, p);
    lemma_alerts_count_low_scores(rows);
    assert(texts(report.warnings@).len() == report.warnings@.len());
    assert(texts(report.recommendations@).len() == report.recommendations@.len());
    let t = if p.temp is Some { 4int } else { 3int };
    if mode is Deep {
        assert(metric_views(report.metrics@)[t] == metric_view(report.metrics@[t]));
        assert(metric_views(report.metrics@)[t + 1] == metric_view(report.metrics@[t + 1]));
        if p.services is Some {
            assert(metric_views(report.metrics@)[t + 2] == metric_view(report.metrics@[t + 2]));
        }
    }
    assert(metric_views(report.metrics@).len() == report.metrics@.len());
    assert(row_metrics(rows).len() == rows.len());
    assert(metric_views(report.metrics@)[0] == metric_view(report.metrics@[0]));
    assert(metric_views(report.metrics@)[1] == metric_view(report.metrics@[1]));
    assert(metric_views(report.metrics@)[2] == metric_view(report.metrics@[2]));
    match p.temp {
        Some((bytes, details)) => {
            assert(metric_views(report.metrics@)[3] == metric_view(report.metrics@[3]));
            if temp_score_spec(bytes as nat) < 50 {
                let r4 = rows.subrange(0, 4);
                assert(r4.drop_last() =~= rows.subrange(0, 3));
                let w = row_warnings(r4);
                let c = row_recommendations(r4);
                assert(w.last() == "Temporary file accumulation is heavy."@);
                assert(c.last() == "Purge stale temporary folders and extraction leftovers."@);
                lemma_row_alerts_prefix(rows, 4);
                assert(row_warnings(rows)[w.len() - 1] == w[w.len() - 1]);
                assert(row_recommendations(rows)[c.len() - 1] == c[c.len() - 1]);
            }
        },
        None => {},
    }
}

/// A quick check is the beginning of a deep one on the same readings: the
/// same metrics, warnings and recommendations, in the same order.
pub proof fn law_quick_check_begins_deep_check(p: HealthProbes, quick: HealthReport, deep: HealthReport)
    requires
        metric_views(quick.metrics@) == row_metrics(health_rows(RunMode::Quick, p)),
        texts(quick.warnings@) == row_warnings(health_rows(RunMode::Quick, p)),
        texts(quick.recommendations@) == row_recommendations(health_rows(RunMode::Quick, p)),
        metric_views(deep.metrics@) == row_metrics(health_rows(RunMode::Deep, p)),
        texts(deep.warnings@) == row_warnings(health_rows(RunMode::Deep, p)),
        texts(deep.recommendations@) == row_recommendations(health_rows(RunMode::Deep, p)),
    ensures
        quick.metrics@.len() <= deep.metrics@.len(),
        metric_views(quick.metrics@) == metric_views(deep.metrics@).subrange(0, quick.metrics@.len() as int),
        texts(quick.warnings@) == texts(deep.warnings@).subrange(0, quick.warnings@.len() as int),
        texts(quick.recommendations@) == texts(deep.recommendations@).subrange(
            0,
            quick.recommendations@.len() as int,
        ),
{
    let q = health_rows(RunMode::Quick, p);
    let d = health_rows(RunMode::Deep, p);
    assert(q.len() <= d.len());
    assert(d.subrange(0, q.len() as int) =~= q);
    lemma_row_alerts_prefix(d, q.len() as int);
    assert(metric_views(quick.metrics@).len() == quick.metrics@.len());
    assert(metric_views(deep.metrics@).len() == deep.metrics@.len());
    assert(row_metrics(q) =~= row_metrics(d).subrange(0, q.len() as int));
    assert(texts(quick.warnings@).len() == quick.warnings@.len());
    assert(texts(quick.recommendations@).len() == quick.recommendations@.len());
}

} // verus!
