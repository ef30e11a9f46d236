use pc_health_cleaner::cleanup::{
    unrestored_entries, apply_restore_outcomes, missing_item_result, quarantine_target, restore_plan,
    cleanup_outcome, quarantine_targets, sanitize_for_fs, tally_cleanup, unique_quarantine_target, unrestored_at,
    CleanupOutcome, RestoreOutcome,
};
use pc_health_cleaner::models::{CleanupMode, HistoryEntry, QuarantineEntry};
use pc_health_cleaner::storage::{
    app_data_dir, config_file, history_file, push_history_capped, quarantine_dir,
    quarantine_index_file, updates_dir, HISTORY_CAP,
};

fn entry(original: &str, restored: bool) -> QuarantineEntry {
    QuarantineEntry {
        original_path: original.to_string(),
        quarantined_path: format!("Q/{}", original.replace('/', "_")),
        timestamp: "2024-01-01T00:00:00+00:00".to_string(),
        restored,
    }
}

#[test]
fn sanitize_drops_colons_and_flattens_separators() {
    assert_eq!(sanitize_for_fs("C:\\Users\\me/file.txt"), "C_Users_me_file.txt");
    assert_eq!(sanitize_for_fs(""), "");
    assert_eq!(sanitize_for_fs("plain.txt"), "plain.txt");
}

#[test]
fn quarantine_target_joins_stamp_and_flat_name() {
    assert_eq!(
        quarantine_target("Q", "20240101_120000", "C:/a/b.txt", 0),
        "Q/20240101_120000_C_a_b.txt"
    );
    assert_eq!(
        quarantine_target("Q/", "20240101_120000", "C:\\x.bin", 0),
        "Q/20240101_120000_C_x.bin"
    );
}

#[test]
fn later_quarantine_candidates_carry_a_counter() {
    assert_eq!(
        quarantine_target("Q", "20240101_120000", "C:/a/b.txt", 2),
        "Q/20240101_120000_C_a_b.txt_2"
    );
    assert_eq!(
        quarantine_target("Q", "20240101_120000", "C:/a/b.txt", 10),
        "Q/20240101_120000_C_a_b.txt_10"
    );
}

fn split_stamp(t: &str, tail: &str) -> String {
    assert!(t.starts_with("Q/"));
    assert!(t.ends_with(tail), "{} does not end with {}", t, tail);
    t[2..t.len() - tail.len()].to_string()
}

fn is_compact_stamp(stamp: &str) -> bool {
    stamp.len() == 15
        && &stamp[8..9] == "_"
        && stamp.chars().enumerate().all(|(i, c)| i == 8 || c.is_ascii_digit())
}

#[test]
fn unique_quarantine_target_uses_a_compact_stamp() {
    let t = unique_quarantine_target("Q", "C:/dir/file.txt", &Vec::new());
    let stamp = split_stamp(&t, "_C_dir_file.txt");
    assert!(is_compact_stamp(&stamp));
}

#[test]
fn unique_quarantine_target_skips_destinations_in_use() {
    let first = unique_quarantine_target("Q", "C:/dir/file.txt", &Vec::new());
    let stamp = split_stamp(&first, "_C_dir_file.txt");
    let taken = vec![
        first.clone(),
        quarantine_target("Q", &stamp, "C:/dir/file.txt", 1),
    ];
    let t = unique_quarantine_target("Q", "C:/dir/file.txt", &taken);
    assert!(!taken.contains(&t));
    if t.ends_with("_C_dir_file.txt_2") {
        assert_eq!(split_stamp(&t, "_C_dir_file.txt_2"), stamp);
    } else {
        // the clock moved on to another second between the two calls
        let later = split_stamp(&t, "_C_dir_file.txt");
        assert!(is_compact_stamp(&later));
        assert_ne!(later, stamp);
    }
}

#[test]
fn paths_that_flatten_alike_get_distinct_targets() {
    let paths = vec!["x/y_z".to_string(), "x_y/z".to_string()];
    let targets = quarantine_targets("Q", &paths, &Vec::new());
    assert_eq!(targets.len(), 2);
    assert_ne!(targets[0], targets[1]);
    assert!(split_stamp(&targets[0], "_x_y_z").len() == 15);
    let second_plain = targets[1].ends_with("_x_y_z");
    let second_counted = targets[1].ends_with("_x_y_z_1");
    assert!(second_plain || second_counted);
}

#[test]
fn quarantine_targets_avoid_taken_destinations() {
    let paths = vec!["a/b".to_string()];
    let probe = quarantine_targets("Q", &paths, &Vec::new());
    let targets = quarantine_targets("Q", &paths, &probe);
    assert_eq!(targets.len(), 1);
    assert_ne!(targets[0], probe[0]);
    assert!(quarantine_targets("Q", &Vec::new(), &probe).is_empty());
}

#[test]
fn outcomes_follow_existence_and_success() {
    let q = CleanupMode::Quarantine;
    let t = || "Q/t".to_string();
    let ts = || "now".to_string();
    assert!(matches!(cleanup_outcome(q, false, false, t(), ts()), CleanupOutcome::Missing));
    assert!(matches!(cleanup_outcome(q, true, false, t(), ts()), CleanupOutcome::Failed));
    match cleanup_outcome(q, true, true, t(), ts()) {
        CleanupOutcome::Quarantined { target, timestamp } => {
            assert_eq!(target, "Q/t");
            assert_eq!(timestamp, "now");
        }
        _ => panic!("expected a quarantine move"),
    }
    assert!(matches!(
        cleanup_outcome(CleanupMode::SecureDelete, true, true, t(), ts()),
        CleanupOutcome::Deleted
    ));
    assert!(matches!(cleanup_outcome(CleanupMode::Delete, true, false, t(), ts()), CleanupOutcome::Failed));
}

#[test]
fn data_locations_sit_under_the_data_root() {
    let root = "C:/Users/me/AppData/Roaming";
    assert_eq!(app_data_dir(root), "C:/Users/me/AppData/Roaming/NexusPcCleaner");
    assert_eq!(quarantine_dir(root), "C:/Users/me/AppData/Roaming/NexusPcCleaner/quarantine");
    assert_eq!(config_file(root), "C:/Users/me/AppData/Roaming/NexusPcCleaner/config.json");
    assert_eq!(history_file(root), "C:/Users/me/AppData/Roaming/NexusPcCleaner/history.json");
    assert_eq!(
        quarantine_index_file(root),
        "C:/Users/me/AppData/Roaming/NexusPcCleaner/quarantine_index.json"
    );
    assert_eq!(updates_dir("C:\\Temp\\"), "C:\\Temp\\NexusPcCleaner\\updates");
    let win = "C:\\Users\\me\\AppData\\Roaming";
    assert_eq!(quarantine_dir(win), "C:\\Users\\me\\AppData\\Roaming\\NexusPcCleaner\\quarantine");
    assert_eq!(
        quarantine_target(&quarantine_dir(win), "20240101_120000", "C:\\a\\b.txt", 0),
        "C:\\Users\\me\\AppData\\Roaming\\NexusPcCleaner\\quarantine\\20240101_120000_C_a_b.txt"
    );
}

#[test]
fn history_keeps_the_newest_entries() {
    let mut items: Vec<HistoryEntry> = Vec::new();
    for i in 0..(HISTORY_CAP + 5) {
        let mut e = HistoryEntry::default();
        e.duplicate_groups = i;
        push_history_capped(&mut items, e);
        assert!(items.len() <= HISTORY_CAP);
        assert_eq!(items.last().unwrap().duplicate_groups, i);
    }
    assert_eq!(items.len(), HISTORY_CAP);
    assert_eq!(items[0].duplicate_groups, 5);
    assert_eq!(items[HISTORY_CAP - 1].duplicate_groups, HISTORY_CAP + 4);
}

#[test]
fn history_below_the_cap_drops_nothing() {
    let mut items: Vec<HistoryEntry> = Vec::new();
    for i in 0..3 {
        let mut e = HistoryEntry::default();
        e.leftover_hits = i;
        push_history_capped(&mut items, e);
    }
    let hits: Vec<usize> = items.iter().map(|e| e.leftover_hits).collect();
    assert_eq!(hits, vec![0, 1, 2]);
}

#[test]
fn cleanup_batch_counts_and_indexes_each_path() {
    let paths = vec![
        "C:/a.tmp".to_string(),
        "C:/b.tmp".to_string(),
        "C:/c.tmp".to_string(),
        "C:/d.tmp".to_string(),
        "C:/e.tmp".to_string(),
    ];
    let outcomes = vec![
        CleanupOutcome::Quarantined { target: "Q/1_C_a.tmp".to_string(), timestamp: "t1".to_string() },
        CleanupOutcome::Failed,
        CleanupOutcome::Missing,
        CleanupOutcome::Deleted,
    ];
    let mut index = vec![entry("C:/old.bin", true)];
    let r = tally_cleanup(&paths, CleanupMode::Quarantine, &outcomes, &mut index);
    assert_eq!(r.moved, 1);
    assert_eq!(r.failed, 1);
    assert_eq!(r.deleted, 1);
    assert_eq!(r.restored, 0);
    assert_eq!(r.logs, vec!["Failed to quarantine C:/b.tmp".to_string()]);
    assert_eq!(index.len(), 2);
    assert_eq!(index[0].original_path, "C:/old.bin");
    assert_eq!(index[1].original_path, "C:/a.tmp");
    assert_eq!(index[1].quarantined_path, "Q/1_C_a.tmp");
    assert_eq!(index[1].timestamp, "t1");
    assert!(!index[1].restored);
}

#[test]
fn cleanup_failure_lines_name_the_mode() {
    let paths = vec!["C:/x".to_string()];
    let outcomes = vec![CleanupOutcome::Failed];
    let mut index = Vec::new();
    let r = tally_cleanup(&paths, CleanupMode::Delete, &outcomes, &mut index);
    assert_eq!(r.logs, vec!["Failed to delete C:/x".to_string()]);
    let r = tally_cleanup(&paths, CleanupMode::SecureDelete, &outcomes, &mut index);
    assert_eq!(r.logs, vec!["Failed secure delete C:/x".to_string()]);
    assert!(index.is_empty());
}

#[test]
fn restore_plan_takes_newest_unrestored_first() {
    let index = vec![
        entry("C:/0", false),
        entry("C:/1", true),
        entry("C:/2", false),
        entry("C:/3", false),
        entry("C:/4", true),
    ];
    assert_eq!(restore_plan(&index, 10), vec![3, 2, 0]);
    assert_eq!(restore_plan(&index, 2), vec![3, 2]);
    assert_eq!(restore_plan(&index, 0), Vec::<usize>::new());
    assert_eq!(unrestored_at(&index, 0), Some(0));
    assert_eq!(unrestored_at(&index, 1), Some(2));
    assert_eq!(unrestored_at(&index, 2), Some(3));
    assert_eq!(unrestored_at(&index, 3), None);
}

#[test]
fn restore_outcomes_mark_entries_and_count() {
    let mut index = vec![entry("C:/0", false), entry("C:/1", false), entry("C:/2", false)];
    let plan = vec![2, 1, 0];
    let outcomes = vec![RestoreOutcome::Restored, RestoreOutcome::Failed, RestoreOutcome::Vanished];
    let r = apply_restore_outcomes(&mut index, &plan, &outcomes);
    assert_eq!(r.restored, 1);
    assert_eq!(r.failed, 1);
    assert_eq!(r.moved, 0);
    assert_eq!(r.logs, vec!["Failed restore C:/1".to_string()]);
    assert!(index[2].restored);
    assert!(!index[1].restored);
    assert!(index[0].restored);
    assert_eq!(index[1].original_path, "C:/1");
    assert_eq!(restore_plan(&index, 10), vec![1]);
}

#[test]
fn restore_ignores_steps_without_outcome_or_outside_the_index() {
    let mut index = vec![entry("C:/0", false)];
    let plan = vec![7, 0];
    let outcomes = vec![RestoreOutcome::Restored];
    let r = apply_restore_outcomes(&mut index, &plan, &outcomes);
    assert_eq!(r.restored, 0);
    assert_eq!(r.failed, 0);
    assert!(!index[0].restored);
}

#[test]
fn quarantined_entries_become_restorable() {
    let mut index = vec![entry("C:/old", false)];
    let paths = vec!["C:/new.tmp".to_string()];
    let outcomes = vec![CleanupOutcome::Quarantined { target: "Q/n".to_string(), timestamp: "t".to_string() }];
    tally_cleanup(&paths, CleanupMode::Quarantine, &outcomes, &mut index);
    assert_eq!(restore_plan(&index, 1), vec![1]);
}

#[test]
fn missing_item_result_reports_one_failure() {
    let r = missing_item_result();
    assert_eq!(r.failed, 1);
    assert_eq!(r.restored, 0);
    assert_eq!(r.logs, vec!["No quarantine item at requested index".to_string()]);
}

#[test]
fn the_browser_lists_pending_items_oldest_first() {
    let index = vec![entry("C:/0", false), entry("C:/1", true), entry("C:/2", false)];
    assert_eq!(unrestored_entries(&index), vec![0, 2]);
    assert!(unrestored_entries(&Vec::new()).is_empty());
}

#[test]
fn quarantine_and_restore_round_trip() {
    let mut index = vec![entry("C:/older", false)];
    let paths = vec!["C:/docs/a.txt".to_string()];
    let outcomes = vec![CleanupOutcome::Quarantined {
        target: "Q/20240101_000000_C_docs_a.txt".to_string(),
        timestamp: "t".to_string(),
    }];
    tally_cleanup(&paths, CleanupMode::Quarantine, &outcomes, &mut index);
    let plan = restore_plan(&index, 1);
    assert_eq!(plan, vec![1]);
    let r = apply_restore_outcomes(&mut index, &plan, &vec![RestoreOutcome::Restored]);
    assert_eq!(r.restored, 1);
    assert!(index[1].restored);
    assert_eq!(index[1].original_path, "C:/docs/a.txt");
    assert_eq!(index[1].quarantined_path, "Q/20240101_000000_C_docs_a.txt");
    assert!(!index[0].restored);
}
