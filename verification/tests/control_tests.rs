use pc_health_cleaner::control::{
    join_roots, root_preset_places, split_trimmed, CleanerApp, DuplicateSort, RootPlace,
};
use pc_health_cleaner::models::{
    AppConfig, CleanupMode, CleanupResult, DuplicateGroup, HealthMetric, HealthReport,
    HistoryEntry, LeftoverHit, RunMode, ScanSummary,
};

fn s(v: &[&str]) -> Vec<String> {
    v.iter().map(|x| x.to_string()).collect()
}

fn app(roots: &str) -> CleanerApp {
    CleanerApp::new(roots.to_string(), AppConfig::default(), Vec::new())
}

fn group(total: u64, files: &[&str]) -> DuplicateGroup {
    DuplicateGroup { hash: format!("h{}", total), total_bytes: total, files: s(files) }
}

fn hit(category: &str, path: &str) -> LeftoverHit {
    LeftoverHit { category: category.to_string(), path: path.to_string(), reason: "why".to_string() }
}

fn summary() -> ScanSummary {
    ScanSummary {
        roots_scanned: s(&["C:/"]),
        files_seen: 9,
        duplicate_groups: vec![
            group(10, &["C:/b/1", "C:/b/2", "C:/b/3"]),
            group(30, &["C:/a/1", "C:/a/2"]),
        ],
        duplicate_waste_bytes: 35,
        leftovers: vec![
            hit("Extraction Leftover", "C:/x/extract/f"),
            hit("Installer Leftover", "C:/d/setup.exe"),
            hit("Temporary/Backup Leftover", "C:/d/a.tmp"),
        ],
        extension_breakdown: Vec::new(),
    }
}

fn report(score: u8) -> HealthReport {
    HealthReport {
        generated_at: "t".to_string(),
        overall_score: score,
        metrics: vec![HealthMetric { name: "m".to_string(), score, details: String::new() }],
        warnings: Vec::new(),
        recommendations: Vec::new(),
    }
}

#[test]
fn a_new_panel_starts_idle() {
    let a = app("C:/x");
    assert_eq!(a.status, "Ready. Run Deep Health and Scan to activate the full toolkit.");
    assert_eq!(a.export_file_name, "nexus_report.json");
    assert_eq!(a.cleanup_mode, CleanupMode::Quarantine);
    assert_eq!(a.duplicate_sort, DuplicateSort::Waste);
    assert!(a.scan_summary.is_none());
    assert!(a.health_report.is_none());
}

#[test]
fn roots_are_split_trimmed_and_nonempty() {
    let a = app(" C:/Users/you/Desktop ;C:/Users/you/Downloads;; \t;D:/data");
    assert_eq!(a.parse_roots(), s(&["C:/Users/you/Desktop", "C:/Users/you/Downloads", "D:/data"]));
    assert!(app("").parse_roots().is_empty());
    assert!(app(" ; ;").parse_roots().is_empty());
    for r in app("a ; b;c ").parse_roots() {
        assert!(!r.is_empty());
        assert_eq!(r.trim(), r);
        assert!(!r.contains(';'));
    }
}

#[test]
fn a_scan_needs_roots() {
    let mut a = app("");
    assert!(!a.begin_clean_scan(&Vec::new()));
    assert_eq!(a.status, "No valid roots found. Use semicolon-separated folder paths.");
    assert!(a.begin_clean_scan(&s(&["C:/"])));
    assert_eq!(a.status, "Running duplicate + leftover scan...");
}

#[test]
fn finished_scans_and_checks_are_recorded() {
    let mut a = app("C:/");
    let e = a.finish_clean_scan(summary());
    assert_eq!(a.status, "Scan complete. Cleaner intelligence updated.");
    assert_eq!(e.duplicate_groups, 2);
    assert_eq!(e.leftover_hits, 3);
    assert_eq!(e.duplicate_waste_bytes, 35);
    assert_eq!(e.overall_health, None);
    assert_eq!(a.history.len(), 1);
    a.begin_health(RunMode::Deep);
    assert_eq!(a.status, "Running deep extensive health check...");
    a.begin_health(RunMode::Quick);
    assert_eq!(a.status, "Running quick health check...");
    let e = a.finish_health(report(77));
    assert_eq!(a.status, "Health check complete.");
    assert_eq!(e.overall_health, Some(77));
    assert_eq!(e.duplicate_groups, 2);
    assert_eq!(a.history.len(), 2);
    assert_eq!(a.history[1].overall_health, Some(77));
    assert!(!a.history[1].timestamp.is_empty());
}

#[test]
fn schedule_decisions() {
    let mut a = app("C:/");
    assert!(!a.schedule_due(Some(1000)));
    assert_eq!(a.status, "Schedule is disabled.");
    a.config.schedule_enabled = true;
    a.config.schedule_minutes = 60;
    assert!(a.schedule_due(None));
    a.config.last_scheduled_run = Some("2024-01-01T00:00:00+00:00".to_string());
    assert!(!a.schedule_due(Some(59)));
    assert_eq!(a.status, "Scheduled run is not due yet.");
    assert!(a.schedule_due(Some(60)));
    assert!(a.schedule_due(None));
    a.finish_scheduled_run();
    assert_eq!(a.status, "Scheduled deep run completed.");
    assert!(a.config.last_scheduled_run.is_some());
    assert_ne!(a.config.last_scheduled_run, Some("2024-01-01T00:00:00+00:00".to_string()));
}

#[test]
fn one_click_cleanup_needs_a_scan_and_confirmation() {
    let mut a = app("C:/");
    assert!(a.prepare_one_click_cleanup(&Vec::new()).is_none());
    assert_eq!(a.status, "Run scan before cleanup.");
    a.scan_summary = Some(summary());
    a.cleanup_mode = CleanupMode::Delete;
    a.destructive_phrase = "confirm".to_string();
    assert!(a.prepare_one_click_cleanup(&vec![true; 8]).is_none());
    assert_eq!(a.status, "Type CONFIRM to allow Delete/Secure Delete modes.");
    a.destructive_phrase = "  CONFIRM ".to_string();
    a.status = "before".to_string();
    let picked = a.prepare_one_click_cleanup(&vec![true; 8]).unwrap();
    assert_eq!(picked, s(&["C:/b/2", "C:/b/3", "C:/a/2", "C:/x/extract/f", "C:/d/setup.exe", "C:/d/a.tmp"]));
    assert_eq!(a.status, "before");
    assert!(a.prepare_one_click_cleanup(&vec![false; 8]).is_none());
    assert_eq!(a.status, "No cleanup candidates after ignore filters.");
}

#[test]
fn cleanup_preview_and_limits() {
    let mut a = app("C:/");
    assert_eq!(a.cleanup_preview_count(&vec![true; 8]), 0);
    a.scan_summary = Some(summary());
    a.config.auto_cleanup_limit = 4;
    assert_eq!(a.cleanup_preview_count(&vec![true; 8]), 4);
    assert_eq!(a.restore_recent_limit(), 4);
    a.config.auto_cleanup_limit = 80;
    assert_eq!(a.restore_recent_limit(), 50);
}

#[test]
fn status_lines_after_batches() {
    let mut a = app("C:/");
    let r = CleanupResult { moved: 3, restored: 2, deleted: 1, failed: 0, logs: Vec::new() };
    a.finish_one_click_cleanup(&r);
    assert_eq!(a.status, "Cleanup complete. moved:3 deleted:1 failed:0");
    a.finish_restore_recent(&r);
    assert_eq!(a.status, "Restore complete. restored:2 failed:0");
    a.finish_restore_selected(&r);
    assert_eq!(a.status, "Selected restore done. restored:2 failed:0");
}

#[test]
fn history_can_be_cleared() {
    let mut a = CleanerApp::new("C:/".to_string(), AppConfig::default(), vec![HistoryEntry::default()]);
    a.clear_history();
    assert!(a.history.is_empty());
    assert_eq!(a.status, "History cleared.");
}

fn rows(a: &CleanerApp) -> Vec<(String, String, u8)> {
    a.filtered_candidates().into_iter().map(|r| (r.path, r.source, r.risk)).collect()
}

#[test]
fn candidate_list_follows_the_chosen_sort() {
    let mut a = app("C:/");
    assert!(a.filtered_candidates().is_empty());
    a.scan_summary = Some(summary());
    let dup = "Duplicate".to_string();
    assert_eq!(
        rows(&a),
        vec![
            ("C:/a/2".to_string(), dup.clone(), 45),
            ("C:/b/2".to_string(), dup.clone(), 45),
            ("C:/b/3".to_string(), dup.clone(), 45),
            ("C:/x/extract/f".to_string(), "Extraction Leftover".to_string(), 62),
            ("C:/d/setup.exe".to_string(), "Installer Leftover".to_string(), 57),
            ("C:/d/a.tmp".to_string(), "Temporary/Backup Leftover".to_string(), 49),
        ]
    );
    a.duplicate_sort = DuplicateSort::Copies;
    assert_eq!(rows(&a)[0].0, "C:/b/2");
    a.duplicate_sort = DuplicateSort::Path;
    assert_eq!(rows(&a)[0].0, "C:/a/2");
    a.candidate_filter = "SETUP".to_string();
    assert_eq!(rows(&a), vec![("C:/d/setup.exe".to_string(), "Installer Leftover".to_string(), 57)]);
    let r = &a.filtered_candidates()[0];
    assert_eq!(r.reason, "why");
}

#[test]
fn a_filter_keeps_exactly_the_matching_rows_in_order() {
    let mut a = app("C:/");
    a.scan_summary = Some(summary());
    let all = rows(&a);
    a.candidate_filter = "/B/".to_string();
    let kept: Vec<_> = all
        .iter()
        .filter(|r| r.0.to_ascii_lowercase().contains("/b/"))
        .cloned()
        .collect();
    assert_eq!(rows(&a), kept);
    assert_eq!(kept.len(), 2);
}

#[test]
fn clearing_history_leaves_the_rest_alone() {
    let mut a = CleanerApp::new("C:/".to_string(), AppConfig::default(), vec![HistoryEntry::default()]);
    a.notes = "keep me".to_string();
    a.candidate_filter = "x".to_string();
    a.clear_history();
    assert_eq!(a.notes, "keep me");
    assert_eq!(a.candidate_filter, "x");
    assert_eq!(a.scan_roots_input, "C:/");
}

#[test]
fn snapshot_delta_compares_the_last_two_entries() {
    let mut a = app("C:/");
    assert!(a.snapshot_delta().is_none());
    let mut e1 = HistoryEntry::default();
    e1.duplicate_groups = 5;
    e1.leftover_hits = 2;
    e1.duplicate_waste_bytes = 100;
    let mut e2 = HistoryEntry::default();
    e2.duplicate_groups = 3;
    e2.leftover_hits = 7;
    e2.duplicate_waste_bytes = 40;
    a.history = vec![HistoryEntry::default(), e1, e2];
    assert_eq!(a.snapshot_delta(), Some((-2, 5, 100, 40)));
}

#[test]
fn comma_lists_split_like_the_roots() {
    assert_eq!(split_trimmed(" .sys, .DLL ,,", ','), s(&[".sys", ".DLL"]));
    assert!(split_trimmed("", ',').is_empty());
}

#[test]
fn presets_name_their_folders() {
    let h = |n: &str| RootPlace::HomeFolder(n.to_string());
    assert_eq!(root_preset_places(0), vec![h("Desktop"), h("Downloads"), h("Documents")]);
    assert_eq!(root_preset_places(1), vec![h("Downloads")]);
    assert_eq!(root_preset_places(2), vec![h("Desktop")]);
    assert_eq!(root_preset_places(3), vec![h("Documents")]);
    assert_eq!(root_preset_places(4), vec![RootPlace::TempFolder]);
    assert_eq!(root_preset_places(5), vec![h("Videos"), h("Pictures")]);
    assert_eq!(root_preset_places(9), root_preset_places(0));
}

#[test]
fn applying_preset_roots() {
    assert_eq!(join_roots(&s(&["C:/a", "D:/b", "E:/c"])), "C:/a; D:/b; E:/c");
    assert_eq!(join_roots(&s(&["C:/a"])), "C:/a");
    assert_eq!(join_roots(&Vec::new()), "");
    let mut a = app("old");
    a.apply_root_values(&Vec::new());
    assert_eq!(a.scan_roots_input, "old");
    assert_eq!(a.status, "Ready. Run Deep Health and Scan to activate the full toolkit.");
    a.apply_root_values(&s(&["C:/x", "C:/y"]));
    assert_eq!(a.scan_roots_input, "C:/x; C:/y");
    assert_eq!(a.status, "Root preset applied.");
    assert_eq!(a.parse_roots(), s(&["C:/x", "C:/y"]));
}

#[test]
fn quarantine_selection_stays_in_range() {
    let mut a = app("C:/");
    a.selected_quarantine_idx = 7;
    a.clamp_quarantine_selection(0);
    assert_eq!(a.selected_quarantine_idx, 7);
    a.clamp_quarantine_selection(3);
    assert_eq!(a.selected_quarantine_idx, 2);
    a.clamp_quarantine_selection(5);
    assert_eq!(a.selected_quarantine_idx, 2);
}

#[test]
fn recent_history_is_newest_first() {
    let mut a = app("C:/");
    a.history = (0..5)
        .map(|i| {
            let mut e = HistoryEntry::default();
            e.leftover_hits = i;
            e
        })
        .collect();
    let tail: Vec<usize> = a.recent_history(3).iter().map(|e| e.leftover_hits).collect();
    assert_eq!(tail, vec![4, 3, 2]);
    assert_eq!(a.recent_history(20).len(), 5);
}

#[test]
fn snapshot_delta_wraps_like_integer_casts() {
    let mut a = app("C:/");
    let mut e1 = HistoryEntry::default();
    e1.duplicate_groups = usize::MAX;
    let e2 = HistoryEntry::default();
    a.history = vec![e1, e2];
    assert_eq!(a.snapshot_delta(), Some((1, 0, 0, 0)));
}

#[test]
fn history_snapshots_record_the_current_counters() {
    let mut a = app("C:/");
    let e = a.record_history();
    assert_eq!(e.overall_health, None);
    assert_eq!(e.duplicate_groups, 0);
    a.scan_summary = Some(summary());
    a.health_report = Some(report(88));
    let e = a.record_history();
    assert_eq!(e.overall_health, Some(88));
    assert_eq!(e.leftover_hits, 3);
    assert_eq!(e.duplicate_waste_bytes, 35);
    assert_eq!(a.history.len(), 2);
    assert_eq!(a.history[1].timestamp, e.timestamp);
    assert_eq!(a.status, "Ready. Run Deep Health and Scan to activate the full toolkit.");
}
