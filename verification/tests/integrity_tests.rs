use pc_health_cleaner::integrity::{
    assemble_integrity_report, check_mz_signature, check_pe_offset, check_pe_signature,
    claim_parent, count_shortcuts, count_sibling_clashes, deep_folder_issues, file_issues, integrity_score,
    is_config_ext, is_executable_or_lib, is_orphan_app_dir, is_zip_ext, json_contents_checked, looks_partial_download,
    maybe_json_corrupt, orphan_folder_issue, pe_offset, push_issue, startup_folder_issue,
    zip_probe_count, zip_verdict, FileFacts, MAX_JSON_CHECK_SIZE,
};
use pc_health_cleaner::models::IntegrityIssue;

fn facts(len: u64) -> FileFacts {
    FileFacts {
        metadata: Ok(len),
        pe_header: None,
        zip_archive: None,
        config_parse: None,
        sibling_clashes: None,
    }
}

fn checks(issues: &[IntegrityIssue]) -> Vec<(String, String)> {
    issues.iter().map(|i| (i.check.clone(), i.severity.clone())).collect()
}

#[test]
fn extension_classes() {
    assert!(looks_partial_download("C:/d/file.CRDOWNLOAD"));
    assert!(looks_partial_download("C:/d/a.part"));
    assert!(looks_partial_download("C:/d/a.tmpdl"));
    assert!(!looks_partial_download("C:/d/a.parts"));
    assert!(is_config_ext("C:/app/settings.JSON"));
    assert!(is_config_ext("C:/app/app.config"));
    assert!(is_config_ext("C:/app/x.cfg"));
    assert!(!is_config_ext("C:/app/x.ini"));
    assert!(is_executable_or_lib("C:/app/A.Exe"));
    assert!(is_executable_or_lib("C:/app/b.dll"));
    assert!(!is_executable_or_lib("C:/app/exe"));
    assert!(is_zip_ext("C:/a.ZIP"));
    assert!(!is_zip_ext("C:/a.7z"));
}

#[test]
fn pe_header_checks() {
    assert!(check_mz_signature([0x4d, 0x5a]).is_ok());
    assert_eq!(check_mz_signature([0x5a, 0x4d]), Err("Missing MZ signature".to_string()));
    assert_eq!(pe_offset([0x80, 0x00, 0x00, 0x00]), 0x80);
    assert_eq!(pe_offset([0x01, 0x02, 0x03, 0x04]), 0x04030201);
    assert!(check_pe_offset(0x80, 0x84).is_ok());
    assert_eq!(check_pe_offset(0x81, 0x84), Err("PE offset points outside file".to_string()));
    assert!(check_pe_signature([0x50, 0x45, 0, 0]).is_ok());
    assert_eq!(check_pe_signature([0x50, 0x45, 0, 1]), Err("Invalid PE signature".to_string()));
}

#[test]
fn config_files_are_parsed_as_json() {
    assert!(maybe_json_corrupt(2, b"{}").is_ok());
    assert!(maybe_json_corrupt(14, b"{\"a\": [1, 2]}").is_ok());
    let bad = b"{\"a\": ";
    let expected = serde_json::from_slice::<serde_json::Value>(bad).unwrap_err().to_string();
    assert_eq!(maybe_json_corrupt(6, bad), Err(format!("JSON parse error: {}", expected)));
    assert!(maybe_json_corrupt(MAX_JSON_CHECK_SIZE + 1, bad).is_ok());
}

#[test]
fn only_small_config_files_are_read() {
    assert!(json_contents_checked(0));
    assert!(json_contents_checked(5 * 1024 * 1024));
    assert!(!json_contents_checked(5 * 1024 * 1024 + 1));
}

#[test]
fn zip_verdicts() {
    assert_eq!(zip_probe_count(3), 3);
    assert_eq!(zip_probe_count(9), 5);
    assert_eq!(
        zip_verdict(Err("invalid Zip archive".to_string()), &Vec::new()),
        Err("ZIP index parse failed: invalid Zip archive".to_string())
    );
    assert_eq!(zip_verdict(Ok(0), &Vec::new()), Err("ZIP has no entries".to_string()));
    assert!(zip_verdict(Ok(2), &vec![None, None]).is_ok());
    assert_eq!(
        zip_verdict(Ok(7), &vec![None, Some("bad crc".to_string()), Some("later".to_string())]),
        Err("ZIP entry read failed: bad crc".to_string())
    );
    assert_eq!(zip_verdict(Ok(4), &Vec::new()), Err("ZIP entries unreadable".to_string()));
}

#[test]
fn orphan_folders_have_libraries_but_no_executable() {
    let mut files: Vec<String> = (0..11).map(|i| format!("C:/app/lib{}.dll", i)).collect();
    assert!(is_orphan_app_dir(&files));
    files.push("C:/app/run.EXE".to_string());
    assert!(!is_orphan_app_dir(&files));
    let few: Vec<String> = (0..10).map(|i| format!("C:/app/lib{}.dll", i)).collect();
    assert!(!is_orphan_app_dir(&few));
    let mut issues = Vec::new();
    orphan_folder_issue(&mut issues, "C:/app".to_string());
    assert_eq!(issues[0].check, "Orphan App Folder");
    assert_eq!(issues[0].severity, "warning");
    assert_eq!(issues[0].path, "C:/app");
}

#[test]
fn sibling_clashes_count_repeated_stems_with_other_sizes() {
    let entries = vec![
        Some(("C:/d/tool.exe".to_string(), 100u64)),
        Some(("C:/d/TOOL.old".to_string(), 120)),
        None,
        Some(("C:/d/tool.bak".to_string(), 100)),
        Some(("C:/d/tool.new".to_string(), 90)),
        Some(("C:/d/other.txt".to_string(), 5)),
    ];
    assert_eq!(count_sibling_clashes(&entries), 2);
}

#[test]
fn each_folder_is_claimed_once() {
    let mut claimed = Vec::new();
    assert_eq!(claim_parent(&mut claimed, "C:/d/a.txt"), Some("C:/d".to_string()));
    assert_eq!(claim_parent(&mut claimed, "C:/d/b.txt"), None);
    assert_eq!(claim_parent(&mut claimed, "C:/e/b.txt"), Some("C:/e".to_string()));
    assert_eq!(claim_parent(&mut claimed, "relative.txt"), None);
    assert_eq!(claimed, vec!["C:/d".to_string(), "C:/e".to_string()]);
}

#[test]
fn metadata_failure_is_the_only_issue() {
    let mut issues = Vec::new();
    let f = FileFacts {
        metadata: Err("access denied".to_string()),
        pe_header: Some(Err("x".to_string())),
        zip_archive: None,
        config_parse: None,
        sibling_clashes: None,
    };
    file_issues(&mut issues, "C:/x.exe", &f);
    assert_eq!(issues.len(), 1);
    assert_eq!(issues[0].check, "Metadata Access");
    assert_eq!(issues[0].severity, "critical");
    assert_eq!(issues[0].details, "Metadata read failed: access denied");
}

#[test]
fn file_checks_run_in_order() {
    let mut issues = Vec::new();
    let mut f = facts(0);
    f.pe_header = Some(Err("Missing MZ signature".to_string()));
    file_issues(&mut issues, "C:/app/tiny.exe", &f);
    assert_eq!(
        checks(&issues),
        vec![
            ("Zero-byte File".to_string(), "warning".to_string()),
            ("Tiny Executable/Library".to_string(), "critical".to_string()),
            ("PE Header Corruption".to_string(), "critical".to_string()),
        ]
    );
    assert_eq!(issues[2].details, "Missing MZ signature");

    let mut issues = Vec::new();
    let mut f = facts(10);
    f.zip_archive = Some(Err("ZIP has no entries".to_string()));
    f.sibling_clashes = Some(("C:/dl".to_string(), 5));
    file_issues(&mut issues, "C:/dl/a.zip", &f);
    assert_eq!(
        checks(&issues),
        vec![
            ("ZIP Archive Integrity".to_string(), "warning".to_string()),
            ("Sibling Version Clash".to_string(), "info".to_string()),
        ]
    );
    assert_eq!(issues[1].path, "C:/dl");
    assert_eq!(
        issues[1].details,
        "Found multiple files with same stem and differing sizes (5 clashes)."
    );

    let mut issues = Vec::new();
    let mut f = facts(10);
    f.config_parse = Some(Err("JSON parse error: x".to_string()));
    f.sibling_clashes = Some(("C:/c".to_string(), 4));
    file_issues(&mut issues, "C:/c/s.part", &f);
    assert_eq!(checks(&issues), vec![("Partial Download Artifact".to_string(), "info".to_string())]);
    file_issues(&mut issues, "C:/c/s.json", &f);
    assert_eq!(issues.len(), 2);
    assert_eq!(issues[1].check, "Config Parse Error");
}

#[test]
fn startup_saturation() {
    let files = vec![
        "C:/s/a.lnk".to_string(),
        "C:/s/b.URL".to_string(),
        "C:/s/c.ini".to_string(),
    ];
    assert_eq!(count_shortcuts(&files), 2);
    let mut issues = Vec::new();
    startup_folder_issue(&mut issues, "C:/s", 40);
    assert!(issues.is_empty());
    startup_folder_issue(&mut issues, "C:/s", 41);
    assert_eq!(issues[0].check, "Startup Entry Saturation");
    assert_eq!(issues[0].details, "Startup folder contains 41 shortcut entries.");
}

#[test]
fn integrity_score_penalties() {
    assert_eq!(integrity_score(0, 0, 0), 100);
    assert_eq!(integrity_score(1, 2, 3), 100 - 7 - 6 - 3);
    assert_eq!(integrity_score(13, 0, 3), 6);
    assert_eq!(integrity_score(14, 0, 0), 5);
    assert_eq!(integrity_score(usize::MAX, usize::MAX, usize::MAX), 5);
    assert!(integrity_score(2, 1, 0) <= integrity_score(1, 1, 0));
}

#[test]
fn report_counts_severities() {
    let mut issues = Vec::new();
    push_issue(&mut issues, "A", "critical", "p".to_string(), "d".to_string(), "h");
    push_issue(&mut issues, "B", "warning", "p".to_string(), "d".to_string(), "h");
    push_issue(&mut issues, "C", "warning", "p".to_string(), "d".to_string(), "h");
    push_issue(&mut issues, "D", "info", "p".to_string(), "d".to_string(), "h");
    let rep = assemble_integrity_report("t".to_string(), &vec!["C:/".to_string()], 12, issues, true);
    assert_eq!(rep.critical_count, 1);
    assert_eq!(rep.warning_count, 2);
    assert_eq!(rep.info_count, 1);
    assert_eq!(rep.integrity_score, 100 - 7 - 6 - 1);
    assert_eq!(rep.check_count, 12);
    assert_eq!(rep.files_scanned, 12);
    let rep = assemble_integrity_report("t".to_string(), &Vec::new(), 0, Vec::new(), false);
    assert_eq!(rep.check_count, 9);
    assert_eq!(rep.integrity_score, 100);
}

#[test]
fn folder_checks_run_only_in_deep_mode() {
    let orphans = vec!["C:/Program Files/Old".to_string()];
    let many: Vec<String> = (0..41).map(|i| format!("C:/S/app{}.lnk", i)).collect();
    let few = vec!["C:/T/a.lnk".to_string()];
    let folders = vec![("C:/S".to_string(), many), ("C:/T".to_string(), few)];

    let mut quick: Vec<IntegrityIssue> = Vec::new();
    deep_folder_issues(&mut quick, false, &orphans, &folders);
    assert!(quick.is_empty());

    let mut issues: Vec<IntegrityIssue> = Vec::new();
    deep_folder_issues(&mut issues, true, &orphans, &folders);
    assert_eq!(issues.len(), 2);
    assert_eq!(issues[0].check, "Orphan App Folder");
    assert_eq!(issues[0].path, "C:/Program Files/Old");
    assert_eq!(issues[1].check, "Startup Entry Saturation");
    assert_eq!(issues[1].path, "C:/S");
    assert_eq!(issues[1].details, "Startup folder contains 41 shortcut entries.");
}
