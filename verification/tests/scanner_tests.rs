use pc_health_cleaner::models::{DuplicateGroup, LeftoverHit, ScanSummary};
use pc_health_cleaner::scanner::{
    cleanup_candidates, cleanup_sources, detect_leftovers, extension_breakdown, group_duplicates,
    hash_bytes, is_ignored_path, saturating_mul, size_collision_candidates, summarize_scan,
    ContentHasher,
};

fn s(v: &[&str]) -> Vec<String> {
    v.iter().map(|x| x.to_string()).collect()
}

#[test]
fn leftovers_are_found_in_both_passes() {
    let files = s(&[
        "C:/dl/AppSetup.EXE",
        "C:/dl/notes.BAK",
        "C:/work/Extracted_Files/readme.txt",
        "C:/dl/game.zip",
        "C:/dl/Game/GAME.txt",
    ]);
    let hits = detect_leftovers(&files);
    let got: Vec<(String, String, String)> =
        hits.iter().map(|h| (h.category.clone(), h.path.clone(), h.reason.clone())).collect();
    let pair = "Possible extracted copy while archive still exists at C:/dl/game.zip".to_string();
    assert_eq!(
        got,
        vec![
            (
                "Installer Leftover".to_string(),
                "C:/dl/AppSetup.EXE".to_string(),
                "Executable installer likely no longer needed after install".to_string()
            ),
            (
                "Temporary/Backup Leftover".to_string(),
                "C:/dl/notes.BAK".to_string(),
                "Temporary or backup artifact".to_string()
            ),
            (
                "Extraction Leftover".to_string(),
                "C:/work/Extracted_Files/readme.txt".to_string(),
                "File appears inside extraction workspace".to_string()
            ),
            ("Archive + Extracted Pair".to_string(), "C:/dl/game.zip".to_string(), pair.clone()),
            ("Archive + Extracted Pair".to_string(), "C:/dl/Game/GAME.txt".to_string(), pair),
        ]
    );
}

#[test]
fn the_latest_archive_with_a_stem_is_named() {
    let files = s(&["C:/a/pack.rar", "C:/b/PACK.7z", "C:/c/pack"]);
    let hits = detect_leftovers(&files);
    assert_eq!(hits.len(), 3);
    for h in &hits {
        assert_eq!(h.category, "Archive + Extracted Pair");
        assert_eq!(h.reason, "Possible extracted copy while archive still exists at C:/b/PACK.7z");
    }
}

#[test]
fn plain_files_are_not_leftovers() {
    let files = s(&["C:/docs/report.pdf", "C:/docs/setup.txt", "C:/docs/x.exe"]);
    assert!(detect_leftovers(&files).is_empty());
}

#[test]
fn leftover_hits_name_scanned_files() {
    let files = s(&["C:/x/unpack/a.tmp", "C:/x/b.old", "C:/y/z.iso", "C:/y/z.txt"]);
    let hits = detect_leftovers(&files);
    assert!(hits.len() <= 4 * files.len());
    for h in &hits {
        assert!(files.contains(&h.path));
    }
}

#[test]
fn extension_breakdown_counts_most_frequent_first() {
    let files = s(&["a/x.TXT", "b/y.txt", "c/z.rs", "d/noext", "e/.hidden"]);
    let out = extension_breakdown(&files);
    assert_eq!(
        out,
        vec![(".txt".to_string(), 2), ("[no-ext]".to_string(), 2), (".rs".to_string(), 1)]
    );
    let total: usize = out.iter().map(|(_, n)| *n).sum();
    assert_eq!(total, files.len());
}

#[test]
fn only_shared_sizes_are_hashed() {
    let sized = vec![
        ("a".to_string(), 10u64),
        ("b".to_string(), 20),
        ("c".to_string(), 10),
        ("d".to_string(), 30),
        ("e".to_string(), 10),
        ("f".to_string(), 30),
    ];
    assert_eq!(size_collision_candidates(&sized), s(&["a", "c", "d", "e", "f"]));
    assert!(size_collision_candidates(&vec![("x".to_string(), 1u64)]).is_empty());
}

fn hashed() -> Vec<(String, String, u64)> {
    vec![
        ("h1".to_string(), "C:/b/x.bin".to_string(), 100),
        ("h2".to_string(), "C:/a/y.bin".to_string(), 50),
        ("h1".to_string(), "C:/a/x.bin".to_string(), 100),
        ("h3".to_string(), "C:/z".to_string(), 7),
        ("h2".to_string(), "C:/c/y.bin".to_string(), 50),
        ("h2".to_string(), "C:/b/y.bin".to_string(), 50),
    ]
}

#[test]
fn duplicates_group_by_hash_largest_total_first() {
    let (groups, waste) = group_duplicates(&hashed());
    assert_eq!(groups.len(), 2);
    assert_eq!(groups[0].hash, "h1");
    assert_eq!(groups[0].total_bytes, 200);
    assert_eq!(groups[0].files, s(&["C:/a/x.bin", "C:/b/x.bin"]));
    assert_eq!(groups[1].hash, "h2");
    assert_eq!(groups[1].total_bytes, 150);
    assert_eq!(groups[1].files, s(&["C:/a/y.bin", "C:/b/y.bin", "C:/c/y.bin"]));
    assert_eq!(waste, 100 + 2 * 50);
    for g in &groups {
        assert!(g.files.len() >= 2);
    }
}

#[test]
fn group_files_sort_by_path_components() {
    let h = vec![
        ("k".to_string(), "C:/ab/f".to_string(), 1u64),
        ("k".to_string(), "C:/a/f".to_string(), 1),
        ("k".to_string(), "C:/a-b/f".to_string(), 1),
    ];
    let (groups, waste) = group_duplicates(&h);
    assert_eq!(groups.len(), 1);
    assert_eq!(groups[0].files, s(&["C:/a/f", "C:/a-b/f", "C:/ab/f"]));
    assert_eq!(waste, 2);
}

#[test]
fn no_duplicates_without_shared_hashes() {
    let h = vec![("a".to_string(), "p".to_string(), 5u64), ("b".to_string(), "q".to_string(), 5)];
    let (groups, waste) = group_duplicates(&h);
    assert!(groups.is_empty());
    assert_eq!(waste, 0);
}

#[test]
fn a_file_listed_twice_is_not_its_own_duplicate() {
    let sized = vec![("C:/a".to_string(), 10u64), ("C:/a".to_string(), 10)];
    assert!(size_collision_candidates(&sized).is_empty());
    let sized = vec![
        ("C:/a".to_string(), 10u64),
        ("C:/b".to_string(), 10),
        ("C:/a".to_string(), 10),
    ];
    assert_eq!(size_collision_candidates(&sized), s(&["C:/a", "C:/b"]));

    let h = vec![
        ("h".to_string(), "C:/a".to_string(), 5u64),
        ("h".to_string(), "C:/a".to_string(), 5),
    ];
    let (groups, waste) = group_duplicates(&h);
    assert!(groups.is_empty());
    assert_eq!(waste, 0);

    let h = vec![
        ("h".to_string(), "C:/a".to_string(), 5u64),
        ("h".to_string(), "C:/b".to_string(), 5),
        ("h".to_string(), "C:/a".to_string(), 5),
    ];
    let (groups, waste) = group_duplicates(&h);
    assert_eq!(groups.len(), 1);
    assert_eq!(groups[0].files, s(&["C:/a", "C:/b"]));
    assert_eq!(groups[0].total_bytes, 10);
    assert_eq!(waste, 5);
}

#[test]
fn nested_roots_do_not_offer_the_only_copy() {
    let roots = s(&["C:/a", "C:/a/sub"]);
    let files = s(&["C:/a/sub/x.bin", "C:/a/sub/x.bin"]);
    let h = vec![
        ("h".to_string(), "C:/a/sub/x.bin".to_string(), 9u64),
        ("h".to_string(), "C:/a/sub/x.bin".to_string(), 9),
    ];
    let summary = summarize_scan(&roots, &files, &h);
    assert!(summary.duplicate_groups.is_empty());
    assert_eq!(summary.duplicate_waste_bytes, 0);
}

#[test]
fn waste_saturates_per_group() {
    assert_eq!(saturating_mul(u64::MAX, 2), u64::MAX);
    assert_eq!(saturating_mul(3, 4), 12);
    let big = u64::MAX / 2 + 1;
    let h = vec![
        ("k".to_string(), "a".to_string(), big),
        ("k".to_string(), "b".to_string(), big),
        ("k".to_string(), "c".to_string(), big),
    ];
    let (groups, waste) = group_duplicates(&h);
    assert_eq!(groups[0].total_bytes, u64::MAX);
    assert_eq!(waste, u64::MAX);
}

#[test]
fn summary_assembles_all_findings() {
    let roots = s(&["C:/a", "C:/b"]);
    let files = s(&["C:/a/x.bin", "C:/b/x.bin", "C:/a/setup.exe"]);
    let h = vec![
        ("h".to_string(), "C:/b/x.bin".to_string(), 9u64),
        ("h".to_string(), "C:/a/x.bin".to_string(), 9),
    ];
    let summary = summarize_scan(&roots, &files, &h);
    assert_eq!(summary.roots_scanned, roots);
    assert_eq!(summary.files_seen, 3);
    assert_eq!(summary.duplicate_groups.len(), 1);
    assert_eq!(summary.duplicate_waste_bytes, 9);
    assert_eq!(summary.leftovers.len(), 1);
    assert_eq!(summary.leftovers[0].category, "Installer Leftover");
    assert_eq!(summary.extension_breakdown, vec![(".bin".to_string(), 2), (".exe".to_string(), 1)]);
}

#[test]
fn ignore_rules_match_fragments_and_extensions() {
    let ip = s(&["C:/Windows", "Program Files"]);
    let ie = s(&[".sys", ".dll"]);
    assert!(is_ignored_path("C:/Windows/System32/x.txt", &ip, &ie));
    assert!(is_ignored_path("D:/data/report.DLL", &ip, &ie));
    assert!(is_ignored_path("d:/program files/app/a.txt", &ip, &ie));
    assert!(!is_ignored_path("D:/data/report.txt", &ip, &ie));
    assert!(!is_ignored_path("D:/data/sys", &ip, &ie));
}

fn group(hash: &str, files: &[&str]) -> DuplicateGroup {
    DuplicateGroup { hash: hash.to_string(), total_bytes: 0, files: s(files) }
}

fn hit(path: &str) -> LeftoverHit {
    LeftoverHit { category: "c".to_string(), path: path.to_string(), reason: "r".to_string() }
}

fn sample_summary() -> ScanSummary {
    ScanSummary {
        roots_scanned: s(&["C:/"]),
        files_seen: 8,
        duplicate_groups: vec![group("g1", &["A1", "A2", "A3"]), group("g2", &["B1", "B2"])],
        duplicate_waste_bytes: 0,
        leftovers: vec![hit("A2"), hit("C:/Windows/tmp.tmp"), hit("D:/x/old.bak")],
        extension_breakdown: Vec::new(),
    }
}

#[test]
fn cleanup_sources_list_extra_copies_then_leftovers() {
    assert_eq!(
        cleanup_sources(&sample_summary()),
        s(&["A2", "A3", "B2", "A2", "C:/Windows/tmp.tmp", "D:/x/old.bak"])
    );
}

#[test]
fn cleanup_candidates_skip_missing_ignored_and_repeated() {
    let summary = sample_summary();
    let ip = s(&["C:/Windows"]);
    let ie = s(&[".sys"]);
    let present = vec![true, false, true, true, true, true];
    assert_eq!(cleanup_candidates(&summary, 10, &ip, &ie, &present), s(&["A2", "B2", "D:/x/old.bak"]));
    assert_eq!(cleanup_candidates(&summary, 2, &ip, &ie, &present), s(&["A2", "B2"]));
    assert_eq!(cleanup_candidates(&summary, 0, &ip, &ie, &present), s(&["A2"]));
    assert!(cleanup_candidates(&summary, 10, &ip, &ie, &Vec::new()).is_empty());
}

#[test]
fn blake3_digests_match_the_reference_vectors() {
    assert_eq!(hash_bytes(b""), "af1349b9f5f9a1a6a0404dea36dcc9499bcb25c9adc112b7cc9a93cae41f3262");
    assert_eq!(hash_bytes(b"abc"), blake3::hash(b"abc").to_hex().to_string());
    assert_eq!(hash_bytes(b"abc").len(), 64);
}

#[test]
fn hashing_in_chunks_equals_hashing_at_once() {
    let data: Vec<u8> = (0..20000u32).map(|i| (i % 251) as u8).collect();
    let mut h = ContentHasher::new();
    for chunk in data.chunks(8192) {
        h.absorb(chunk);
    }
    assert_eq!(h.hex_digest(), hash_bytes(&data));
    assert_ne!(hash_bytes(&data), hash_bytes(&data[1..]));
}
