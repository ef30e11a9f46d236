use pc_health_cleaner::health::{
    memory_pressure_score, record_cpu_metric, record_disk_metric, record_memory_metric,
    record_service_metric, record_temp_metric, score_disk_free_ratio, service_load_score,
    temp_usage_score, GIB,
};
use pc_health_cleaner::health::{
    assemble_health_report, health_grade, overall_health_score, process_bloat_score,
    record_metric, record_process_metric, record_startup_metric, service_counts, service_details,
    startup_entry_score,
};
use pc_health_cleaner::health::{health_report_from, HealthProbes};
use pc_health_cleaner::models::{HealthMetric, HealthReport, RunMode};

fn metric(score: u8) -> HealthMetric {
    HealthMetric { name: "m".to_string(), score, details: String::new() }
}

#[test]
fn process_count_scores() {
    assert_eq!(process_bloat_score(0), 90);
    assert_eq!(process_bloat_score(139), 90);
    assert_eq!(process_bloat_score(140), 70);
    assert_eq!(process_bloat_score(219), 70);
    assert_eq!(process_bloat_score(220), 45);
    assert_eq!(process_bloat_score(299), 45);
    assert_eq!(process_bloat_score(300), 25);
}

#[test]
fn startup_count_scores() {
    assert_eq!(startup_entry_score(17), 92);
    assert_eq!(startup_entry_score(18), 75);
    assert_eq!(startup_entry_score(34), 75);
    assert_eq!(startup_entry_score(35), 48);
    assert_eq!(startup_entry_score(54), 48);
    assert_eq!(startup_entry_score(55), 25);
}

#[test]
fn low_scores_add_warning_and_recommendation() {
    let mut m = Vec::new();
    let mut w = Vec::new();
    let mut r = Vec::new();
    record_metric(&mut m, &mut w, &mut r, "Disk", 49, "d".to_string(), "warn", "fix");
    record_metric(&mut m, &mut w, &mut r, "CPU", 50, "c".to_string(), "warn2", "fix2");
    assert_eq!(m.len(), 2);
    assert_eq!(m[0].name, "Disk");
    assert_eq!(m[0].score, 49);
    assert_eq!(m[1].details, "c");
    assert_eq!(w, vec!["warn".to_string()]);
    assert_eq!(r, vec!["fix".to_string()]);
}

#[test]
fn process_and_startup_metrics() {
    let mut m = Vec::new();
    let mut w = Vec::new();
    let mut r = Vec::new();
    record_process_metric(&mut m, &mut w, &mut r, 350);
    record_startup_metric(&mut m, &mut w, &mut r, 12);
    assert_eq!(m[0].name, "Process Bloat");
    assert_eq!(m[0].score, 25);
    assert_eq!(m[0].details, "Running processes: 350");
    assert_eq!(m[1].name, "Startup Entries");
    assert_eq!(m[1].score, 92);
    assert_eq!(m[1].details, "Startup items found: 12");
    assert_eq!(w, vec!["Excessive process count may indicate startup bloat.".to_string()]);
    assert_eq!(r, vec!["Audit startup entries and remove unnecessary auto-runs.".to_string()]);
}

#[test]
fn crowded_startup_warns() {
    let mut m = Vec::new();
    let mut w = Vec::new();
    let mut r = Vec::new();
    record_startup_metric(&mut m, &mut w, &mut r, 60);
    assert_eq!(w, vec!["Startup folder looks crowded and may delay boot time.".to_string()]);
    assert_eq!(r, vec!["Trim startup entries to improve boot responsiveness.".to_string()]);
}

#[test]
fn services_are_counted_from_the_listing() {
    let listing = "SERVICE_NAME: a\n  STATE : 4 RUNNING\nSERVICE_NAME: b\n  STATE : 1 STOPPED\n";
    assert_eq!(service_counts(listing), (2, 1));
    assert_eq!(service_counts(""), (0, 0));
    assert_eq!(service_details(3, 10), "Running/Total services: 3/10");
}

#[test]
fn overall_score_is_the_mean() {
    assert_eq!(overall_health_score(&vec![metric(90), metric(70), metric(45)]), 68);
    assert_eq!(overall_health_score(&Vec::new()), 50);
    assert_eq!(overall_health_score(&vec![metric(255), metric(255)]), 255);
    let ms = vec![metric(40), metric(80), metric(61)];
    let o = overall_health_score(&ms);
    assert!(40 <= o && o <= 80);
}

#[test]
fn report_carries_its_parts() {
    let rep = assemble_health_report(
        "now".to_string(),
        vec![metric(100), metric(51)],
        vec!["w".to_string()],
        vec!["r".to_string()],
    );
    assert_eq!(rep.generated_at, "now");
    assert_eq!(rep.overall_score, 75);
    assert_eq!(rep.metrics.len(), 2);
    assert_eq!(rep.warnings, vec!["w".to_string()]);
    assert_eq!(rep.recommendations, vec!["r".to_string()]);
}

#[test]
fn grades_follow_the_thresholds() {
    let cases = [
        (100u8, "A+"),
        (93, "A+"),
        (92, "A"),
        (86, "A"),
        (85, "B"),
        (78, "B"),
        (77, "C"),
        (68, "C"),
        (67, "D"),
        (55, "D"),
        (54, "F"),
        (0, "F"),
    ];
    for (score, grade) in cases {
        assert_eq!(health_grade(score), grade);
    }
}

#[test]
fn disk_free_share_scores() {
    assert_eq!(score_disk_free_ratio(0, 0), (50, "Disk size unavailable".to_string()));
    assert_eq!(score_disk_free_ratio(31, 100), (95, "Healthy free space: ".to_string()));
    assert_eq!(score_disk_free_ratio(30, 100), (75, "Moderate free space: ".to_string()));
    assert_eq!(score_disk_free_ratio(16, 100), (75, "Moderate free space: ".to_string()));
    assert_eq!(score_disk_free_ratio(15, 100), (45, "Low free space: ".to_string()));
    assert_eq!(score_disk_free_ratio(8, 100), (20, "Critical free space: ".to_string()));
    assert_eq!(score_disk_free_ratio(u64::MAX, u64::MAX).0, 95);
}

#[test]
fn memory_temp_and_service_scores() {
    assert_eq!(memory_pressure_score(5, 0), 90);
    assert_eq!(memory_pressure_score(54, 100), 90);
    assert_eq!(memory_pressure_score(55, 100), 70);
    assert_eq!(memory_pressure_score(75, 100), 45);
    assert_eq!(memory_pressure_score(90, 100), 20);
    assert_eq!(temp_usage_score(GIB - 1), 90);
    assert_eq!(temp_usage_score(GIB), 70);
    assert_eq!(temp_usage_score(3 * GIB), 45);
    assert_eq!(temp_usage_score(8 * GIB), 20);
    assert_eq!(service_load_score(0, 0), 90);
    assert_eq!(service_load_score(27, 100), 90);
    assert_eq!(service_load_score(28, 100), 72);
    assert_eq!(service_load_score(42, 100), 48);
    assert_eq!(service_load_score(55, 100), 28);
}

#[test]
fn machine_metrics_are_recorded_with_their_advice() {
    let mut m = Vec::new();
    let mut w = Vec::new();
    let mut r = Vec::new();
    record_disk_metric(&mut m, &mut w, &mut r, 5, 100, "Critical free space: 5.0%".to_string());
    record_memory_metric(&mut m, &mut w, &mut r, 10, 100, "Memory usage: 10.0%".to_string());
    record_cpu_metric(&mut m, &mut w, &mut r, 25, "Global CPU usage: 97.0%".to_string());
    record_temp_metric(&mut m, &mut w, &mut r, 9 * GIB, "Approx temp usage: 9.00 GB".to_string());
    record_service_metric(&mut m, &mut w, &mut r, 60, 100);
    let names: Vec<&str> = m.iter().map(|x| x.name.as_str()).collect();
    assert_eq!(names, vec!["Disk Capacity", "Memory Pressure", "CPU Load", "Temp Storage", "Service Load"]);
    let scores: Vec<u8> = m.iter().map(|x| x.score).collect();
    assert_eq!(scores, vec![20, 90, 25, 20, 28]);
    assert_eq!(m[4].details, "Running/Total services: 60/100");
    assert_eq!(
        w,
        vec![
            "Low disk free space can cause severe performance drops.".to_string(),
            "Sustained CPU load is high.".to_string(),
            "Temporary file accumulation is heavy.".to_string(),
            "High active service ratio may indicate system overhead.".to_string(),
        ]
    );
    assert_eq!(r.len(), 4);
    assert_eq!(r[0], "Clean large temp and duplicate files to recover space.");
    assert_eq!(r[3], "Audit non-essential services and set manual startup where safe.");
}

fn probes() -> HealthProbes {
    HealthProbes {
        free_space: 5,
        total_space: 100,
        disk_details: "disk".to_string(),
        used_memory: 50,
        total_memory: 100,
        memory_details: "mem".to_string(),
        cpu_score: 70,
        cpu_details: "cpu".to_string(),
        temp: None,
        process_count: 400,
        startup_count: 3,
        services: Some((100, 60)),
    }
}

fn metric_rows(r: &HealthReport) -> Vec<(String, u8, String)> {
    r.metrics.iter().map(|m| (m.name.clone(), m.score, m.details.clone())).collect()
}

#[test]
fn a_quick_check_records_the_basic_metrics() {
    let r = health_report_from(RunMode::Quick, probes(), "now".to_string());
    assert_eq!(r.generated_at, "now");
    assert_eq!(
        metric_rows(&r),
        vec![
            ("Disk Capacity".to_string(), 20, "disk".to_string()),
            ("Memory Pressure".to_string(), 90, "mem".to_string()),
            ("CPU Load".to_string(), 70, "cpu".to_string()),
        ]
    );
    assert_eq!(r.warnings, vec!["Low disk free space can cause severe performance drops.".to_string()]);
    assert_eq!(
        r.recommendations,
        vec!["Clean large temp and duplicate files to recover space.".to_string()]
    );
    assert_eq!(r.overall_score, 60);
}

#[test]
fn a_deep_check_adds_processes_startup_and_services() {
    let mut p = probes();
    p.temp = Some((2 * 1024 * 1024 * 1024, "temp".to_string()));
    let r = health_report_from(RunMode::Deep, p, "now".to_string());
    let names: Vec<String> = r.metrics.iter().map(|m| m.name.clone()).collect();
    assert_eq!(
        names,
        vec![
            "Disk Capacity",
            "Memory Pressure",
            "CPU Load",
            "Temp Storage",
            "Process Bloat",
            "Startup Entries",
            "Service Load"
        ]
    );
    assert_eq!(r.metrics[3].score, 70);
    assert_eq!(r.metrics[4].score, 25);
    assert_eq!(r.metrics[4].details, "Running processes: 400");
    assert_eq!(r.metrics[6].details, "Running/Total services: 60/100");
    assert_eq!(r.metrics[6].score, 28);
    assert_eq!(r.warnings.len(), 3);
    assert_eq!(r.warnings[1], "Excessive process count may indicate startup bloat.");
    let mut q = probes();
    q.services = None;
    assert_eq!(health_report_from(RunMode::Deep, q, String::new()).metrics.len(), 5);
}
