//! Scoring of the health checks.
//!
//! Probing the machine (disks, memory, processor, temporary files, startup
//! folders, services) is the caller's work. The count-based scores, the
//! warning and recommendation bookkeeping, the overall score and the grade
//! are decided here.

use vstd::prelude::*;
use crate::models::{HealthMetric, HealthReport, RunMode, texts};
use crate::text::{count_matches, count_matches_exec, decimal, to_chars, copy_str, concat, concat3, usize_string};

verus! {

/// Score for the free share of disk space: above 30%, 15% and 8%, compared
/// exactly on the byte counts; 50 when the disk size is unknown.
pub open spec fn disk_free_score_spec(free: nat, total: nat) -> u8 {
    if total == 0 {
        50
    } else if 100 * free > 30 * total {
        95
    } else if 100 * free > 15 * total {
        75
    } else if 100 * free > 8 * total {
        45
    } else {
        20
    }
}

/// The wording of the disk metric for a score; the caller appends the free
/// percentage, except when the size is unknown.
pub open spec fn disk_label_spec(score: u8, total: nat) -> Seq<char> {
    if total == 0 {
        "Disk size unavailable"@
    } else if score == 95 {
        "Healthy free space: "@
    } else if score == 75 {
        "Moderate free space: "@
    } else if score == 45 {
        "Low free space: "@
    } else {
        "Critical free space: "@
    }
}

/// Scores the free disk space and gives the wording of the metric.
pub fn score_disk_free_ratio(free: u64, total: u64) -> (r: (u8, String))
    ensures
        r.0 == disk_free_score_spec(free as nat, total as nat),
        r.1@ == disk_label_spec(r.0, total as nat),
{
    if total == 0 {
        return (50, copy_str("Disk size unavailable"));
    }
    let f = free as u128 * 100;
    let t = total as u128;
    if f > 30 * t {
        (95, copy_str("Healthy free space: "))
    } else if f > 15 * t {
        (75, copy_str("Moderate free space: "))
    } else if f > 8 * t {
        (45, copy_str("Low free space: "))
    } else {
        (20, copy_str("Critical free space: "))
    }
}

/// Score for the used share of memory: below 55%, 75% and 90%, compared
/// exactly; an unknown total counts as no pressure.
pub open spec fn memory_score_spec(used: nat, total: nat) -> u8 {
    if total == 0 || 100 * used < 55 * total {
        90
    } else if 100 * used < 75 * total {
        70
    } else if 100 * used < 90 * total {
        45
    } else {
        20
    }
}

pub fn memory_pressure_score(used: u64, total: u64) -> (score: u8)
    ensures
        score == memory_score_spec(used as nat, total as nat),
{
    let u = used as u128 * 100;
    let t = total as u128;
    if total == 0 || u < 55 * t {
        90
    } else if u < 75 * t {
        70
    } else if u < 90 * t {
        45
    } else {
        20
    }
}

/// One gibibyte.
pub const GIB: u64 = 1024 * 1024 * 1024;

/// Score for the bytes held in the temporary folder: below 1, 3 and 8 GiB.
pub open spec fn temp_score_spec(bytes: nat) -> u8 {
    if bytes < GIB {
        90
    } else if bytes < 3 * GIB {
        70
    } else if bytes < 8 * GIB {
        45
    } else {
        20
    }
}

pub fn temp_usage_score(bytes: u64) -> (score: u8)
    ensures
        score == temp_score_spec(bytes as nat),
{
    if bytes < GIB {
        90
    } else if bytes < 3 * GIB {
        70
    } else if bytes < 8 * GIB {
        45
    } else {
        20
    }
}

/// Score for the running share of services: below 28%, 42% and 55%,
/// compared exactly; no service counts as none running.
pub open spec fn service_score_spec(running: nat, total: nat) -> u8 {
    if total == 0 || 100 * running < 28 * total {
        90
    } else if 100 * running < 42 * total {
        72
    } else if 100 * running < 55 * total {
        48
    } else {
        28
    }
}

pub fn service_load_score(running: usize, total: usize) -> (score: u8)
    ensures
        score == service_score_spec(running as nat, total as nat),
{
    let r = running as u128 * 100;
    let t = total as u128;
    if total == 0 || r < 28 * t {
        90
    } else if r < 42 * t {
        72
    } else if r < 55 * t {
        48
    } else {
        28
    }
}

/// Score for the number of running processes.
pub open spec fn process_bloat_score_spec(count: nat) -> u8 {
    if count < 140 {
        90
    } else if count < 220 {
        70
    } else if count < 300 {
        45
    } else {
        25
    }
}

/// Score for the number of startup entries.
pub open spec fn startup_entry_score_spec(count: nat) -> u8 {
    if count < 18 {
        92
    } else if count < 35 {
        75
    } else if count < 55 {
        48
    } else {
        25
    }
}

pub fn process_bloat_score(count: usize) -> (score: u8)
    ensures
        score == process_bloat_score_spec(count as nat),
{
    if count < 140 {
        90
    } else if count < 220 {
        70
    } else if count < 300 {
        45
    } else {
        25
    }
}

pub fn startup_entry_score(count: usize) -> (score: u8)
    ensures
        score == startup_entry_score_spec(count as nat),
{
    if count < 18 {
        92
    } else if count < 35 {
        75
    } else if count < 55 {
        48
    } else {
        25
    }
}

/// The view of a metric: (name, score, details).
pub open spec fn metric_view(m: HealthMetric) -> (Seq<char>, u8, Seq<char>) {
    (m.name@, m.score, m.details@)
}

pub open spec fn metric_views(v: Seq<HealthMetric>) -> Seq<(Seq<char>, u8, Seq<char>)> {
    Seq::new(v.len(), |i: int| metric_view(v[i]))
}

/// Adds a metric; a score below 50 also adds its warning and its
/// recommendation.
pub fn record_metric(
    metrics: &mut Vec<HealthMetric>,
    warnings: &mut Vec<String>,
    recommendations: &mut Vec<String>,
    name: &str,
    score: u8,
    details: String,
    warning: &str,
    recommendation: &str,
)
    ensures
        metric_views(final(metrics)@) == metric_views(old(metrics)@).push((name@, score, details@)),
        texts(final(warnings)@) == (if score < 50 {
            texts(old(warnings)@).push(warning@)
        } else {
            texts(old(warnings)@)
        }),
        texts(final(recommendations)@) == (if score < 50 {
            texts(old(recommendations)@).push(recommendation@)
        } else {
            texts(old(recommendations)@)
        }),
{
    let ghost mv = metric_views(metrics@);
    let ghost wv = texts(warnings@);
    let ghost rv = texts(recommendations@);
    if score < 50 {
        warnings.push(copy_str(warning));
        recommendations.push(copy_str(recommendation));
        assert(texts(warnings@) =~= wv.push(warning@));
        assert(texts(recommendations@) =~= rv.push(recommendation@));
    } else {
        assert(texts(warnings@) =~= wv);
        assert(texts(recommendations@) =~= rv);
    }
    metrics.push(HealthMetric { name: copy_str(name), score, details });
    assert(metric_views(metrics@) =~= mv.push((name@, score, details@)));
}

/// Records the process-count metric of a deep check.
pub fn record_process_metric(
    metrics: &mut Vec<HealthMetric>,
    warnings: &mut Vec<String>,
    recommendations: &mut Vec<String>,
    process_count: usize,
)
    ensures
        metric_views(final(metrics)@) == metric_views(old(metrics)@).push(
            (
                "Process Bloat"@,
                process_bloat_score_spec(process_count as nat),
                "Running processes: "@ + decimal(process_count as nat),
            ),
        ),
        texts(final(warnings)@) == (if process_bloat_score_spec(process_count as nat) < 50 {
            texts(old(warnings)@).push("Excessive process count may indicate startup bloat."@)
        } else {
            texts(old(warnings)@)
        }),
        texts(final(recommendations)@) == (if process_bloat_score_spec(process_count as nat) < 50 {
            texts(old(recommendations)@).push("Audit startup entries and remove unnecessary auto-runs."@)
        } else {
            texts(old(recommendations)@)
        }),
{
    let score = process_bloat_score(process_count);
    let n = usize_string(process_count);
    let details = concat("Running processes: ", n.as_str());
    record_metric(
        metrics,
        warnings,
        recommendations,
        "Process Bloat",
        score,
        details,
        "Excessive process count may indicate startup bloat.",
        "Audit startup entries and remove unnecessary auto-runs.",
    );
}

/// Records the startup-entry metric of a deep check.
pub fn record_startup_metric(
    metrics: &mut Vec<HealthMetric>,
    warnings: &mut Vec<String>,
    recommendations: &mut Vec<String>,
    startup_count: usize,
)
    ensures
        metric_views(final(metrics)@) == metric_views(old(metrics)@).push(
            (
                "Startup Entries"@,
                startup_entry_score_spec(startup_count as nat),
                "Startup items found: "@ + decimal(startup_count as nat),
            ),
        ),
        texts(final(warnings)@) == (if startup_entry_score_spec(startup_count as nat) < 50 {
            texts(old(warnings)@).push("Startup folder looks crowded and may delay boot time."@)
        } else {
            texts(old(warnings)@)
        }),
        texts(final(recommendations)@) == (if startup_entry_score_spec(startup_count as nat) < 50 {
            texts(old(recommendations)@).push("Trim startup entries to improve boot responsiveness."@)
        } else {
            texts(old(recommendations)@)
        }),
{
    let score = startup_entry_score(startup_count);
    let n = usize_string(startup_count);
    let details = concat("Startup items found: ", n.as_str());
    record_metric(
        metrics,
        warnings,
        recommendations,
        "Startup Entries",
        score,
        details,
        "Startup folder looks crowded and may delay boot time.",
        "Trim startup entries to improve boot responsiveness.",
    );
}

/// `new` is `old` after recording a metric named `name` with `score` and
/// `details`: the metric appended, and, for a score below 50, the warning
/// and the recommendation too.
pub open spec fn metric_recorded(
    old_metrics: Seq<HealthMetric>,
    old_warnings: Seq<String>,
    old_recs: Seq<String>,
    new_metrics: Seq<HealthMetric>,
    new_warnings: Seq<String>,
    new_recs: Seq<String>,
    name: Seq<char>,
    score: u8,
    details: Seq<char>,
    warning: Seq<char>,
    recommendation: Seq<char>,
) -> bool {
    &&& metric_views(new_metrics) == metric_views(old_metrics).push((name, score, details))
    &&& texts(new_warnings) == if score < 50 {
        texts(old_warnings).push(warning)
    } else {
        texts(old_warnings)
    }
    &&& texts(new_recs) == if score < 50 {
        texts(old_recs).push(recommendation)
    } else {
        texts(old_recs)
    }
}

/// Records the disk metric, scored from the free and total bytes; the
/// caller words the details.
pub fn record_disk_metric(
    metrics: &mut Vec<HealthMetric>,
    warnings: &mut Vec<String>,
    recommendations: &mut Vec<String>,
    free: u64,
    total: u64,
    details: String,
)
    ensures
        metric_recorded(
            old(metrics)@,
            old(warnings)@,
            old(recommendations)@,
            final(metrics)@,
            final(warnings)@,
            final(recommendations)@,
            "Disk Capacity"@,
            disk_free_score_spec(free as nat, total as nat),
            details@,
            "Low disk free space can cause severe performance drops."@,
            "Clean large temp and duplicate files to recover space."@,
        ),
{
    let (score, _label) = score_disk_free_ratio(free, total);
    record_metric(
        metrics,
        warnings,
        recommendations,
        "Disk Capacity",
        score,
        details,
        "Low disk free space can cause severe performance drops.",
        "Clean large temp and duplicate files to recover space.",
    );
}

/// Records the memory metric, scored from the used and total bytes.
pub fn record_memory_metric(
    metrics: &mut Vec<HealthMetric>,
    warnings: &mut Vec<String>,
    recommendations: &mut Vec<String>,
    used: u64,
    total: u64,
    details: String,
)
    ensures
        metric_recorded(
            old(metrics)@,
            old(warnings)@,
            old(recommendations)@,
            final(metrics)@,
            final(warnings)@,
            final(recommendations)@,
            "Memory Pressure"@,
            memory_score_spec(used as nat, total as nat),
            details@,
            "High RAM pressure detected."@,
            "Disable heavy startup/background apps and reboot regularly."@,
        ),
{
    let score = memory_pressure_score(used, total);
    record_metric(
        metrics,
        warnings,
        recommendations,
        "Memory Pressure",
        score,
        details,
        "High RAM pressure detected.",
        "Disable heavy startup/background apps and reboot regularly.",
    );
}

/// Records the processor metric with the score the caller derived from
/// the load reading.
pub fn record_cpu_metric(
    metrics: &mut Vec<HealthMetric>,
    warnings: &mut Vec<String>,
    recommendations: &mut Vec<String>,
    score: u8,
    details: String,
)
    ensures
        metric_recorded(
            old(metrics)@,
            old(warnings)@,
            old(recommendations)@,
            final(metrics)@,
            final(warnings)@,
            final(recommendations)@,
            "CPU Load"@,
            score,
            details@,
            "Sustained CPU load is high."@,
            "Investigate top CPU processes and remove noisy apps."@,
        ),
{
    record_metric(
        metrics,
        warnings,
        recommendations,
        "CPU Load",
        score,
        details,
        "Sustained CPU load is high.",
        "Investigate top CPU processes and remove noisy apps.",
    );
}

/// Records the temporary-storage metric, scored from the bytes found.
pub fn record_temp_metric(
    metrics: &mut Vec<HealthMetric>,
    warnings: &mut Vec<String>,
    recommendations: &mut Vec<String>,
    bytes: u64,
    details: String,
)
    ensures
        metric_recorded(
            old(metrics)@,
            old(warnings)@,
            old(recommendations)@,
            final(metrics)@,
            final(warnings)@,
            final(recommendations)@,
            "Temp Storage"@,
            temp_score_spec(bytes as nat),
            details@,
            "Temporary file accumulation is heavy."@,
            "Purge stale temporary folders and extraction leftovers."@,
        ),
{
    let score = temp_usage_score(bytes);
    record_metric(
        metrics,
        warnings,
        recommendations,
        "Temp Storage",
        score,
        details,
        "Temporary file accumulation is heavy.",
        "Purge stale temporary folders and extraction leftovers.",
    );
}

/// Records the service-load metric of a deep check.
pub fn record_service_metric(
    metrics: &mut Vec<HealthMetric>,
    warnings: &mut Vec<String>,
    recommendations: &mut Vec<String>,
    running: usize,
    total: usize,
)
    ensures
        metric_recorded(
            old(metrics)@,
            old(warnings)@,
            old(recommendations)@,
            final(metrics)@,
            final(warnings)@,
            final(recommendations)@,
            "Service Load"@,
            service_score_spec(running as nat, total as nat),
            "Running/Total services: "@ + decimal(running as nat) + "/"@ + decimal(total as nat),
            "High active service ratio may indicate system overhead."@,
            "Audit non-essential services and set manual startup where safe."@,
        ),
{
    let score = service_load_score(running, total);
    let details = service_details(running, total);
    record_metric(
        metrics,
        warnings,
        recommendations,
        "Service Load",
        score,
        details,
        "High active service ratio may indicate system overhead.",
        "Audit non-essential services and set manual startup where safe.",
    );
}

/// `Running/Total services: <running>/<total>`.
pub fn service_details(running: usize, total: usize) -> (d: String)
    ensures
        d@ == "Running/Total services: "@ + decimal(running as nat) + "/"@ + decimal(total as nat),
{
    let r = usize_string(running);
    let t = usize_string(total);
    let a = concat3("Running/Total services: ", r.as_str(), "/");
    concat(a.as_str(), t.as_str())
}

/// Counts the services listed by `sc query state= all`, and the running
/// ones: the non-overlapping occurrences of `SERVICE_NAME:` and `RUNNING`.
pub fn service_counts(listing: &str) -> (r: (usize, usize))
    ensures
        r.0 == count_matches(listing@, "SERVICE_NAME:"@),
        r.1 == count_matches(listing@, "RUNNING"@),
{
    let text = to_chars(listing);
    let name_pat = to_chars("SERVICE_NAME:");
    let run_pat = to_chars("RUNNING");
    proof {
        reveal_strlit("SERVICE_NAME:");
        reveal_strlit("RUNNING");
    }
    let total = count_matches_exec(&text, &name_pat);
    let running = count_matches_exec(&text, &run_pat);
    (total, running)
}

/// Sum of the scores of `ms[..n]`.
pub open spec fn score_sum(ms: Seq<HealthMetric>, n: int) -> nat
    decreases n,
{
    if n <= 0 {
        0
    } else {
        score_sum(ms, n - 1) + ms[n - 1].score as nat
    }
}

/// The overall score: the mean of the metric scores rounded down, or 50
/// when there is no metric.
pub open spec fn overall_score_spec(ms: Seq<HealthMetric>) -> int {
    if ms.len() == 0 {
        50
    } else {
        score_sum(ms, ms.len() as int) as int / ms.len() as int
    }
}

proof fn lemma_score_sum_bound(ms: Seq<HealthMetric>, n: int)
    requires
        0 <= n <= ms.len(),
    ensures
        score_sum(ms, n) <= 255 * n,
    decreases n,
{
    if n > 0 {
        lemma_score_sum_bound(ms, n - 1);
    }
}

pub fn overall_health_score(metrics: &Vec<HealthMetric>) -> (score: u8)
    ensures
        score as int == overall_score_spec(metrics@),
{
    if metrics.len() == 0 {
        return 50;
    }
    let mut sum: u128 = 0;
    let mut i: usize = 0;
    while i < metrics.len()
        invariant
            i <= metrics@.len(),
            sum == score_sum(metrics@, i as int),
            sum <= 255 * i,
        decreases metrics.len() - i,
    {
        proof {
            lemma_score_sum_bound(metrics@, i as int);
        }
        assert(sum + 255 <= 255 * (i + 1)) by (nonlinear_arith)
            requires
                sum <= 255 * i,
        ;
        assert(255 * (i + 1) <= 255 * 0x1_0000_0000_0000_0000) by (nonlinear_arith)
            requires
                i < 0x1_0000_0000_0000_0000,
        ;
        sum = sum + metrics[i].score as u128;
        i = i + 1;
    }
    let n = metrics.len() as u128;
    let avg = sum / n;
    assert(avg <= 255) by (nonlinear_arith)
        requires
            sum <= 255 * n,
            n > 0,
            avg == sum / n,
    ;
    avg as u8
}

/// A health report from its metrics, warnings and recommendations; the
/// overall score is their mean.
pub fn assemble_health_report(
    generated_at: String,
    metrics: Vec<HealthMetric>,
    warnings: Vec<String>,
    recommendations: Vec<String>,
) -> (report: HealthReport)
    ensures
        report.generated_at == generated_at,
        report.metrics@ == metrics@,
        report.warnings@ == warnings@,
        report.recommendations@ == recommendations@,
        report.overall_score as int == overall_score_spec(metrics@),
{
    let overall_score = overall_health_score(&metrics);
    HealthReport { generated_at, overall_score, metrics, warnings, recommendations }
}

/// The letter grade of a score.
pub open spec fn grade_of(score: u8) -> Seq<char> {
    if score >= 93 {
        "A+"@
    } else if score >= 86 {
        "A"@
    } else if score >= 78 {
        "B"@
    } else if score >= 68 {
        "C"@
    } else if score >= 55 {
        "D"@
    } else {
        "F"@
    }
}

/// Letter grade for an overall health score.
pub fn health_grade(score: u8) -> (grade: &'static str)
    ensures
        grade@ == grade_of(score),
{
    if score >= 93 {
        "A+"
    } else if score >= 86 {
        "A"
    } else if score >= 78 {
        "B"
    } else if score >= 68 {
        "C"
    } else if score >= 55 {
        "D"
    } else {
        "F"
    }
}


// ---------------------------------------------------------------------------
// The whole check
// ---------------------------------------------------------------------------

/// What probing the machine found, in the units the scores use. The deep
/// readings matter only to a deep check; `temp` is absent where the
/// temporary folder is unknown, `services` where the service query failed.
pub struct HealthProbes {
    pub free_space: u64,
    pub total_space: u64,
    pub disk_details: String,
    pub used_memory: u64,
    pub total_memory: u64,
    pub memory_details: String,
    pub cpu_score: u8,
    pub cpu_details: String,
    pub temp: Option<(u64, String)>,
    pub process_count: usize,
    pub startup_count: usize,
    pub services: Option<(usize, usize)>,
}

/// One recorded metric: name, score, details, and the warning and the
/// recommendation it raises when it scores below 50.
pub type MetricRow = (Seq<char>, u8, Seq<char>, Seq<char>, Seq<char>);

/// The metrics a check records, in order: disk, memory, processor, the
/// temporary folder where known; for a deep check then processes, startup
/// entries and, where the query answered, services.
pub open spec fn health_rows(mode: RunMode, p: HealthProbes) -> Seq<MetricRow> {
    let base: Seq<MetricRow> = seq![
        (
            "Disk Capacity"@,
            disk_free_score_spec(p.free_space as nat, p.total_space as nat),
            p.disk_details@,
            "Low disk free space can cause severe performance drops."@,
            "Clean large temp and duplicate files to recover space."@,
        ),
        (
            "Memory Pressure"@,
            memory_score_spec(p.used_memory as nat, p.total_memory as nat),
            p.memory_details@,
            "High RAM pressure detected."@,
            "Disable heavy startup/background apps and reboot regularly."@,
        ),
        (
            "CPU Load"@,
            p.cpu_score,
            p.cpu_details@,
            "Sustained CPU load is high."@,
            "Investigate top CPU processes and remove noisy apps."@,
        ),
    ];
    let with_temp: Seq<MetricRow> = match p.temp {
        Some((bytes, details)) => base.push(
            (
                "Temp Storage"@,
                temp_score_spec(bytes as nat),
                details@,
                "Temporary file accumulation is heavy."@,
                "Purge stale temporary folders and extraction leftovers."@,
            ),
        ),
        None => base,
    };
    match mode {
        RunMode::Quick => with_temp,
        RunMode::Deep => {
            let deep = with_temp.push(
                (
                    "Process Bloat"@,
                    process_bloat_score_spec(p.process_count as nat),
                    "Running processes: "@ + decimal(p.process_count as nat),
                    "Excessive process count may indicate startup bloat."@,
                    "Audit startup entries and remove unnecessary auto-runs."@,
                ),
            ).push(
                (
                    "Startup Entries"@,
                    startup_entry_score_spec(p.startup_count as nat),
                    "Startup items found: "@ + decimal(p.startup_count as nat),
                    "Startup folder looks crowded and may delay boot time."@,
                    "Trim startup entries to improve boot responsiveness."@,
                ),
            );
            match p.services {
                Some((total, running)) => deep.push(
                    (
                        "Service Load"@,
                        service_score_spec(running as nat, total as nat),
                        "Running/Total services: "@ + decimal(running as nat) + "/"@ + decimal(total as nat),
                        "High active service ratio may indicate system overhead."@,
                        "Audit non-essential services and set manual startup where safe."@,
                    ),
                ),
                None => deep,
            }
        },
    }
}

/// The metrics of the rows, as name, score and details.
pub open spec fn row_metrics(rows: Seq<MetricRow>) -> Seq<(Seq<char>, u8, Seq<char>)> {
    rows.map_values(|r: MetricRow| (r.0, r.1, r.2))
}

/// The warnings the rows raise, in order.
pub open spec fn row_warnings(rows: Seq<MetricRow>) -> Seq<Seq<char>>
    decreases rows.len(),
{
    if rows.len() == 0 {
        Seq::empty()
    } else {
        let prev = row_warnings(rows.drop_last());
        if rows.last().1 < 50 {
            prev.push(rows.last().3)
        } else {
            prev
        }
    }
}

/// The recommendations the rows raise, in order.
pub open spec fn row_recommendations(rows: Seq<MetricRow>) -> Seq<Seq<char>>
    decreases rows.len(),
{
    if rows.len() == 0 {
        Seq::empty()
    } else {
        let prev = row_recommendations(rows.drop_last());
        if rows.last().1 < 50 {
            prev.push(rows.last().4)
        } else {
            prev
        }
    }
}

proof fn lemma_push_row(rows: Seq<MetricRow>, r: MetricRow)
    ensures
        row_metrics(rows.push(r)) == row_metrics(rows).push((r.0, r.1, r.2)),
        row_warnings(rows.push(r)) == (if r.1 < 50 {
            row_warnings(rows).push(r.3)
        } else {
            row_warnings(rows)
        }),
        row_recommendations(rows.push(r)) == (if r.1 < 50 {
            row_recommendations(rows).push(r.4)
        } else {
            row_recommendations(rows)
        }),
{
    assert(rows.push(r).drop_last() =~= rows);
    assert(row_metrics(rows.push(r)) =~= row_metrics(rows).push((r.0, r.1, r.2)));
}

/// Records the metrics of a quick or deep check from what probing found
/// and assembles the report.
pub fn health_report_from(mode: RunMode, probes: HealthProbes, generated_at: String) -> (report: HealthReport)
    ensures
        report.generated_at == generated_at,
        metric_views(report.metrics@) == row_metrics(health_rows(mode, probes)),
        texts(report.warnings@) == row_warnings(health_rows(mode, probes)),
        texts(report.recommendations@) == row_recommendations(health_rows(mode, probes)),
        report.overall_score as int == overall_score_spec(report.metrics@),
{
    let ghost p = probes;
    let HealthProbes {
        free_space,
        total_space,
        disk_details,
        used_memory,
        total_memory,
        memory_details,
        cpu_score,
        cpu_details,
        temp,
        process_count,
        startup_count,
        services,
    } = probes;
    let mut metrics: Vec<HealthMetric> = Vec::new();
    let mut warnings: Vec<String> = Vec::new();
    let mut recommendations: Vec<String> = Vec::new();
    let ghost mut rows: Seq<MetricRow> = Seq::empty();
    proof {
        assert(metric_views(metrics@) =~= row_metrics(rows));
        assert(texts(warnings@) =~= row_warnings(rows));
        assert(texts(recommendations@) =~= row_recommendations(rows));
    }

    record_disk_metric(&mut metrics, &mut warnings, &mut recommendations, free_space, total_space, disk_details);
    proof {
        let r = health_rows(mode, p)[0];
        lemma_push_row(rows, r);
        rows = rows.push(r);
    }
    record_memory_metric(&mut metrics, &mut warnings, &mut recommendations, used_memory, total_memory, memory_details);
    proof {
        let r = health_rows(mode, p)[1];
        lemma_push_row(rows, r);
        rows = rows.push(r);
    }
    record_cpu_metric(&mut metrics, &mut warnings, &mut recommendations, cpu_score, cpu_details);
    proof {
        let r = health_rows(mode, p)[2];
        lemma_push_row(rows, r);
        rows = rows.push(r);
    }
    match temp {
        Some((bytes, details)) => {
            record_temp_metric(&mut metrics, &mut warnings, &mut recommendations, bytes, details);
            proof {
                let r = health_rows(mode, p)[3];
                lemma_push_row(rows, r);
                rows = rows.push(r);
            }
        },
        None => {},
    }
    let ghost shallow = rows;
    if mode == RunMode::Deep {
        record_process_metric(&mut metrics, &mut warnings, &mut recommendations, process_count);
        proof {
            let r = health_rows(mode, p)[shallow.len() as int];
            lemma_push_row(rows, r);
            rows = rows.push(r);
        }
        record_startup_metric(&mut metrics, &mut warnings, &mut recommendations, startup_count);
        proof {
            let r = health_rows(mode, p)[shallow.len() + 1int];
            lemma_push_row(rows, r);
            rows = rows.push(r);
        }
        match services {
            Some((total, running)) => {
                record_service_metric(&mut metrics, &mut warnings, &mut recommendations, running, total);
                proof {
                    let r = health_rows(mode, p)[shallow.len() + 2int];
                    lemma_push_row(rows, r);
                    rows = rows.push(r);
                }
            },
            None => {},
        }
    }
    proof {
        assert(rows =~= health_rows(mode, p));
    }
    assemble_health_report(generated_at, metrics, warnings, recommendations)
}

} // verus!
