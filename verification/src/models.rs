//! The records that the scanner, the health and integrity checks, the
//! cleanup engine and the control panel exchange. Paths are held as text.

use vstd::prelude::*;
use crate::text::copy_str;

verus! {

/// Files whose contents hash the same.
#[derive(Debug, Clone)]
pub struct DuplicateGroup {
    pub hash: String,
    pub total_bytes: u64,
    pub files: Vec<String>,
}

/// A file that looks like a leftover of an install, an extraction or an edit.
#[derive(Debug, Clone)]
pub struct LeftoverHit {
    pub category: String,
    pub path: String,
    pub reason: String,
}

impl View for LeftoverHit {
    /// (category, path, reason)
    type V = (Seq<char>, Seq<char>, Seq<char>);

    open spec fn view(&self) -> Self::V {
        (self.category@, self.path@, self.reason@)
    }
}

/// The texts of a list of strings.
pub open spec fn texts(v: Seq<String>) -> Seq<Seq<char>> {
    Seq::new(v.len(), |i: int| v[i]@)
}

/// The views of a list of leftover hits.
pub open spec fn hit_views(v: Seq<LeftoverHit>) -> Seq<(Seq<char>, Seq<char>, Seq<char>)> {
    Seq::new(v.len(), |i: int| v[i]@)
}

/// What one scan of the chosen roots found.
#[derive(Debug, Clone)]
pub struct ScanSummary {
    pub roots_scanned: Vec<String>,
    pub files_seen: usize,
    pub duplicate_groups: Vec<DuplicateGroup>,
    pub duplicate_waste_bytes: u64,
    pub leftovers: Vec<LeftoverHit>,
    pub extension_breakdown: Vec<(String, usize)>,
}

/// One scored aspect of machine health.
#[derive(Debug, Clone)]
pub struct HealthMetric {
    pub name: String,
    pub score: u8,
    pub details: String,
}

/// The outcome of a health check.
#[derive(Debug, Clone)]
pub struct HealthReport {
    pub generated_at: String,
    pub overall_score: u8,
    pub metrics: Vec<HealthMetric>,
    pub warnings: Vec<String>,
    pub recommendations: Vec<String>,
}

/// Persisted operator settings.
#[derive(Debug, Clone)]
pub struct AppConfig {
    pub schedule_enabled: bool,
    pub schedule_minutes: u64,
    pub auto_cleanup_limit: usize,
    pub ignored_extensions: Vec<String>,
    pub ignored_paths: Vec<String>,
    pub last_scheduled_run: Option<String>,
}

impl Default for AppConfig {
    fn default() -> (c: Self)
        ensures
            !c.schedule_enabled,
            c.schedule_minutes == 240,
            c.auto_cleanup_limit == 80,
            c.ignored_extensions@.len() == 2,
            c.ignored_extensions@[0]@ == ".sys"@,
            c.ignored_extensions@[1]@ == ".dll"@,
            c.ignored_paths@.len() == 2,
            c.ignored_paths@[0]@ == "C:/Windows"@,
            c.ignored_paths@[1]@ == "Program Files"@,
            c.last_scheduled_run is None,
    {
        AppConfig {
            schedule_enabled: false,
            schedule_minutes: 240,
            auto_cleanup_limit: 80,
            ignored_extensions: vec![copy_str(".sys"), copy_str(".dll")],
            ignored_paths: vec![copy_str("C:/Windows"), copy_str("Program Files")],
            last_scheduled_run: None,
        }
    }
}

/// One snapshot of the dashboard counters.
#[derive(Debug, Clone)]
pub struct HistoryEntry {
    pub timestamp: String,
    pub overall_health: Option<u8>,
    pub duplicate_groups: usize,
    pub leftover_hits: usize,
    pub duplicate_waste_bytes: u64,
}

impl Default for HistoryEntry {
    fn default() -> (e: Self)
        ensures
            e.timestamp@.len() == 0,
            e.overall_health is None,
            e.duplicate_groups == 0,
            e.leftover_hits == 0,
            e.duplicate_waste_bytes == 0,
    {
        HistoryEntry {
            timestamp: String::new(),
            overall_health: None,
            duplicate_groups: 0,
            leftover_hits: 0,
            duplicate_waste_bytes: 0,
        }
    }
}

/// A file moved into quarantine, and whether it went back.
#[derive(Debug, Clone)]
pub struct QuarantineEntry {
    pub original_path: String,
    pub quarantined_path: String,
    pub timestamp: String,
    pub restored: bool,
}

/// How a cleanup batch disposes of its candidates.
#[derive(Debug, Clone, Copy, PartialEq, Eq, Structural)]
pub enum CleanupMode {
    Quarantine,
    Delete,
    SecureDelete,
}

/// Counters and log lines of a cleanup or restore batch.
#[derive(Debug, Clone)]
pub struct CleanupResult {
    pub moved: usize,
    pub restored: usize,
    pub deleted: usize,
    pub failed: usize,
    pub logs: Vec<String>,
}

impl Default for CleanupResult {
    fn default() -> (r: Self)
        ensures
            r.moved == 0,
            r.restored == 0,
            r.deleted == 0,
            r.failed == 0,
            r.logs@.len() == 0,
    {
        CleanupResult { moved: 0, restored: 0, deleted: 0, failed: 0, logs: Vec::new() }
    }
}

/// One finding of the integrity checks.
#[derive(Debug, Clone)]
pub struct IntegrityIssue {
    pub check: String,
    pub severity: String,
    pub path: String,
    pub details: String,
    pub fix_hint: String,
}

/// The outcome of the integrity checks.
#[derive(Debug, Clone)]
pub struct IntegrityReport {
    pub generated_at: String,
    pub roots_scanned: Vec<String>,
    pub files_scanned: usize,
    pub issues: Vec<IntegrityIssue>,
    pub integrity_score: u8,
    pub critical_count: usize,
    pub warning_count: usize,
    pub info_count: usize,
    pub check_count: usize,
}

/// Depth of a health check.
#[derive(Debug, Clone, Copy, PartialEq, Eq, Structural)]
pub enum RunMode {
    Quick,
    Deep,
}

} // verus!
