//! The control panel's state and the decisions its buttons take.
//!
//! Drawing the panel, probing the machine and touching files belong to the
//! caller: it runs the scans and cleanups these methods ask for and hands
//! their results back.

use vstd::prelude::*;
use crate::models::{
    AppConfig, CleanupMode, CleanupResult, DuplicateGroup, HealthReport, HistoryEntry, LeftoverHit,
    RunMode, ScanSummary, texts,
};
use crate::order::{is_stable_desc_order, is_stable_lex_order, stable_desc_order, stable_lex_order};
use crate::scanner::{cleanup_candidates, cleanup_selection};
use crate::storage::{capped_history, push_history_capped};
use crate::clock::now_rfc3339;
use crate::text::{
    to_chars, from_chars, trim, trim_chars, lower, lower_chars, contains, contains_chars, chars_eq,
    copy_str, concat, concat3, decimal, usize_string,
};

verus! {

/// How the duplicate groups are listed.
#[derive(Debug, Clone, Copy, PartialEq, Eq, Structural)]
pub enum DuplicateSort {
    Waste,
    Copies,
    Path,
}

/// One line of the candidate list.
#[derive(Debug, Clone)]
pub struct CandidateRow {
    pub path: String,
    pub source: String,
    pub reason: String,
    pub risk: u8,
}

/// The panel's state, apart from what only drawing needs.
pub struct CleanerApp {
    pub scan_roots_input: String,
    pub scan_summary: Option<ScanSummary>,
    pub health_report: Option<HealthReport>,
    pub config: AppConfig,
    pub history: Vec<HistoryEntry>,
    pub cleanup_mode: CleanupMode,
    pub export_file_name: String,
    pub status: String,
    pub duplicate_sort: DuplicateSort,
    pub candidate_filter: String,
    pub destructive_phrase: String,
    pub selected_quarantine_idx: usize,
    pub selected_root_preset: usize,
    pub notes: String,
}

// ---------------------------------------------------------------------------
// Scan roots and separated lists
// ---------------------------------------------------------------------------

/// The pieces of `s` between `sep` characters (`str::split`).
pub open spec fn split_pieces(s: Seq<char>, sep: char) -> Seq<Seq<char>>
    decreases s.len(),
{
    if s.len() == 0 {
        seq![Seq::<char>::empty()]
    } else {
        let p = split_pieces(s.drop_last(), sep);
        if s.last() == sep {
            p.push(Seq::<char>::empty())
        } else {
            p.update(p.len() - 1, p.last().push(s.last()))
        }
    }
}

pub proof fn lemma_split_pieces_nonempty(s: Seq<char>, sep: char)
    ensures
        split_pieces(s, sep).len() >= 1,
    decreases s.len(),
{
    if s.len() > 0 {
        lemma_split_pieces_nonempty(s.drop_last(), sep);
    }
}

/// The trimmed pieces that are not empty, in order.
pub open spec fn nonempty_trimmed(pieces: Seq<Seq<char>>, n: int) -> Seq<Seq<char>>
    decreases n,
{
    if n <= 0 {
        Seq::empty()
    } else if trim(pieces[n - 1]).len() > 0 {
        nonempty_trimmed(pieces, n - 1).push(trim(pieces[n - 1]))
    } else {
        nonempty_trimmed(pieces, n - 1)
    }
}

/// The trimmed, non-empty pieces of a `sep`-separated list.
pub open spec fn list_tokens(s: Seq<char>, sep: char) -> Seq<Seq<char>> {
    let p = split_pieces(s, sep);
    nonempty_trimmed(p, p.len() as int)
}

/// The roots named in the `;`-separated input.
pub open spec fn root_tokens(s: Seq<char>) -> Seq<Seq<char>> {
    list_tokens(s, ';')
}

fn push_if_nonempty(out: &mut Vec<String>, piece: &Vec<char>)
    ensures
        texts(final(out)@) == if trim(piece@).len() > 0 {
            texts(old(out)@).push(trim(piece@))
        } else {
            texts(old(out)@)
        },
{
    let ghost before = texts(out@);
    let t = trim_chars(piece);
    if t.len() > 0 {
        out.push(from_chars(&t));
        assert(texts(out@) =~= before.push(trim(piece@)));
    }
}

/// The pieces of `text` between `sep` characters, trimmed, empty ones
/// dropped.
pub fn split_trimmed(text: &str, sep: char) -> (items: Vec<String>)
    ensures
        texts(items@) == list_tokens(text@, sep),
{
    let s = to_chars(text);
    let mut out: Vec<String> = Vec::new();
    let mut cur: Vec<char> = Vec::new();
    let mut i: usize = 0;
    assert(split_pieces(s@.subrange(0, 0), sep) =~= seq![Seq::<char>::empty()]);
    assert(cur@ =~= Seq::<char>::empty());
    while i < s.len()
        invariant
            i <= s@.len(),
            s@ == text@,
            ({
                let p = split_pieces(s@.subrange(0, i as int), sep);
                &&& p.len() >= 1
                &&& cur@ == p.last()
                &&& texts(out@) == nonempty_trimmed(p, p.len() - 1)
            }),
        decreases s.len() - i,
    {
        let ghost pre = s@.subrange(0, i as int);
        let ghost p = split_pieces(pre, sep);
        let ghost next = s@.subrange(0, i + 1);
        assert(next.drop_last() =~= pre);
        assert(next.last() == s@[i as int]);
        if s[i] == sep {
            push_if_nonempty(&mut out, &cur);
            cur = Vec::new();
            proof {
                let np = split_pieces(next, sep);
                assert(np == p.push(Seq::<char>::empty()));
                assert(np.len() - 1 == p.len());
                assert(nonempty_trimmed(np, p.len() as int) == nonempty_trimmed(p, p.len() as int)) by {
                    lemma_nonempty_trimmed_agree(np, p, p.len() as int);
                }
                assert(nonempty_trimmed(p, p.len() as int) == if trim(p[p.len() - 1]).len() > 0 {
                    nonempty_trimmed(p, p.len() - 1).push(trim(p[p.len() - 1]))
                } else {
                    nonempty_trimmed(p, p.len() - 1)
                });
                assert(cur@ =~= Seq::<char>::empty());
            }
        } else {
            cur.push(s[i]);
            proof {
                let np = split_pieces(next, sep);
                assert(np == p.update(p.len() - 1, p.last().push(s@[i as int])));
                assert(nonempty_trimmed(np, np.len() - 1) == nonempty_trimmed(p, p.len() - 1)) by {
                    lemma_nonempty_trimmed_agree(np, p, p.len() - 1);
                }
            }
        }
        i = i + 1;
    }
    push_if_nonempty(&mut out, &cur);
    proof {
        assert(s@.subrange(0, s@.len() as int) =~= s@);
    }
    out
}


/// `items` joined with `sep` between them.
pub open spec fn joined(items: Seq<Seq<char>>, sep: Seq<char>) -> Seq<char>
    decreases items.len(),
{
    if items.len() == 0 {
        Seq::empty()
    } else if items.len() == 1 {
        items[0]
    } else {
        joined(items.drop_last(), sep) + sep + items.last()
    }
}

/// The roots joined as the scan-roots input writes them: `; ` between.
pub fn join_roots(roots: &Vec<String>) -> (s: String)
    ensures
        s@ == joined(texts(roots@), "; "@),
{
    let mut out = String::new();
    let mut i: usize = 0;
    proof {
        assert(texts(roots@).subrange(0, 0) =~= Seq::<Seq<char>>::empty());
    }
    while i < roots.len()
        invariant
            i <= roots@.len(),
            out@ == joined(texts(roots@).subrange(0, i as int), "; "@),
        decreases roots.len() - i,
    {
        let ghost prev = texts(roots@).subrange(0, i as int);
        let ghost next = texts(roots@).subrange(0, i + 1);
        assert(next.drop_last() =~= prev);
        assert(next.last() == roots@[i as int]@);
        if i == 0 {
            out = copy_str(roots[i].as_str());
            assert(next.len() == 1);
        } else {
            let a = concat(out.as_str(), "; ");
            out = concat(a.as_str(), roots[i].as_str());
        }
        i = i + 1;
    }
    assert(texts(roots@).subrange(0, roots@.len() as int) =~= texts(roots@));
    out
}

/// A place a root preset names: a folder of the home folder, or the
/// temporary folder.
#[derive(Debug, Clone, PartialEq, Eq)]
pub enum RootPlace {
    HomeFolder(String),
    TempFolder,
}

pub open spec fn place_view(p: RootPlace) -> Option<Seq<char>> {
    match p {
        RootPlace::HomeFolder(name) => Some(name@),
        RootPlace::TempFolder => None,
    }
}

/// The places of each root preset: 1 Downloads, 2 Desktop, 3 Documents,
/// 4 the temporary folder, 5 Videos and Pictures, and otherwise (the
/// balanced preset) Desktop, Downloads and Documents.
pub open spec fn preset_places(preset: usize) -> Seq<Option<Seq<char>>> {
    if preset == 1 {
        seq![Some("Downloads"@)]
    } else if preset == 2 {
        seq![Some("Desktop"@)]
    } else if preset == 3 {
        seq![Some("Documents"@)]
    } else if preset == 4 {
        seq![None]
    } else if preset == 5 {
        seq![Some("Videos"@), Some("Pictures"@)]
    } else {
        seq![Some("Desktop"@), Some("Downloads"@), Some("Documents"@)]
    }
}

fn home(name: &str) -> (p: RootPlace)
    ensures
        place_view(p) == Some(name@),
{
    RootPlace::HomeFolder(copy_str(name))
}

/// The places a root preset names, in order.
pub fn root_preset_places(preset: usize) -> (places: Vec<RootPlace>)
    ensures
        Seq::new(places@.len(), |i: int| place_view(places@[i])) == preset_places(preset),
{
    let v = if preset == 1 {
        vec![home("Downloads")]
    } else if preset == 2 {
        vec![home("Desktop")]
    } else if preset == 3 {
        vec![home("Documents")]
    } else if preset == 4 {
        vec![RootPlace::TempFolder]
    } else if preset == 5 {
        vec![home("Videos"), home("Pictures")]
    } else {
        vec![home("Desktop"), home("Downloads"), home("Documents")]
    };
    assert(Seq::new(v@.len(), |i: int| place_view(v@[i])) =~= preset_places(preset));
    v
}

// ---------------------------------------------------------------------------
// Candidate rows
// ---------------------------------------------------------------------------

pub type RowView = (Seq<char>, Seq<char>, Seq<char>, u8);

pub open spec fn row_view(r: CandidateRow) -> RowView {
    (r.path@, r.source@, r.reason@, r.risk)
}

pub open spec fn row_views(v: Seq<CandidateRow>) -> Seq<RowView> {
    Seq::new(v.len(), |i: int| row_view(v[i]))
}

/// A path passes the (lower-cased) filter when the filter is empty or
/// occurs in the lower-cased path.
pub open spec fn passes_filter(p: Seq<char>, f: Seq<char>) -> bool {
    f.len() == 0 || contains(lower(p), f)
}

/// Rows for `files[1..n]` of a duplicate group.
pub open spec fn group_rows(files: Seq<Seq<char>>, f: Seq<char>, n: int) -> Seq<RowView>
    decreases n,
{
    if n <= 1 {
        Seq::empty()
    } else if passes_filter(files[n - 1], f) {
        group_rows(files, f, n - 1).push(
            (files[n - 1], "Duplicate"@, "Additional copy in duplicate group"@, 45u8),
        )
    } else {
        group_rows(files, f, n - 1)
    }
}

/// Rows for the groups `r[..n]` (groups listed in the order `r`).
pub open spec fn dup_rows(groups: Seq<DuplicateGroup>, r: Seq<usize>, f: Seq<char>, n: int) -> Seq<RowView>
    decreases n,
{
    if n <= 0 {
        Seq::empty()
    } else {
        let files = texts(groups[r[n - 1] as int].files@);
        dup_rows(groups, r, f, n - 1) + group_rows(files, f, files.len() as int)
    }
}

/// Risk of a leftover, by category.
pub open spec fn leftover_risk(category: Seq<char>) -> u8 {
    if contains(category, "Extraction"@) {
        62
    } else if contains(category, "Installer"@) {
        57
    } else {
        49
    }
}

/// Rows for `leftovers[..n]`.
pub open spec fn leftover_rows(ls: Seq<LeftoverHit>, f: Seq<char>, n: int) -> Seq<RowView>
    decreases n,
{
    if n <= 0 {
        Seq::empty()
    } else if passes_filter(ls[n - 1].path@, f) {
        leftover_rows(ls, f, n - 1).push(
            (ls[n - 1].path@, ls[n - 1].category@, ls[n - 1].reason@, leftover_risk(ls[n - 1].category@)),
        )
    } else {
        leftover_rows(ls, f, n - 1)
    }
}

pub open spec fn group_totals_of(groups: Seq<DuplicateGroup>) -> Seq<u64> {
    Seq::new(groups.len(), |i: int| groups[i].total_bytes)
}

pub open spec fn group_copies_of(groups: Seq<DuplicateGroup>) -> Seq<u64> {
    Seq::new(groups.len(), |i: int| groups[i].files@.len() as u64)
}

pub open spec fn group_first_paths(groups: Seq<DuplicateGroup>) -> Seq<Seq<char>> {
    Seq::new(
        groups.len(),
        |i: int|
            if groups[i].files@.len() > 0 {
                groups[i].files@[0]@
            } else {
                Seq::<char>::empty()
            },
    )
}

/// `r` lists the groups as the chosen sort does: most wasted bytes first,
/// most copies first, or by first path; ties keep their order.
pub open spec fn is_listing_order(groups: Seq<DuplicateGroup>, sort: DuplicateSort, r: Seq<usize>) -> bool {
    match sort {
        DuplicateSort::Waste => is_stable_desc_order(group_totals_of(groups), r),
        DuplicateSort::Copies => is_stable_desc_order(group_copies_of(groups), r),
        DuplicateSort::Path => is_stable_lex_order(group_first_paths(groups), r, false),
    }
}

/// The candidate list: every extra copy of each duplicate group (groups in
/// listing order), then every leftover, keeping those that pass the filter.
pub open spec fn is_candidate_listing(
    summary: Option<ScanSummary>,
    sort: DuplicateSort,
    filter: Seq<char>,
    rows: Seq<RowView>,
) -> bool {
    match summary {
        None => rows.len() == 0,
        Some(s) => {
            let f = lower(filter);
            let g = s.duplicate_groups@;
            exists|r: Seq<usize>|
                #[trigger] is_listing_order(g, sort, r) && rows == dup_rows(g, r, f, g.len() as int)
                    + leftover_rows(s.leftovers@, f, s.leftovers@.len() as int)
        },
    }
}

fn passes_filter_exec(p: &String, f: &Vec<char>) -> (r: bool)
    ensures
        r == passes_filter(p@, f@),
{
    if f.len() == 0 {
        return true;
    }
    let c = to_chars(p.as_str());
    let l = lower_chars(&c);
    contains_chars(&l, f)
}

fn push_group_rows(rows: &mut Vec<CandidateRow>, g: &DuplicateGroup, f: &Vec<char>)
    ensures
        row_views(final(rows)@) == row_views(old(rows)@) + group_rows(
            texts(g.files@),
            f@,
            g.files@.len() as int,
        ),
{
    let ghost before = row_views(rows@);
    let ghost tf = texts(g.files@);
    let mut k: usize = 1;
    assert(row_views(rows@) =~= before + group_rows(tf, f@, 1));
    if g.files.len() == 0 {
        assert(row_views(rows@) =~= before + group_rows(tf, f@, 0));
        return;
    }
    while k < g.files.len()
        invariant
            1 <= k <= g.files@.len(),
            tf == texts(g.files@),
            row_views(rows@) == before + group_rows(tf, f@, k as int),
        decreases g.files.len() - k,
    {
        let ghost prev = row_views(rows@);
        if passes_filter_exec(&g.files[k], f) {
            rows.push(
                CandidateRow {
                    path: g.files[k].clone(),
                    source: copy_str("Duplicate"),
                    reason: copy_str("Additional copy in duplicate group"),
                    risk: 45,
                },
            );
            assert(row_views(rows@) =~= prev.push(
                (tf[k as int], "Duplicate"@, "Additional copy in duplicate group"@, 45u8),
            ));
        }
        k = k + 1;
        assert(row_views(rows@) =~= before + group_rows(tf, f@, k as int));
    }
}

fn has_literal(s: &String, lit: &str) -> (r: bool)
    ensures
        r == contains(s@, lit@),
{
    let c = to_chars(s.as_str());
    let l = to_chars(lit);
    contains_chars(&c, &l)
}

fn leftover_risk_exec(category: &String) -> (r: u8)
    ensures
        r == leftover_risk(category@),
{
    if has_literal(category, "Extraction") {
        62
    } else if has_literal(category, "Installer") {
        57
    } else {
        49
    }
}

/// The permutation that lists the groups in the chosen order.
fn listing_order(groups: &Vec<DuplicateGroup>, sort: DuplicateSort) -> (r: Vec<usize>)
    ensures
        is_listing_order(groups@, sort, r@),
{
    match sort {
        DuplicateSort::Waste => {
            let mut keys: Vec<u64> = Vec::new();
            let mut i: usize = 0;
            while i < groups.len()
                invariant
                    i <= groups@.len(),
                    keys@.len() == i,
                    forall|k: int| 0 <= k < i ==> keys@[k] == groups@[k].total_bytes,
                decreases groups.len() - i,
            {
                keys.push(groups[i].total_bytes);
                i = i + 1;
            }
            assert(keys@ =~= group_totals_of(groups@));
            stable_desc_order(&keys)
        },
        DuplicateSort::Copies => {
            let mut keys: Vec<u64> = Vec::new();
            let mut i: usize = 0;
            while i < groups.len()
                invariant
                    i <= groups@.len(),
                    keys@.len() == i,
                    forall|k: int| 0 <= k < i ==> keys@[k] == groups@[k].files@.len() as u64,
                decreases groups.len() - i,
            {
                keys.push(groups[i].files.len() as u64);
                i = i + 1;
            }
            assert(keys@ =~= group_copies_of(groups@));
            stable_desc_order(&keys)
        },
        DuplicateSort::Path => {
            let mut keys: Vec<Vec<char>> = Vec::new();
            let mut i: usize = 0;
            while i < groups.len()
                invariant
                    i <= groups@.len(),
                    keys@.len() == i,
                    forall|k: int| 0 <= k < i ==> keys@[k]@ == group_first_paths(groups@)[k],
                decreases groups.len() - i,
            {
                if groups[i].files.len() > 0 {
                    keys.push(to_chars(groups[i].files[0].as_str()));
                } else {
                    let e: Vec<char> = Vec::new();
                    assert(e@ =~= Seq::<char>::empty());
                    keys.push(e);
                }
                i = i + 1;
            }
            assert(keys@.map_values(|k: Vec<char>| k@) =~= group_first_paths(groups@));
            stable_lex_order(&keys, false)
        },
    }
}

// ---------------------------------------------------------------------------
// History entries
// ---------------------------------------------------------------------------

fn copy_entry(e: &HistoryEntry) -> (r: HistoryEntry)
    ensures
        r == *e,
{
    HistoryEntry {
        timestamp: e.timestamp.clone(),
        overall_health: e.overall_health,
        duplicate_groups: e.duplicate_groups,
        leftover_hits: e.leftover_hits,
        duplicate_waste_bytes: e.duplicate_waste_bytes,
    }
}

/// The counters a history entry records for the current reports.
pub open spec fn entry_matches(e: HistoryEntry, health: Option<HealthReport>, scan: Option<ScanSummary>) -> bool {
    &&& e.overall_health == match health {
        Some(h) => Some(h.overall_score),
        None => None::<u8>,
    }
    &&& e.duplicate_groups == match scan {
        Some(s) => s.duplicate_groups@.len() as usize,
        None => 0usize,
    }
    &&& e.leftover_hits == match scan {
        Some(s) => s.leftovers@.len() as usize,
        None => 0usize,
    }
    &&& e.duplicate_waste_bytes == match scan {
        Some(s) => s.duplicate_waste_bytes,
        None => 0u64,
    }
}

fn status_counts2(prefix: &str, a: usize, middle: &str, b: usize) -> (s: String)
    ensures
        s@ == prefix@ + decimal(a as nat) + middle@ + decimal(b as nat),
{
    let sa = usize_string(a);
    let sb = usize_string(b);
    let x = concat3(prefix, sa.as_str(), middle);
    concat(x.as_str(), sb.as_str())
}

impl CleanerApp {
    /// A fresh panel over the given roots, configuration and history.
    pub fn new(scan_roots_input: String, config: AppConfig, history: Vec<HistoryEntry>) -> (app: Self)
        ensures
            app.scan_roots_input == scan_roots_input,
            app.scan_summary is None,
            app.health_report is None,
            app.config == config,
            app.history == history,
            app.cleanup_mode == CleanupMode::Quarantine,
            app.export_file_name@ == "nexus_report.json"@,
            app.status@ == "Ready. Run Deep Health and Scan to activate the full toolkit."@,
            app.duplicate_sort == DuplicateSort::Waste,
            app.candidate_filter@.len() == 0,
            app.destructive_phrase@.len() == 0,
            app.selected_quarantine_idx == 0,
            app.selected_root_preset == 0,
            app.notes@.len() == 0,
    {
        CleanerApp {
            scan_roots_input,
            scan_summary: None,
            health_report: None,
            config,
            history,
            cleanup_mode: CleanupMode::Quarantine,
            export_file_name: copy_str("nexus_report.json"),
            status: copy_str("Ready. Run Deep Health and Scan to activate the full toolkit."),
            duplicate_sort: DuplicateSort::Waste,
            candidate_filter: String::new(),
            destructive_phrase: String::new(),
            selected_quarantine_idx: 0,
            selected_root_preset: 0,
            notes: String::new(),
        }
    }

    /// The roots named in the input, trimmed, empty ones dropped; the
    /// caller keeps those that exist.
    pub fn parse_roots(&self) -> (roots: Vec<String>)
        ensures
            texts(roots@) == root_tokens(self.scan_roots_input@),
    {
        split_trimmed(self.scan_roots_input.as_str(), ';')
    }

    /// Starts a scan of the given existing roots: refused, with a hint in
    /// the status line, when there are none.
    pub fn begin_clean_scan(&mut self, roots: &Vec<String>) -> (go: bool)
        ensures
            *final(self) == (CleanerApp { status: final(self).status, ..*old(self) }),
            go == (roots@.len() > 0),
            final(self).status@ == (if roots@.len() > 0 {
                "Running duplicate + leftover scan..."@
            } else {
                "No valid roots found. Use semicolon-separated folder paths."@
            }),
            final(self).scan_summary == old(self).scan_summary,
            final(self).history == old(self).history,
    {
        if roots.len() == 0 {
            self.status = copy_str("No valid roots found. Use semicolon-separated folder paths.");
            return false;
        }
        self.status = copy_str("Running duplicate + leftover scan...");
        true
    }

    /// Takes in a finished scan and records it in the history; returns the
    /// new entry for the caller to persist.
    pub fn finish_clean_scan(&mut self, summary: ScanSummary) -> (entry: HistoryEntry)
        ensures
            *final(self) == (CleanerApp { status: final(self).status, scan_summary: final(self).scan_summary, history: final(self).history, ..*old(self) }),
            final(self).scan_summary == Some(summary),
            final(self).health_report == old(self).health_report,
            entry_matches(entry, final(self).health_report, final(self).scan_summary),
            final(self).history@ == capped_history(old(self).history@, entry),
            final(self).status@ == "Scan complete. Cleaner intelligence updated."@,
    {
        self.scan_summary = Some(summary);
        let entry = self.record_history();
        self.status = copy_str("Scan complete. Cleaner intelligence updated.");
        entry
    }

    /// Announces a health check.
    pub fn begin_health(&mut self, mode: RunMode)
        ensures
            *final(self) == (CleanerApp { status: final(self).status, ..*old(self) }),
            final(self).status@ == (match mode {
                RunMode::Quick => "Running quick health check..."@,
                RunMode::Deep => "Running deep extensive health check..."@,
            }),
            final(self).history == old(self).history,
            final(self).health_report == old(self).health_report,
            final(self).scan_summary == old(self).scan_summary,
    {
        self.status = match mode {
            RunMode::Quick => copy_str("Running quick health check..."),
            RunMode::Deep => copy_str("Running deep extensive health check..."),
        };
    }

    /// Takes in a finished health check and records it in the history.
    pub fn finish_health(&mut self, report: HealthReport) -> (entry: HistoryEntry)
        ensures
            *final(self) == (CleanerApp { status: final(self).status, health_report: final(self).health_report, history: final(self).history, ..*old(self) }),
            final(self).health_report == Some(report),
            final(self).scan_summary == old(self).scan_summary,
            entry_matches(entry, final(self).health_report, final(self).scan_summary),
            final(self).history@ == capped_history(old(self).history@, entry),
            final(self).status@ == "Health check complete."@,
    {
        self.health_report = Some(report);
        let entry = self.record_history();
        self.status = copy_str("Health check complete.");
        entry
    }

    /// Snapshots the current counters into the history (newest
    /// `HISTORY_CAP` kept), stamped with the current time.
    pub fn record_history(&mut self) -> (entry: HistoryEntry)
        ensures
            *final(self) == (CleanerApp { history: final(self).history, ..*old(self) }),
            entry_matches(entry, old(self).health_report, old(self).scan_summary),
            final(self).history@ == capped_history(old(self).history@, entry),
            final(self).health_report == old(self).health_report,
            final(self).scan_summary == old(self).scan_summary,
            final(self).status == old(self).status,
            final(self).config == old(self).config,
    {
        let overall_health = match &self.health_report {
            Some(h) => Some(h.overall_score),
            None => None,
        };
        let (duplicate_groups, leftover_hits, duplicate_waste_bytes) = match &self.scan_summary {
            Some(s) => (s.duplicate_groups.len(), s.leftovers.len(), s.duplicate_waste_bytes),
            None => (0, 0, 0),
        };
        let entry = HistoryEntry {
            timestamp: now_rfc3339(),
            overall_health,
            duplicate_groups,
            leftover_hits,
            duplicate_waste_bytes,
        };
        let kept = copy_entry(&entry);
        push_history_capped(&mut self.history, kept);
        entry
    }

    /// Whether a scheduled deep run is due, given the minutes since the last
    /// one (`None` when its stamp does not parse). Not due when the schedule
    /// is off or the interval has not elapsed; the status line says which.
    pub fn schedule_due(&mut self, minutes_since_last: Option<i64>) -> (due: bool)
        ensures
            *final(self) == (CleanerApp { status: final(self).status, ..*old(self) }),
            due == (old(self).config.schedule_enabled && match old(self).config.last_scheduled_run {
                None => true,
                Some(_) => match minutes_since_last {
                    None => true,
                    Some(m) => m >= (old(self).config.schedule_minutes as i64),
                },
            }),
            !old(self).config.schedule_enabled ==> final(self).status@ == "Schedule is disabled."@,
            old(self).config.schedule_enabled && !due ==> final(self).status@
                == "Scheduled run is not due yet."@,
            due ==> final(self).status == old(self).status,
            final(self).config == old(self).config,
            final(self).history == old(self).history,
    {
        if !self.config.schedule_enabled {
            self.status = copy_str("Schedule is disabled.");
            return false;
        }
        let due = match &self.config.last_scheduled_run {
            Some(_) => match minutes_since_last {
                Some(m) => m >= self.config.schedule_minutes as i64,
                None => true,
            },
            None => true,
        };
        if !due {
            self.status = copy_str("Scheduled run is not due yet.");
            return false;
        }
        true
    }

    /// Stamps the completed scheduled run; the caller saves the
    /// configuration.
    pub fn finish_scheduled_run(&mut self)
        ensures
            *final(self) == (CleanerApp { status: final(self).status, config: AppConfig { last_scheduled_run: final(self).config.last_scheduled_run, ..old(self).config }, ..*old(self) }),
            final(self).config.last_scheduled_run is Some,
            final(self).config.schedule_enabled == old(self).config.schedule_enabled,
            final(self).config.schedule_minutes == old(self).config.schedule_minutes,
            final(self).config.auto_cleanup_limit == old(self).config.auto_cleanup_limit,
            final(self).config.ignored_extensions == old(self).config.ignored_extensions,
            final(self).config.ignored_paths == old(self).config.ignored_paths,
            final(self).status@ == "Scheduled deep run completed."@,
            final(self).history == old(self).history,
    {
        self.config.last_scheduled_run = Some(now_rfc3339());
        self.status = copy_str("Scheduled deep run completed.");
    }

    /// The candidates of a one-click cleanup (`present[i]` tells whether the
    /// i-th of `cleanup_sources` still exists). Refused, with the reason in
    /// the status line, without a scan, for a destructive mode unless the
    /// safety phrase reads `CONFIRM`, or when nothing is left to clean.
    pub fn prepare_one_click_cleanup(&mut self, present: &Vec<bool>) -> (r: Option<Vec<String>>)
        ensures
            *final(self) == (CleanerApp { status: final(self).status, ..*old(self) }),
            final(self).history == old(self).history,
            final(self).scan_summary == old(self).scan_summary,
            final(self).config == old(self).config,
            match old(self).scan_summary {
                None => r is None && final(self).status@ == "Run scan before cleanup."@,
                Some(s) => if old(self).cleanup_mode != CleanupMode::Quarantine && trim(
                    old(self).destructive_phrase@,
                ) != "CONFIRM"@ {
                    r is None && final(self).status@
                        == "Type CONFIRM to allow Delete/Secure Delete modes."@
                } else {
                    let sel = cleanup_selection(
                        s,
                        old(self).config.auto_cleanup_limit,
                        texts(old(self).config.ignored_paths@),
                        texts(old(self).config.ignored_extensions@),
                        present@,
                    );
                    if sel.len() == 0 {
                        r is None && final(self).status@
                            == "No cleanup candidates after ignore filters."@
                    } else {
                        r matches Some(c) && texts(c@) == sel && final(self).status
                            == old(self).status
                    }
                },
            },
    {
        match &self.scan_summary {
            None => {
                self.status = copy_str("Run scan before cleanup.");
                None
            },
            Some(summary) => {
                if self.cleanup_mode != CleanupMode::Quarantine {
                    let phrase = to_chars(self.destructive_phrase.as_str());
                    let t = trim_chars(&phrase);
                    let confirm = to_chars("CONFIRM");
                    if !chars_eq(&t, &confirm) {
                        self.status = copy_str("Type CONFIRM to allow Delete/Secure Delete modes.");
                        return None;
                    }
                }
                let candidates = cleanup_candidates(
                    summary,
                    self.config.auto_cleanup_limit,
                    &self.config.ignored_paths,
                    &self.config.ignored_extensions,
                    present,
                );
                if candidates.len() == 0 {
                    self.status = copy_str("No cleanup candidates after ignore filters.");
                    return None;
                }
                Some(candidates)
            },
        }
    }

    /// Reports a finished one-click cleanup.
    pub fn finish_one_click_cleanup(&mut self, result: &CleanupResult)
        ensures
            *final(self) == (CleanerApp { status: final(self).status, ..*old(self) }),
            final(self).status@ == "Cleanup complete. moved:"@ + decimal(result.moved as nat)
                + " deleted:"@ + decimal(result.deleted as nat) + " failed:"@ + decimal(
                result.failed as nat,
            ),
            final(self).history == old(self).history,
    {
        let m = usize_string(result.moved);
        let d = usize_string(result.deleted);
        let f = usize_string(result.failed);
        let a = concat3("Cleanup complete. moved:", m.as_str(), " deleted:");
        let b = concat3(a.as_str(), d.as_str(), " failed:");
        self.status = concat(b.as_str(), f.as_str());
    }

    /// How many quarantined files a bulk restore brings back at most.
    pub fn restore_recent_limit(&self) -> (n: usize)
        ensures
            n == (if self.config.auto_cleanup_limit < 50 { self.config.auto_cleanup_limit } else { 50 }),
    {
        if self.config.auto_cleanup_limit < 50 {
            self.config.auto_cleanup_limit
        } else {
            50
        }
    }

    /// Reports a finished bulk restore.
    pub fn finish_restore_recent(&mut self, result: &CleanupResult)
        ensures
            *final(self) == (CleanerApp { status: final(self).status, ..*old(self) }),
            final(self).status@ == "Restore complete. restored:"@ + decimal(result.restored as nat)
                + " failed:"@ + decimal(result.failed as nat),
            final(self).history == old(self).history,
    {
        self.status = status_counts2("Restore complete. restored:", result.restored, " failed:", result.failed);
    }

    /// Reports a finished targeted restore.
    pub fn finish_restore_selected(&mut self, result: &CleanupResult)
        ensures
            *final(self) == (CleanerApp { status: final(self).status, ..*old(self) }),
            final(self).status@ == "Selected restore done. restored:"@ + decimal(
                result.restored as nat,
            ) + " failed:"@ + decimal(result.failed as nat),
            final(self).history == old(self).history,
    {
        self.status = status_counts2(
            "Selected restore done. restored:",
            result.restored,
            " failed:",
            result.failed,
        );
    }

    /// Puts the existing roots of a preset into the input; nothing changes
    /// when their joined text is empty.
    pub fn apply_root_values(&mut self, existing: &Vec<String>)
        ensures
            *final(self) == (CleanerApp { status: final(self).status, scan_roots_input: final(self).scan_roots_input, ..*old(self) }),
            joined(texts(existing@), "; "@).len() > 0 ==> final(self).scan_roots_input@ == joined(
                texts(existing@),
                "; "@,
            ) && final(self).status@ == "Root preset applied."@,
            joined(texts(existing@), "; "@).len() == 0 ==> final(self).scan_roots_input
                == old(self).scan_roots_input && final(self).status == old(self).status,
            final(self).history == old(self).history,
            final(self).config == old(self).config,
    {
        let values = join_roots(existing);
        let chars = to_chars(values.as_str());
        if chars.len() > 0 {
            self.scan_roots_input = values;
            self.status = copy_str("Root preset applied.");
        }
    }

    /// Keeps the selected quarantine item within the `pending` items shown.
    pub fn clamp_quarantine_selection(&mut self, pending: usize)
        ensures
            *final(self) == (CleanerApp { selected_quarantine_idx: final(self).selected_quarantine_idx, ..*old(self) }),
            final(self).selected_quarantine_idx == (if pending > 0 && old(self).selected_quarantine_idx
                > pending - 1 {
                (pending - 1) as usize
            } else {
                old(self).selected_quarantine_idx
            }),
            final(self).history == old(self).history,
            final(self).status == old(self).status,
    {
        if pending > 0 && self.selected_quarantine_idx > pending - 1 {
            self.selected_quarantine_idx = pending - 1;
        }
    }

    /// The newest `n` history entries, newest first.
    pub fn recent_history(&self, n: usize) -> (tail: Vec<HistoryEntry>)
        ensures
            tail@.len() == (if self.history@.len() < n { self.history@.len() } else { n as nat }),
            forall|i: int|
                0 <= i < tail@.len() ==> tail@[i] == self.history@[self.history@.len() - 1 - i],
    {
        let mut tail: Vec<HistoryEntry> = Vec::new();
        let len = self.history.len();
        while tail.len() < n && tail.len() < len
            invariant
                len == self.history@.len(),
                tail@.len() <= len,
                tail@.len() <= n,
                forall|i: int| 0 <= i < tail@.len() ==> tail@[i] == self.history@[len - 1 - i],
            decreases len - tail@.len(),
        {
            let k = len - 1 - tail.len();
            let e = copy_entry(&self.history[k]);
            tail.push(e);
        }
        tail
    }

    /// Forgets the history; the caller clears the history file.
    pub fn clear_history(&mut self)
        ensures
            *final(self) == (CleanerApp { status: final(self).status, history: final(self).history, ..*old(self) }),
            final(self).history@.len() == 0,
            final(self).status@ == "History cleared."@,
            final(self).scan_summary == old(self).scan_summary,
            final(self).health_report == old(self).health_report,
    {
        self.history = Vec::new();
        self.status = copy_str("History cleared.");
    }

    /// Number of candidates the next one-click cleanup would take.
    pub fn cleanup_preview_count(&self, present: &Vec<bool>) -> (n: usize)
        ensures
            n == match self.scan_summary {
                None => 0,
                Some(s) => cleanup_selection(
                    s,
                    self.config.auto_cleanup_limit,
                    texts(self.config.ignored_paths@),
                    texts(self.config.ignored_extensions@),
                    present@,
                ).len(),
            },
    {
        match &self.scan_summary {
            None => 0,
            Some(summary) => {
                let c = cleanup_candidates(
                    summary,
                    self.config.auto_cleanup_limit,
                    &self.config.ignored_paths,
                    &self.config.ignored_extensions,
                    present,
                );
                c.len()
            },
        }
    }

    /// The candidate list shown to the operator.
    pub fn filtered_candidates(&self) -> (rows: Vec<CandidateRow>)
        ensures
            is_candidate_listing(
                self.scan_summary,
                self.duplicate_sort,
                self.candidate_filter@,
                row_views(rows@),
            ),
    {
        let mut rows: Vec<CandidateRow> = Vec::new();
        match &self.scan_summary {
            None => {
                assert(row_views(rows@) =~= Seq::<RowView>::empty());
                rows
            },
            Some(summary) => {
                let fc = to_chars(self.candidate_filter.as_str());
                let f = lower_chars(&fc);
                let groups = &summary.duplicate_groups;
                let order = listing_order(groups, self.duplicate_sort);
                let mut j: usize = 0;
                assert(row_views(rows@) =~= dup_rows(groups@, order@, f@, 0));
                while j < order.len()
                    invariant
                        j <= order@.len(),
                        order@.len() == groups@.len(),
                        forall|k: int| 0 <= k < order@.len() ==> order@[k] < groups@.len(),
                        row_views(rows@) == dup_rows(groups@, order@, f@, j as int),
                    decreases order.len() - j,
                {
                    push_group_rows(&mut rows, &groups[order[j]], &f);
                    j = j + 1;
                }
                let ghost dups = row_views(rows@);
                let ls = &summary.leftovers;
                let mut i: usize = 0;
                assert(row_views(rows@) =~= dups + leftover_rows(ls@, f@, 0));
                while i < ls.len()
                    invariant
                        i <= ls@.len(),
                        row_views(rows@) == dups + leftover_rows(ls@, f@, i as int),
                    decreases ls.len() - i,
                {
                    let ghost prev = row_views(rows@);
                    let l = &ls[i];
                    if passes_filter_exec(&l.path, &f) {
                        let risk = leftover_risk_exec(&l.category);
                        rows.push(
                            CandidateRow {
                                path: l.path.clone(),
                                source: l.category.clone(),
                                reason: l.reason.clone(),
                                risk,
                            },
                        );
                        assert(row_views(rows@) =~= prev.push(
                            (l.path@, l.category@, l.reason@, leftover_risk(l.category@)),
                        ));
                    }
                    i = i + 1;
                    assert(row_views(rows@) =~= dups + leftover_rows(ls@, f@, i as int));
                }
                proof {
                    assert(is_listing_order(groups@, self.duplicate_sort, order@));
                }
                rows
            },
        }
    }

    /// Changes between the last two history entries: duplicate groups,
    /// leftover hits (each count taken as `i64` and subtracted with
    /// wrapping), and the wasted bytes of the older and the newer.
    pub fn snapshot_delta(&self) -> (r: Option<(i64, i64, u64, u64)>)
        ensures
            self.history@.len() < 2 ==> r is None,
            self.history@.len() >= 2 ==> {
                let last = self.history@[self.history@.len() - 1];
                let prev = self.history@[self.history@.len() - 2];
                r == Some(
                    (
                        (last.duplicate_groups as i64).wrapping_sub(prev.duplicate_groups as i64),
                        (last.leftover_hits as i64).wrapping_sub(prev.leftover_hits as i64),
                        prev.duplicate_waste_bytes,
                        last.duplicate_waste_bytes,
                    ),
                )
            },
    {
        let n = self.history.len();
        if n < 2 {
            return None;
        }
        let last = &self.history[n - 1];
        let prev = &self.history[n - 2];
        let lg: i64 = #[verifier::truncate] (last.duplicate_groups as i64);
        let pg: i64 = #[verifier::truncate] (prev.duplicate_groups as i64);
        let ll: i64 = #[verifier::truncate] (last.leftover_hits as i64);
        let pl: i64 = #[verifier::truncate] (prev.leftover_hits as i64);
        Some((lg.wrapping_sub(pg), ll.wrapping_sub(pl), prev.duplicate_waste_bytes, last.duplicate_waste_bytes))
    }
}

proof fn lemma_nonempty_trimmed_agree(a: Seq<Seq<char>>, b: Seq<Seq<char>>, n: int)
    requires
        0 <= n <= a.len(),
        n <= b.len(),
        forall|k: int| 0 <= k < n ==> a[k] == b[k],
    ensures
        nonempty_trimmed(a, n) == nonempty_trimmed(b, n),
    decreases n,
{
    if n > 0 {
        lemma_nonempty_trimmed_agree(a, b, n - 1);
    }
}

} // verus!
