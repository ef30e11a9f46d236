//! Where the cleaner keeps its data, and how the history is bounded.
//!
//! The data root (`%APPDATA%`, or the temporary folder) is read by the
//! caller, which also creates the folders and reads and writes the files.

use vstd::prelude::*;
use crate::models::HistoryEntry;
use crate::paths::{join, join_exec};

verus! {

/// Number of history entries kept.
pub const HISTORY_CAP: usize = 300;

pub open spec fn app_data_dir_spec(root: Seq<char>) -> Seq<char> {
    join(root, "NexusPcCleaner"@)
}

/// The cleaner's data folder under the data root.
pub fn app_data_dir(root: &str) -> (dir: String)
    ensures
        dir@ == app_data_dir_spec(root@),
{
    join_exec(root, "NexusPcCleaner")
}

/// The quarantine folder.
pub fn quarantine_dir(root: &str) -> (dir: String)
    ensures
        dir@ == join(app_data_dir_spec(root@), "quarantine"@),
{
    let base = app_data_dir(root);
    join_exec(base.as_str(), "quarantine")
}

/// The configuration file.
pub fn config_file(root: &str) -> (file: String)
    ensures
        file@ == join(app_data_dir_spec(root@), "config.json"@),
{
    let base = app_data_dir(root);
    join_exec(base.as_str(), "config.json")
}

/// The history file.
pub fn history_file(root: &str) -> (file: String)
    ensures
        file@ == join(app_data_dir_spec(root@), "history.json"@),
{
    let base = app_data_dir(root);
    join_exec(base.as_str(), "history.json")
}

/// The quarantine index file.
pub fn quarantine_index_file(root: &str) -> (file: String)
    ensures
        file@ == join(app_data_dir_spec(root@), "quarantine_index.json"@),
{
    let base = app_data_dir(root);
    join_exec(base.as_str(), "quarantine_index.json")
}

/// The folder downloaded updates go to.
pub fn updates_dir(root: &str) -> (dir: String)
    ensures
        dir@ == join(app_data_dir_spec(root@), "updates"@),
{
    let base = app_data_dir(root);
    join_exec(base.as_str(), "updates")
}

/// `items` with `entry` appended, keeping only the newest `HISTORY_CAP`.
pub open spec fn capped_history(items: Seq<HistoryEntry>, entry: HistoryEntry) -> Seq<HistoryEntry> {
    let s = items.push(entry);
    if s.len() > HISTORY_CAP {
        s.subrange(s.len() - HISTORY_CAP, s.len() as int)
    } else {
        s
    }
}

/// Appends a history entry, dropping the oldest beyond `HISTORY_CAP`.
pub fn push_history_capped(items: &mut Vec<HistoryEntry>, entry: HistoryEntry)
    ensures
        final(items)@ == capped_history(old(items)@, entry),
{
    items.push(entry);
    if items.len() > HISTORY_CAP {
        let start = items.len() - HISTORY_CAP;
        let tail = items.split_off(start);
        *items = tail;
    }
}

} // verus!
