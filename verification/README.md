# PC Health Cleaner (Nexus Control Panel)

A desktop cleaner and health checker: it finds duplicate files (size
bucketing, then BLAKE3 content hashes), leftovers of installs, extractions
and edits, scores the machine's health and the integrity of files, and
quarantines, deletes or restores what the operator picks.

The decisions are a library verified with Verus; the window and everything
that touches the disk, the network or the machine stay outside it.

## Layout

- `src/` — the verified library.
  - `text.rs`, `paths.rs`, `order.rs`: texts as character sequences, paths
    split at `/` and `\`, and stable orderings as index permutations.
  - `models.rs`: the records exchanged by the parts below.
  - `scanner.rs`: leftover detection, the extension breakdown, which files
    to hash, duplicate grouping, ignore rules and cleanup candidates.
  - `cleanup.rs`: quarantine names, cleanup batch bookkeeping, restore
    plans and the quarantine index.
  - `health.rs`, `integrity.rs`: scores, issues and reports.
  - `updater.rs`: version comparison, release selection, installer script.
  - `storage.rs`: data locations and the bounded history.
  - `clock.rs`: clock readings and the whole minutes since a stored time
    stamp.
  - `control.rs`: the control panel's state and the decisions of its
    buttons.
  - `laws.rs`: properties that span several operations.
- `tests/` — tests on concrete values.
- `app/` — the eframe window, file and machine probing, downloads, and the
  serde copies of the records for storage and export.

## Local data

- `%APPDATA%/NexusPcCleaner/config.json`
- `%APPDATA%/NexusPcCleaner/history.json`
- `%APPDATA%/NexusPcCleaner/quarantine/`
- `%APPDATA%/NexusPcCleaner/quarantine_index.json`
