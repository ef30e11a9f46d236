//! Update decisions: when an update check can run, how release versions
//! compare, which release asset is the installer, and what the user is
//! told. Fetching the release list and downloading are the caller's work.

use vstd::prelude::*;
use crate::text::{
    to_chars, from_chars, trim, trim_chars, lower, lower_chars, ends_with_chars, contains_chars,
    copy_str, concat, concat3, contains, ends_with, decimal,
};

verus! {

/// Where an update check ended.
#[derive(Debug, Clone, Copy, PartialEq, Eq, Structural)]
pub enum UpdateStatus {
    UpToDate,
    Downloaded,
    Unavailable,
    Checking,
    Error,
}

/// The outcome of an update check.
#[derive(Debug, Clone)]
pub struct UpdateCheckResult {
    pub status: UpdateStatus,
    pub message: String,
    pub downloaded_path: Option<String>,
    pub downloaded_version: Option<String>,
}

/// One downloadable file of a release.
#[derive(Debug, Clone)]
pub struct GitHubReleaseAsset {
    pub name: String,
    pub browser_download_url: String,
}

/// The latest release as the release service describes it.
#[derive(Debug, Clone)]
pub struct GitHubRelease {
    pub tag_name: String,
    pub assets: Vec<GitHubReleaseAsset>,
}

// ---------------------------------------------------------------------------
// Versions
// ---------------------------------------------------------------------------

/// Drops every leading `v` or `V`.
pub open spec fn strip_v(s: Seq<char>) -> Seq<char>
    decreases s.len(),
{
    if s.len() > 0 && (s[0] == 'v' || s[0] == 'V') {
        strip_v(s.drop_first())
    } else {
        s
    }
}

/// A release tag without its `v` prefix and surrounding whitespace.
pub open spec fn normalize_version_spec(s: Seq<char>) -> Seq<char> {
    trim(strip_v(s))
}

proof fn lemma_strip_v_skip(s: Seq<char>, i: int)
    requires
        0 <= i <= s.len(),
        forall|k: int| 0 <= k < i ==> s[k] == 'v' || s[k] == 'V',
    ensures
        strip_v(s) == strip_v(s.subrange(i, s.len() as int)),
    decreases i,
{
    if i > 0 {
        assert(s.drop_first().subrange(i - 1, s.drop_first().len() as int) =~= s.subrange(
            i,
            s.len() as int,
        ));
        lemma_strip_v_skip(s.drop_first(), i - 1);
    } else {
        assert(s.subrange(0, s.len() as int) =~= s);
    }
}

/// `raw.trim_start_matches(['v', 'V']).trim()`.
pub fn normalize_version(raw: &str) -> (r: String)
    ensures
        r@ == normalize_version_spec(raw@),
{
    let v = to_chars(raw);
    let mut i: usize = 0;
    while i < v.len() && (v[i] == 'v' || v[i] == 'V')
        invariant
            i <= v@.len(),
            forall|k: int| 0 <= k < i ==> v@[k] == 'v' || v@[k] == 'V',
        decreases v.len() - i,
    {
        i = i + 1;
    }
    let mut rest: Vec<char> = Vec::new();
    let mut k: usize = i;
    while k < v.len()
        invariant
            i <= k <= v@.len(),
            rest@ == v@.subrange(i as int, k as int),
        decreases v.len() - k,
    {
        rest.push(v[k]);
        k = k + 1;
        assert(rest@ == v@.subrange(i as int, k as int));
    }
    proof {
        lemma_strip_v_skip(v@, i as int);
        let t = v@.subrange(i as int, v@.len() as int);
        if t.len() > 0 {
            assert(t[0] == v@[i as int]);
        }
        assert(strip_v(t) == t);
    }
    let t = trim_chars(&rest);
    from_chars(&t)
}

#[verifier::external_type_specification]
#[verifier::external_body]
pub struct ExSemverVersion(semver::Version);

/// A release version together with the text it was read from; the version
/// is always the one semver reads from that text.
pub struct ParsedVersion {
    text: String,
    version: semver::Version,
}

impl View for ParsedVersion {
    type V = Seq<char>;

    closed spec fn view(&self) -> Seq<char> {
        self.text@
    }
}

/// The text is a version that `semver::Version::parse` accepts.
pub uninterp spec fn semver_accepts(text: Seq<char>) -> bool;

/// The version read from `a` is no later, in semver order, than the one
/// read from `b`.
pub uninterp spec fn semver_not_newer(a: Seq<char>, b: Seq<char>) -> bool;

/// `semver::Version::parse`: a version exactly when the text is one.
#[verifier::external_body]
fn semver_parse(text: &str) -> (r: Option<ParsedVersion>)
    ensures
        r is Some <==> semver_accepts(text@),
        r matches Some(v) ==> v@ == text@,
{
    match semver::Version::parse(text) {
        Ok(version) => Some(ParsedVersion { text: text.to_string(), version }),
        Err(_) => None,
    }
}

/// `semver::Version::new(major, minor, patch)`, held with its text: a
/// version built that way has no pre-release or build part, so it writes
/// as the three numbers joined by dots.
#[verifier::external_body]
fn semver_new(major: u64, minor: u64, patch: u64) -> (r: ParsedVersion)
    ensures
        r@ == decimal(major as nat) + "."@ + decimal(minor as nat) + "."@ + decimal(patch as nat),
{
    let version = semver::Version::new(major, minor, patch);
    ParsedVersion { text: version.to_string(), version }
}

/// `a <= b` on `semver::Version` (major, minor, patch, pre-release, then
/// build metadata).
#[verifier::external_body]
fn semver_le(a: &ParsedVersion, b: &ParsedVersion) -> (r: bool)
    ensures
        r == semver_not_newer(a@, b@),
{
    a.version <= b.version
}

impl ParsedVersion {
    /// The text the version was read from.
    pub fn text(&self) -> (t: String)
        ensures
            t@ == self@,
    {
        self.text.clone()
    }
}

/// Reads a release version, after normalizing the tag.
pub fn parse_version(raw: &str) -> (r: Option<ParsedVersion>)
    ensures
        r is Some <==> semver_accepts(normalize_version_spec(raw@)),
        r matches Some(v) ==> v@ == normalize_version_spec(raw@),
{
    let n = normalize_version(raw);
    semver_parse(n.as_str())
}

/// The running build's version, from the package version text; `0.0.0`
/// when that does not read as a version.
pub fn current_version(package_version: &str) -> (v: ParsedVersion)
    ensures
        semver_accepts(package_version@) ==> v@ == package_version@,
        !semver_accepts(package_version@) ==> v@ == "0.0.0"@,
{
    match semver_parse(package_version) {
        Some(v) => v,
        None => {
            let v = semver_new(0, 0, 0);
            proof {
                reveal_strlit(".");
                reveal_strlit("0.0.0");
                assert(decimal(0) =~= seq!['0']);
                assert(v@ =~= "0.0.0"@);
            }
            v
        },
    }
}

// ---------------------------------------------------------------------------
// Packaged builds
// ---------------------------------------------------------------------------

/// A packaged build does not run from a cargo `target\debug` or
/// `target\release` folder.
pub open spec fn is_packaged_exe_spec(exe_path: Seq<char>) -> bool {
    !contains(lower(exe_path), "\\target\\debug\\"@) && !contains(
        lower(exe_path),
        "\\target\\release\\"@,
    )
}

/// Is this executable path that of a packaged build?
pub fn is_packaged_exe_path(exe_path: &str) -> (r: bool)
    ensures
        r == is_packaged_exe_spec(exe_path@),
{
    let p = to_chars(exe_path);
    let l = lower_chars(&p);
    let d = to_chars("\\target\\debug\\");
    let r = to_chars("\\target\\release\\");
    !contains_chars(&l, &d) && !contains_chars(&l, &r)
}

// ---------------------------------------------------------------------------
// The update check
// ---------------------------------------------------------------------------

/// The view of a check result: (status, message, downloaded path,
/// downloaded version).
pub open spec fn result_view(r: UpdateCheckResult) -> (UpdateStatus, Seq<char>, Option<Seq<char>>, Option<Seq<char>>) {
    (
        r.status,
        r.message@,
        match r.downloaded_path {
            Some(p) => Some(p@),
            None => None,
        },
        match r.downloaded_version {
            Some(v) => Some(v@),
            None => None,
        },
    )
}

pub open spec fn opt_view(o: Option<String>) -> Option<Seq<char>> {
    match o {
        Some(s) => Some(s@),
        None => None,
    }
}

/// The first stage of a check, before anything is fetched: unavailable
/// outside a packaged build; done when an update was already downloaded
/// and its file still exists; otherwise the release must be fetched.
pub open spec fn precheck_spec(
    manual: bool,
    packaged: bool,
    downloaded_path: Option<Seq<char>>,
    downloaded_exists: bool,
    downloaded_version: Option<Seq<char>>,
) -> Option<(UpdateStatus, Seq<char>, Option<Seq<char>>, Option<Seq<char>>)> {
    if !packaged {
        Some(
            (
                UpdateStatus::Unavailable,
                "Updates can only be checked from the packaged Windows build."@,
                downloaded_path,
                downloaded_version,
            ),
        )
    } else if downloaded_path is Some && downloaded_exists {
        let label = match downloaded_version {
            Some(v) => v,
            None => "latest version"@,
        };
        Some(
            (
                UpdateStatus::Downloaded,
                if manual {
                    "Update "@ + label + " is already downloaded and ready to install."@
                } else {
                    "Update "@ + label + " is downloaded and waiting for restart."@
                },
                downloaded_path,
                Some(label),
            ),
        )
    } else {
        None
    }
}

pub fn precheck_update(
    manual: bool,
    packaged: bool,
    downloaded_path: Option<String>,
    downloaded_exists: bool,
    downloaded_version: Option<String>,
) -> (r: Option<UpdateCheckResult>)
    ensures
        match r {
            Some(res) => precheck_spec(
                manual,
                packaged,
                opt_view(downloaded_path),
                downloaded_exists,
                opt_view(downloaded_version),
            ) == Some(result_view(res)),
            None => precheck_spec(
                manual,
                packaged,
                opt_view(downloaded_path),
                downloaded_exists,
                opt_view(downloaded_version),
            ) is None,
        },
{
    if !packaged {
        return Some(
            UpdateCheckResult {
                status: UpdateStatus::Unavailable,
                message: copy_str("Updates can only be checked from the packaged Windows build."),
                downloaded_path,
                downloaded_version,
            },
        );
    }
    match downloaded_path {
        Some(path) => {
            if downloaded_exists {
                let label = match downloaded_version {
                    Some(v) => v,
                    None => copy_str("latest version"),
                };
                let message = if manual {
                    concat3("Update ", label.as_str(), " is already downloaded and ready to install.")
                } else {
                    concat3("Update ", label.as_str(), " is downloaded and waiting for restart.")
                };
                Some(
                    UpdateCheckResult {
                        status: UpdateStatus::Downloaded,
                        message,
                        downloaded_path: Some(path),
                        downloaded_version: Some(label),
                    },
                )
            } else {
                None
            }
        },
        None => None,
    }
}

/// The first asset whose lower-cased name ends in `.exe`.
pub open spec fn installer_index(assets: Seq<GitHubReleaseAsset>, n: int) -> Option<int>
    decreases n,
{
    if n <= 0 {
        None
    } else {
        match installer_index(assets, n - 1) {
            Some(i) => Some(i),
            None => if ends_with(lower(assets[n - 1].name@), ".exe"@) {
                Some(n - 1)
            } else {
                None
            },
        }
    }
}

fn find_installer(assets: &Vec<GitHubReleaseAsset>) -> (r: Option<usize>)
    ensures
        match r {
            Some(i) => installer_index(assets@, assets@.len() as int) == Some(i as int) && i < assets@.len(),
            None => installer_index(assets@, assets@.len() as int) is None,
        },
{
    let suffix = to_chars(".exe");
    let mut i: usize = 0;
    while i < assets.len()
        invariant
            i <= assets@.len(),
            suffix@ == ".exe"@,
            installer_index(assets@, i as int) is None,
        decreases assets.len() - i,
    {
        let n = to_chars(assets[i].name.as_str());
        let l = lower_chars(&n);
        if ends_with_chars(&l, &suffix) {
            proof {
                lemma_installer_index_stays(assets@, i as int, assets@.len() as int);
            }
            return Some(i);
        }
        i = i + 1;
    }
    None
}

proof fn lemma_installer_index_stays(assets: Seq<GitHubReleaseAsset>, i: int, n: int)
    requires
        0 <= i < n <= assets.len(),
        installer_index(assets, i) is None,
        ends_with(lower(assets[i].name@), ".exe"@),
    ensures
        installer_index(assets, n) == Some(i),
    decreases n - i,
{
    if n > i + 1 {
        lemma_installer_index_stays(assets, i, n - 1);
    }
}

/// What to download: the installer asset and the release's version text.
pub struct UpdatePlan {
    pub asset: GitHubReleaseAsset,
    pub version: String,
}

/// The second stage, once the release was fetched (or failed to be): an
/// error when fetching failed or the tag is not a version; up to date when
/// the release is no newer than `current`; an error when the release has no
/// installer; otherwise the installer to download.
pub open spec fn release_stage_spec(
    release: Result<(Seq<char>, Seq<GitHubReleaseAsset>), Seq<char>>,
    current: Seq<char>,
) -> Result<(int, Seq<char>), (UpdateStatus, Seq<char>, Option<Seq<char>>, Option<Seq<char>>)> {
    match release {
        Err(e) => Err((UpdateStatus::Error, e, None, None)),
        Ok((tag, assets)) => {
            let raw = normalize_version_spec(tag);
            if !semver_accepts(normalize_version_spec(raw)) {
                Err((UpdateStatus::Error, "Invalid latest release version: "@ + tag, None, None))
            } else if semver_not_newer(normalize_version_spec(raw), current) {
                Err((UpdateStatus::UpToDate, "You already have the latest build."@, None, Some(raw)))
            } else {
                match installer_index(assets, assets.len() as int) {
                    None => Err(
                        (
                            UpdateStatus::Error,
                            "Latest release is missing a Windows executable."@,
                            None,
                            Some(raw),
                        ),
                    ),
                    Some(i) => Ok((i, raw)),
                }
            }
        },
    }
}

pub open spec fn release_view(r: Result<GitHubRelease, String>) -> Result<(Seq<char>, Seq<GitHubReleaseAsset>), Seq<char>> {
    match r {
        Ok(rel) => Ok((rel.tag_name@, rel.assets@)),
        Err(e) => Err(e@),
    }
}

pub fn plan_update(release: Result<GitHubRelease, String>, current: &ParsedVersion) -> (r: Result<UpdatePlan, UpdateCheckResult>)
    ensures
        match (r, release_stage_spec(release_view(release), current@)) {
            (Ok(plan), Ok((i, raw))) => {
                &&& release is Ok
                &&& 0 <= i < release->Ok_0.assets@.len()
                &&& plan.asset.name@ == release->Ok_0.assets@[i].name@
                &&& plan.asset.browser_download_url@ == release->Ok_0.assets@[i].browser_download_url@
                &&& plan.version@ == raw
            },
            (Err(res), Err(v)) => result_view(res) == v,
            _ => false,
        },
{
    match release {
        Err(e) => Err(
            UpdateCheckResult {
                status: UpdateStatus::Error,
                message: e,
                downloaded_path: None,
                downloaded_version: None,
            },
        ),
        Ok(rel) => {
            let raw = normalize_version(rel.tag_name.as_str());
            let latest = match parse_version(raw.as_str()) {
                Some(v) => v,
                None => {
                    return Err(
                        UpdateCheckResult {
                            status: UpdateStatus::Error,
                            message: concat("Invalid latest release version: ", rel.tag_name.as_str()),
                            downloaded_path: None,
                            downloaded_version: None,
                        },
                    );
                },
            };
            if semver_le(&latest, current) {
                return Err(
                    UpdateCheckResult {
                        status: UpdateStatus::UpToDate,
                        message: copy_str("You already have the latest build."),
                        downloaded_path: None,
                        downloaded_version: Some(raw),
                    },
                );
            }
            match find_installer(&rel.assets) {
                None => Err(
                    UpdateCheckResult {
                        status: UpdateStatus::Error,
                        message: copy_str("Latest release is missing a Windows executable."),
                        downloaded_path: None,
                        downloaded_version: Some(raw),
                    },
                ),
                Some(i) => {
                    let a = &rel.assets[i];
                    Ok(
                        UpdatePlan {
                            asset: GitHubReleaseAsset {
                                name: a.name.clone(),
                                browser_download_url: a.browser_download_url.clone(),
                            },
                            version: raw,
                        },
                    )
                },
            }
        },
    }
}

/// The last stage: the outcome of downloading the installer to
/// `update_path`.
pub fn finish_update(download: Result<(), String>, update_path: String, version: String) -> (r: UpdateCheckResult)
    ensures
        match download {
            Err(e) => result_view(r) == (UpdateStatus::Error, e@, None::<Seq<char>>, Some(version@)),
            Ok(()) => result_view(r) == (
                UpdateStatus::Downloaded,
                "Downloaded update "@ + version@ + ". Restart to install it."@,
                Some(update_path@),
                Some(version@),
            ),
        },
{
    match download {
        Err(e) => UpdateCheckResult {
            status: UpdateStatus::Error,
            message: e,
            downloaded_path: None,
            downloaded_version: Some(version),
        },
        Ok(()) => {
            let message = concat3("Downloaded update ", version.as_str(), ". Restart to install it.");
            UpdateCheckResult {
                status: UpdateStatus::Downloaded,
                message,
                downloaded_path: Some(update_path),
                downloaded_version: Some(version),
            }
        },
    }
}

// ---------------------------------------------------------------------------
// Installing
// ---------------------------------------------------------------------------

/// The installer script: copy the update over the running executable
/// (retrying while it is locked), delete the update, restart the cleaner and
/// delete the script itself.
pub open spec fn update_script_spec(update: Seq<char>, exe: Seq<char>, script: Seq<char>) -> Seq<char> {
    let qu = "\""@ + update + "\""@;
    let qe = "\""@ + exe + "\""@;
    let qs = "\""@ + script + "\""@;
    let nl = "\r\n"@;
    "@echo off"@ + nl + "setlocal"@ + nl + ":retry"@ + nl + "copy /Y "@ + qu + " "@ + qe
        + " >nul 2>nul"@ + nl + "if errorlevel 1 ("@ + nl + "  timeout /t 1 /nobreak >nul"@ + nl
        + "  goto retry"@ + nl + ")"@ + nl + "del /F /Q "@ + qu + " >nul 2>nul"@ + nl
        + "start \"\" "@ + qe + nl + "del /F /Q "@ + qs + " >nul 2>nul"@
}

fn quoted(s: &str) -> (r: String)
    ensures
        r@ == "\""@ + s@ + "\""@,
{
    concat3("\"", s, "\"")
}

fn append(acc: String, s: &str) -> (r: String)
    ensures
        r@ == acc@ + s@,
{
    concat(acc.as_str(), s)
}

/// The text of the installer script.
pub fn update_script(update_path: &str, exe_path: &str, script_path: &str) -> (script: String)
    ensures
        script@ == update_script_spec(update_path@, exe_path@, script_path@),
{
    let qu = quoted(update_path);
    let qe = quoted(exe_path);
    let qs = quoted(script_path);
    let nl = "\r\n";
    let mut s = copy_str("@echo off");
    s = append(s, nl);
    s = append(s, "setlocal");
    s = append(s, nl);
    s = append(s, ":retry");
    s = append(s, nl);
    s = append(s, "copy /Y ");
    s = append(s, qu.as_str());
    s = append(s, " ");
    s = append(s, qe.as_str());
    s = append(s, " >nul 2>nul");
    s = append(s, nl);
    s = append(s, "if errorlevel 1 (");
    s = append(s, nl);
    s = append(s, "  timeout /t 1 /nobreak >nul");
    s = append(s, nl);
    s = append(s, "  goto retry");
    s = append(s, nl);
    s = append(s, ")");
    s = append(s, nl);
    s = append(s, "del /F /Q ");
    s = append(s, qu.as_str());
    s = append(s, " >nul 2>nul");
    s = append(s, nl);
    s = append(s, "start \"\" ");
    s = append(s, qe.as_str());
    s = append(s, nl);
    s = append(s, "del /F /Q ");
    s = append(s, qs.as_str());
    s = append(s, " >nul 2>nul");
    s
}

} // verus!
