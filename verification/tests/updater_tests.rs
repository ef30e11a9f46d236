use pc_health_cleaner::updater::{
    current_version, finish_update, is_packaged_exe_path, normalize_version, parse_version,
    plan_update, precheck_update, update_script, GitHubRelease, GitHubReleaseAsset, UpdateStatus,
};

fn asset(name: &str) -> GitHubReleaseAsset {
    GitHubReleaseAsset {
        name: name.to_string(),
        browser_download_url: format!("https://example.invalid/{}", name),
    }
}

fn release(tag: &str, assets: Vec<GitHubReleaseAsset>) -> GitHubRelease {
    GitHubRelease { tag_name: tag.to_string(), assets }
}

#[test]
fn tags_are_normalized() {
    assert_eq!(normalize_version("v1.2.3"), "1.2.3");
    assert_eq!(normalize_version("VV2.0.0 "), "2.0.0");
    assert_eq!(normalize_version("  1.0.0  "), "1.0.0");
    assert_eq!(normalize_version(""), "");
}

#[test]
fn versions_parse_with_semver() {
    assert_eq!(parse_version("v1.2.3").unwrap().text(), "1.2.3");
    assert!(parse_version("v1.2").is_none());
    assert!(parse_version("latest").is_none());
    assert_eq!(current_version("0.4.1").text(), "0.4.1");
    assert_eq!(current_version("not a version").text(), "0.0.0");
}

#[test]
fn packaged_builds_do_not_run_from_target() {
    assert!(is_packaged_exe_path("C:\\Program Files\\Nexus\\cleaner.exe"));
    assert!(!is_packaged_exe_path("C:\\src\\nexus\\Target\\Debug\\cleaner.exe"));
    assert!(!is_packaged_exe_path("C:\\src\\nexus\\target\\release\\cleaner.exe"));
    assert!(is_packaged_exe_path("/home/me/target/release/cleaner"));
}

#[test]
fn precheck_outside_packaged_builds_is_unavailable() {
    let r = precheck_update(true, false, None, false, None).unwrap();
    assert_eq!(r.status, UpdateStatus::Unavailable);
    assert_eq!(r.message, "Updates can only be checked from the packaged Windows build.");
}

#[test]
fn precheck_reports_a_pending_download() {
    let r = precheck_update(true, true, Some("U/x.exe".to_string()), true, Some("1.2.0".to_string()))
        .unwrap();
    assert_eq!(r.status, UpdateStatus::Downloaded);
    assert_eq!(r.message, "Update 1.2.0 is already downloaded and ready to install.");
    assert_eq!(r.downloaded_path, Some("U/x.exe".to_string()));
    let r = precheck_update(false, true, Some("U/x.exe".to_string()), true, None).unwrap();
    assert_eq!(r.message, "Update latest version is downloaded and waiting for restart.");
    assert_eq!(r.downloaded_version, Some("latest version".to_string()));
    assert!(precheck_update(true, true, Some("U/x.exe".to_string()), false, None).is_none());
    assert!(precheck_update(true, true, None, true, None).is_none());
}

#[test]
fn newer_release_with_installer_is_planned() {
    let current = current_version("1.0.0");
    let rel = release("v1.1.0", vec![asset("notes.txt"), asset("Cleaner-Setup.EXE"), asset("b.exe")]);
    let plan = plan_update(Ok(rel), &current).ok().unwrap();
    assert_eq!(plan.asset.name, "Cleaner-Setup.EXE");
    assert_eq!(plan.asset.browser_download_url, "https://example.invalid/Cleaner-Setup.EXE");
    assert_eq!(plan.version, "1.1.0");
}

#[test]
fn release_stage_errors_and_up_to_date() {
    let current = current_version("1.0.0");
    let r = plan_update(Err("network down".to_string()), &current).err().unwrap();
    assert_eq!(r.status, UpdateStatus::Error);
    assert_eq!(r.message, "network down");

    let r = plan_update(Ok(release("banana", vec![asset("a.exe")])), &current).err().unwrap();
    assert_eq!(r.status, UpdateStatus::Error);
    assert_eq!(r.message, "Invalid latest release version: banana");

    let r = plan_update(Ok(release("v1.0.0", vec![asset("a.exe")])), &current).err().unwrap();
    assert_eq!(r.status, UpdateStatus::UpToDate);
    assert_eq!(r.message, "You already have the latest build.");
    assert_eq!(r.downloaded_version, Some("1.0.0".to_string()));

    let r = plan_update(Ok(release("0.9.9", vec![asset("a.exe")])), &current).err().unwrap();
    assert_eq!(r.status, UpdateStatus::UpToDate);

    let r = plan_update(Ok(release("2.0.0", vec![asset("a.msi")])), &current).err().unwrap();
    assert_eq!(r.status, UpdateStatus::Error);
    assert_eq!(r.message, "Latest release is missing a Windows executable.");
}

#[test]
fn prerelease_is_older_than_release() {
    let current = current_version("1.0.0");
    let r = plan_update(Ok(release("1.0.0-beta.1", vec![asset("a.exe")])), &current).err().unwrap();
    assert_eq!(r.status, UpdateStatus::UpToDate);
}

#[test]
fn download_outcome_is_reported() {
    let r = finish_update(Ok(()), "U/app.exe".to_string(), "1.1.0".to_string());
    assert_eq!(r.status, UpdateStatus::Downloaded);
    assert_eq!(r.message, "Downloaded update 1.1.0. Restart to install it.");
    assert_eq!(r.downloaded_path, Some("U/app.exe".to_string()));
    let r = finish_update(Err("disk full".to_string()), "U/app.exe".to_string(), "1.1.0".to_string());
    assert_eq!(r.status, UpdateStatus::Error);
    assert_eq!(r.message, "disk full");
    assert_eq!(r.downloaded_path, None);
    assert_eq!(r.downloaded_version, Some("1.1.0".to_string()));
}

#[test]
fn install_script_copies_restarts_and_cleans_up() {
    let s = update_script("U\\new.exe", "C:\\App\\app.exe", "U\\go.cmd");
    let expected = "@echo off\r\nsetlocal\r\n:retry\r\ncopy /Y \"U\\new.exe\" \"C:\\App\\app.exe\" >nul 2>nul\r\nif errorlevel 1 (\r\n  timeout /t 1 /nobreak >nul\r\n  goto retry\r\n)\r\ndel /F /Q \"U\\new.exe\" >nul 2>nul\r\nstart \"\" \"C:\\App\\app.exe\"\r\ndel /F /Q \"U\\go.cmd\" >nul 2>nul";
    assert_eq!(s, expected);
}
