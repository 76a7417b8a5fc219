use universal_bookmarks::updater::{cache_dir_location, CacheDirLocation, DEFAULT_BUNDLE_ID};
use universal_bookmarks::updater::{
    arch_from_lipo, extract_json_string, find_workflow_asset, is_newer, latest_release_api_url,
    log_line, log_needs_truncation, outcome_message, parse_last_check, proxy_value,
    release_from_response, select_workflow_asset, truncated_log, update_step_next, LatestRelease,
    UpdateAction, UpdateError, UpdateEvent, UpdateMode, UpdateOutcome, UpdateState, FREQUENCY_DAYS,
    MAX_LOG_BYTES, REPO, SECONDS_PER_DAY,
};

const RELEASE: &str = r#"{
  "tag_name": "v1.1.0",
  "assets": [
    {"name": "a", "browser_download_url": "https://dl.example/UB-arm64.alfredworkflow"},
    {"name": "b", "browser_download_url": "https://dl.example/UB-amd64.alfredworkflow"},
    {"name": "c", "browser_download_url": "https://dl.example/notes.txt"}
  ]
}"#;

#[test]
fn newer_versions() {
    assert!(is_newer("1.2.0", "1.1.9"));
    assert!(is_newer("1.10.0", "1.9.0"));
    assert!(is_newer("1.2.0", "1.2"));
    assert!(!is_newer("1.2", "1.2.0"));
    assert!(!is_newer("1.0.0", "1.0.0"));
    assert!(!is_newer("1.0.0", "1.0.1"));
    // A part that is not a number counts as 0.
    assert!(!is_newer("v1.0", "0.9"));
    assert!(is_newer("2.x", "1.9"));
}

#[test]
fn newer_is_strict() {
    for (a, b) in [("1.0", "0.9"), ("0.9", "1.0"), ("3", "3")] {
        assert!(!(is_newer(a, b) && is_newer(b, a)));
        assert!(!is_newer(a, a));
    }
}

#[test]
fn json_string_values() {
    assert_eq!(extract_json_string(RELEASE, "tag_name"), Some("v1.1.0".to_string()));
    assert_eq!(extract_json_string(r#"{"k" :	"v"}"#, "k"), Some("v".to_string()));
    assert_eq!(extract_json_string(r#"{"k": ""}"#, "k"), Some(String::new()));
    assert_eq!(extract_json_string(r#"{"k": 5}"#, "k"), None);
    assert_eq!(extract_json_string(r#"{"k" "v"}"#, "k"), None);
    assert_eq!(extract_json_string(r#"{"k": "unterminated"#, "k"), None);
    assert_eq!(extract_json_string(r#"{"other": "v"}"#, "k"), None);
    // Occurrences of the key that are not followed by a string value are passed over.
    assert_eq!(extract_json_string(r#"{"k": 1, "k": "v"}"#, "k"), Some("v".to_string()));
    assert_eq!(
        extract_json_string(r#"{"name": "tag_name", "tag_name": "v2"}"#, "tag_name"),
        Some("v2".to_string())
    );
}

#[test]
fn workflow_asset_by_arch() {
    assert_eq!(find_workflow_asset(RELEASE, "amd64"), Some("https://dl.example/UB-amd64.alfredworkflow".to_string()));
    assert_eq!(find_workflow_asset(RELEASE, "arm64"), Some("https://dl.example/UB-arm64.alfredworkflow".to_string()));
    // No package names the architecture: the first package is taken.
    assert_eq!(find_workflow_asset(RELEASE, "universal"), Some("https://dl.example/UB-arm64.alfredworkflow".to_string()));
    assert_eq!(find_workflow_asset(r#"{"assets": [{"browser_download_url": "https://x/notes.txt"}]}"#, "arm64"), None);
    assert_eq!(find_workflow_asset("{}", "arm64"), None);
}

#[test]
fn lipo_architectures() {
    assert_eq!(arch_from_lipo("x86_64 arm64"), "universal");
    assert_eq!(arch_from_lipo("arm64"), "arm64");
    assert_eq!(arch_from_lipo("x86_64"), "amd64");
    assert_eq!(arch_from_lipo("i386"), "unknown");
    assert_eq!(arch_from_lipo(""), "unknown");
}

#[test]
fn api_url() {
    assert_eq!(REPO, "we11adam/alfred-universal-bookmarks");
    assert_eq!(latest_release_api_url(), "https://api.github.com/repos/we11adam/alfred-universal-bookmarks/releases/latest");
}

#[test]
fn releases_from_responses() {
    assert_eq!(release_from_response(None), Err(UpdateError::Network));
    assert_eq!(release_from_response(Some("{}".to_string())), Err(UpdateError::ParseResponse));
    let r = release_from_response(Some(r#"{"tag_name": "vv1.4.0"}"#.to_string())).ok().unwrap();
    assert_eq!(r.version, "1.4.0");
    assert_eq!(r.json, r#"{"tag_name": "vv1.4.0"}"#);
    let r = release_from_response(Some(r#"{"tag_name": "2.0"}"#.to_string())).ok().unwrap();
    assert_eq!(r.version, "2.0");
}

#[test]
fn selected_assets() {
    let a = select_workflow_asset(RELEASE, "arm64".to_string()).ok().unwrap();
    assert_eq!(a.arch, "arm64");
    assert_eq!(a.download_url, "https://dl.example/UB-arm64.alfredworkflow");
    assert!(matches!(select_workflow_asset("{}", "arm64".to_string()), Err(UpdateError::NoAsset)));
}

#[test]
fn last_check_contents() {
    assert_eq!(parse_last_check(" 1700000000\n"), Some(1700000000));
    assert_eq!(parse_last_check("+12"), Some(12));
    assert_eq!(parse_last_check("abc"), None);
    assert_eq!(parse_last_check(""), None);
    assert_eq!(parse_last_check("18446744073709551616"), None);
}

fn step(mode: UpdateMode, state: UpdateState, event: UpdateEvent) -> (UpdateState, UpdateAction) {
    update_step_next(mode, "1.0.0", state, event)
}

fn release(tag: &str) -> String {
    format!(r#"{{"tag_name": "{}", "assets": [{{"browser_download_url": "https://dl.example/UB-arm64.alfredworkflow"}}]}}"#, tag)
}

#[test]
fn background_run_to_install() {
    let bg = UpdateMode::Background;
    assert_eq!(step(bg, UpdateState::Start, UpdateEvent::Begin), (UpdateState::CheckingDev, UpdateAction::CheckDevCheckout));
    assert_eq!(step(bg, UpdateState::CheckingDev, UpdateEvent::DevCheckout(false)), (UpdateState::CreatingDir, UpdateAction::CreateCacheDir));
    assert_eq!(step(bg, UpdateState::CreatingDir, UpdateEvent::CacheDirCreated(true)), (UpdateState::ReadingClock, UpdateAction::ReadClock));
    assert_eq!(step(bg, UpdateState::ReadingClock, UpdateEvent::Clock(864000)), (UpdateState::ReadingLastCheck { now: 864000 }, UpdateAction::ReadLastCheck));
    assert_eq!(
        step(bg, UpdateState::ReadingLastCheck { now: 864000 }, UpdateEvent::LastCheckRead(Some("0".to_string()))),
        (UpdateState::RecordingBeforeFetch, UpdateAction::RecordCheck(864000))
    );
    assert_eq!(step(bg, UpdateState::RecordingBeforeFetch, UpdateEvent::CheckRecorded), (UpdateState::Fetching, UpdateAction::FetchRelease));
    let json = release("v1.1.0");
    let (s, a) = step(bg, UpdateState::Fetching, UpdateEvent::ReleaseFetched(Some(json.clone())));
    assert_eq!(s, UpdateState::DetectingArch { release: LatestRelease { json: json.clone(), version: "1.1.0".to_string() } });
    assert_eq!(a, UpdateAction::DetectArch);
    let (s, a) = step(bg, s, UpdateEvent::ArchDetected(Some("arm64".to_string())));
    assert_eq!(s, UpdateState::Downloading { remote: "1.1.0".to_string() });
    assert_eq!(a, UpdateAction::Download("https://dl.example/UB-arm64.alfredworkflow".to_string()));
    let (s, a) = step(bg, s, UpdateEvent::Downloaded(Ok(())));
    assert_eq!(s, UpdateState::Opening { remote: "1.1.0".to_string() });
    assert_eq!(a, UpdateAction::OpenInstaller);
    let (s, a) = step(bg, s, UpdateEvent::InstallerOpened(true));
    assert_eq!(s, UpdateState::Done);
    assert_eq!(a, UpdateAction::Finish(UpdateOutcome::Installed { remote: "1.1.0".to_string() }));
}

#[test]
fn background_frequency_gate() {
    let bg = UpdateMode::Background;
    let now = 3 * SECONDS_PER_DAY;
    assert_eq!(
        step(bg, UpdateState::ReadingLastCheck { now }, UpdateEvent::LastCheckRead(Some("0\n".to_string()))),
        (UpdateState::Done, UpdateAction::Finish(UpdateOutcome::NotDue { last_check: 0, now }))
    );
    let seven = FREQUENCY_DAYS * SECONDS_PER_DAY;
    assert_eq!(
        step(bg, UpdateState::ReadingLastCheck { now: seven }, UpdateEvent::LastCheckRead(Some("0".to_string()))),
        (UpdateState::RecordingBeforeFetch, UpdateAction::RecordCheck(seven))
    );
    assert_eq!(
        step(bg, UpdateState::ReadingLastCheck { now: 5 }, UpdateEvent::LastCheckRead(None)),
        (UpdateState::RecordingBeforeFetch, UpdateAction::RecordCheck(5))
    );
    assert_eq!(
        step(bg, UpdateState::ReadingLastCheck { now: 5 }, UpdateEvent::LastCheckRead(Some("never".to_string()))),
        (UpdateState::RecordingBeforeFetch, UpdateAction::RecordCheck(5))
    );
    // A recorded time after now wraps around and counts as long ago.
    assert_eq!(
        step(bg, UpdateState::ReadingLastCheck { now: 10 }, UpdateEvent::LastCheckRead(Some("100".to_string()))),
        (UpdateState::RecordingBeforeFetch, UpdateAction::RecordCheck(10))
    );
}

#[test]
fn background_endings() {
    let bg = UpdateMode::Background;
    assert_eq!(step(bg, UpdateState::CheckingDev, UpdateEvent::DevCheckout(true)), (UpdateState::Done, UpdateAction::Finish(UpdateOutcome::DevelopmentCheckout)));
    assert_eq!(step(bg, UpdateState::CreatingDir, UpdateEvent::CacheDirCreated(false)), (UpdateState::Done, UpdateAction::Finish(UpdateOutcome::CacheDirFailed)));
    assert_eq!(step(bg, UpdateState::Fetching, UpdateEvent::ReleaseFetched(None)), (UpdateState::Done, UpdateAction::Finish(UpdateOutcome::NetworkError)));
    assert_eq!(step(bg, UpdateState::Fetching, UpdateEvent::ReleaseFetched(Some("{}".to_string()))), (UpdateState::Done, UpdateAction::Finish(UpdateOutcome::ParseError)));
    assert_eq!(step(bg, UpdateState::Fetching, UpdateEvent::ReleaseFetched(Some(release("v1.0.0")))), (UpdateState::Done, UpdateAction::Finish(UpdateOutcome::UpToDate)));
    assert_eq!(
        step(bg, UpdateState::Fetching, UpdateEvent::ReleaseFetched(Some(release("0.9.0")))),
        (UpdateState::Done, UpdateAction::Finish(UpdateOutcome::LocalNewer { remote: "0.9.0".to_string() }))
    );
    let no_asset = LatestRelease { json: r#"{"tag_name": "v2.0.0"}"#.to_string(), version: "2.0.0".to_string() };
    assert_eq!(
        step(bg, UpdateState::DetectingArch { release: no_asset }, UpdateEvent::ArchDetected(None)),
        (UpdateState::Done, UpdateAction::Finish(UpdateOutcome::NoAsset { remote: "2.0.0".to_string() }))
    );
    assert_eq!(
        step(bg, UpdateState::Downloading { remote: "2.0.0".to_string() }, UpdateEvent::Downloaded(Err("curl exited".to_string()))),
        (UpdateState::Done, UpdateAction::Finish(UpdateOutcome::DownloadFailed { remote: "2.0.0".to_string(), error: "curl exited".to_string() }))
    );
    assert_eq!(
        step(bg, UpdateState::Opening { remote: "2.0.0".to_string() }, UpdateEvent::InstallerOpened(false)),
        (UpdateState::Done, UpdateAction::Finish(UpdateOutcome::OpenFailed { remote: "2.0.0".to_string() }))
    );
    assert_eq!(step(bg, UpdateState::Start, UpdateEvent::Clock(1)), (UpdateState::Done, UpdateAction::Finish(UpdateOutcome::Interrupted)));
    assert_eq!(step(bg, UpdateState::Done, UpdateEvent::Begin), (UpdateState::Done, UpdateAction::Finish(UpdateOutcome::Interrupted)));
}

#[test]
fn immediate_run_records_after_fetch() {
    let now_mode = UpdateMode::Immediate;
    assert_eq!(step(now_mode, UpdateState::CreatingDir, UpdateEvent::CacheDirCreated(false)), (UpdateState::Fetching, UpdateAction::FetchRelease));
    let json = release("v1.0.0");
    let rel = LatestRelease { json: json.clone(), version: "1.0.0".to_string() };
    assert_eq!(
        step(now_mode, UpdateState::Fetching, UpdateEvent::ReleaseFetched(Some(json.clone()))),
        (UpdateState::ClockAfterFetch { release: LatestRelease { json: json.clone(), version: "1.0.0".to_string() } }, UpdateAction::ReadClock)
    );
    assert_eq!(
        step(now_mode, UpdateState::ClockAfterFetch { release: rel }, UpdateEvent::Clock(42)),
        (UpdateState::RecordingAfterFetch { release: LatestRelease { json: json.clone(), version: "1.0.0".to_string() } }, UpdateAction::RecordCheck(42))
    );
    let rel = LatestRelease { json, version: "1.0.0".to_string() };
    assert_eq!(
        step(now_mode, UpdateState::RecordingAfterFetch { release: rel }, UpdateEvent::CheckRecorded),
        (UpdateState::Done, UpdateAction::Finish(UpdateOutcome::UpToDate))
    );
}

#[test]
fn outcome_messages() {
    let m = |o: UpdateOutcome| outcome_message("1.0.0", &o);
    assert_eq!(m(UpdateOutcome::DevelopmentCheckout), "Development mode – update skipped");
    assert_eq!(m(UpdateOutcome::NetworkError), "Update check failed – network error");
    assert_eq!(m(UpdateOutcome::ParseError), "Update check failed – could not parse response");
    assert_eq!(m(UpdateOutcome::UpToDate), "v1.0.0 is the latest version");
    assert_eq!(m(UpdateOutcome::LocalNewer { remote: "0.9".to_string() }), "v1.0.0 is the latest version");
    assert_eq!(m(UpdateOutcome::NoAsset { remote: "1.1.0".to_string() }), "v1.1.0 is available but no asset was found");
    assert_eq!(
        m(UpdateOutcome::DownloadFailed { remote: "1.1.0".to_string(), error: "boom".to_string() }),
        "Update download failed: boom"
    );
    assert_eq!(m(UpdateOutcome::Installed { remote: "1.1.0".to_string() }), "Installing v1.1.0 – Alfred will prompt to import");
    assert_eq!(m(UpdateOutcome::OpenFailed { remote: "1.1.0".to_string() }), "Downloaded v1.1.0 but failed to open installer");
    assert_eq!(m(UpdateOutcome::Interrupted), "Update check failed");
    assert_eq!(m(UpdateOutcome::CacheDirFailed), "Update check failed");
}

#[test]
fn log_helpers() {
    assert_eq!(MAX_LOG_BYTES, 512 * 1024);
    assert!(!log_needs_truncation(MAX_LOG_BYTES));
    assert!(log_needs_truncation(MAX_LOG_BYTES + 1));
    assert_eq!(truncated_log(&[1, 2, 3, 4, 5]), vec![3, 4, 5]);
    assert_eq!(truncated_log(&[1, 2, 3, 4]), vec![3, 4]);
    assert!(truncated_log(&[]).is_empty());
    assert_eq!(log_line("2024-01-01 00:00:00", "hello"), "[2024-01-01 00:00:00] hello");
}

#[test]
fn proxy_values() {
    assert_eq!(proxy_value("  http://proxy:8080 \n"), Some("http://proxy:8080".to_string()));
    assert_eq!(proxy_value("   "), None);
    assert_eq!(proxy_value(""), None);
}

#[test]
fn cache_dir_locations() {
    assert_eq!(
        cache_dir_location(Some("/alfred/cache".into()), Some("/Users/me".into()), None),
        CacheDirLocation::Given("/alfred/cache".into())
    );
    assert_eq!(
        cache_dir_location(None, Some("/Users/me".into()), Some("com.x.y".into())),
        CacheDirLocation::UnderHome { home: "/Users/me".into(), bundle_id: "com.x.y".into() }
    );
    assert_eq!(
        cache_dir_location(None, None, None),
        CacheDirLocation::UnderHome { home: "/tmp".into(), bundle_id: DEFAULT_BUNDLE_ID.into() }
    );
    assert_eq!(DEFAULT_BUNDLE_ID, "com.welladam.universalbookmarks");
}
