use boilmaster::claims::{Claim, Claims};
use boilmaster::version::patcher::{check_content_length, should_fetch_patch, PatchFile, PatchFileError};
use boilmaster::version::thaliak::{repository_step, RepositoryData};
use boilmaster::version::Patch;

fn patch(name: &str, path: &str) -> Patch {
    Patch { name: name.to_string(), path: path.to_string() }
}

#[test]
fn missing_patch_is_fetched() {
    assert_eq!(should_fetch_patch(PatchFile::Missing, 10), Ok(true));
}

#[test]
fn partial_patch_is_fetched_again() {
    assert_eq!(should_fetch_patch(PatchFile::File(9), 10), Ok(true));
    assert_eq!(should_fetch_patch(PatchFile::File(10), 10), Ok(false));
}

#[test]
fn directory_in_place_of_patch_is_an_error() {
    assert_eq!(should_fetch_patch(PatchFile::NotAFile, 10), Err(PatchFileError::NotAFile));
}

#[test]
fn content_length_is_checked() {
    assert_eq!(check_content_length(Some(1024), 1024, "http://patch/a.patch"), Ok(()));
    assert_eq!(
        check_content_length(None, 1024, "http://patch/a.patch"),
        Err("no content-length supplied for http://patch/a.patch".to_string())
    );
    assert_eq!(
        check_content_length(Some(7), 1024, "http://patch/a.patch"),
        Err("unexpected content-length: expected 1024, got 7".to_string())
    );
}

#[test]
fn first_claim_fetches_and_later_claims_wait() {
    let mut states: Claims<Patch> = Claims::new();
    assert_eq!(states.claim("game/D2023.01.01.0000.0000.patch"), Claim::Fetch);
    assert_eq!(states.claim("game/D2023.01.01.0000.0000.patch"), Claim::Wait);
    assert_eq!(states.claim("game/H2023.01.01.0000.0000.patch"), Claim::Fetch);
    assert!(states.get("game/D2023.01.01.0000.0000.patch").is_none());
}

#[test]
fn completed_patch_is_used() {
    let mut states: Claims<Patch> = Claims::new();
    assert_eq!(states.claim("game/a.patch"), Claim::Fetch);
    states.fill("game/a.patch", patch("a", "/patches/game/a.patch"));
    assert_eq!(states.claim("game/a.patch"), Claim::Ready);
    let found = states.get("game/a.patch").unwrap();
    assert_eq!(found.name, "a");
    assert_eq!(found.path, "/patches/game/a.patch");
    // Other paths are still unclaimed.
    assert_eq!(states.claim("game/b.patch"), Claim::Fetch);
}

fn repository(latest: &str) -> RepositoryData {
    RepositoryData { latest_version: latest.to_string(), versions: vec![] }
}

#[test]
fn repository_data_is_cached_until_bypassed() {
    let mut cache: Claims<RepositoryData> = Claims::new();
    assert_eq!(repository_step(&mut cache, "ffxiv", false), Claim::Fetch);
    assert_eq!(repository_step(&mut cache, "ffxiv", false), Claim::Wait);
    cache.fill("ffxiv", repository("2023.01.01"));
    assert_eq!(repository_step(&mut cache, "ffxiv", false), Claim::Ready);
    assert_eq!(cache.get("ffxiv").unwrap().latest_version, "2023.01.01");
    // Bypassing drops the cached data and fetches afresh.
    assert_eq!(repository_step(&mut cache, "ffxiv", true), Claim::Fetch);
    assert!(cache.get("ffxiv").is_none());
    cache.forget("ffxiv");
    assert_eq!(cache.claim("ffxiv"), Claim::Fetch);
}
