use postgresql_archive::error::ArchiveError;
use postgresql_archive::resolve::{find_assets, select_release, Asset, Release};
use postgresql_archive::version::Version;

fn release(tag: &str, asset_names: &[&str]) -> Release {
    let assets = asset_names
        .iter()
        .map(|n| Asset {
            name: n.to_string(),
            download_location: format!("https://example.com/download/{n}"),
        })
        .collect();
    Release { tag: tag.to_string(), assets }
}

fn listing() -> Vec<Release> {
    vec![release("16.0.0", &[]), release("16.1.0", &[]), release("16.2.0", &[])]
}

#[test]
fn test_get_release() {
    let releases = listing();
    let version = Version::new(16, Some(1), Some(0));
    let selected = select_release(&releases, &version).unwrap();
    assert_eq!("16.1.0", selected.tag);
}

#[test]
fn test_get_release_version_not_found() {
    let releases = listing();
    let version = Version::new(1, Some(0), Some(0));
    let result = select_release(&releases, &version);
    assert!(result.is_err());
    match result {
        Err(ArchiveError::ReleaseNotFound(requested)) => assert_eq!("1.0.0", requested),
        other => panic!("unexpected result: {other:?}"),
    }
}

#[test]
fn test_select_from_empty_listing_fails() {
    let releases: Vec<Release> = Vec::new();
    let constraint = Version::new(16, None, None);
    assert!(matches!(
        select_release(&releases, &constraint),
        Err(ArchiveError::ReleaseNotFound(_))
    ));
}

#[test]
fn test_select_highest_matching() {
    let releases = listing();
    let constraint = Version::new(16, None, None);
    let selected = select_release(&releases, &constraint).unwrap();
    assert_eq!("16.2.0", selected.tag);
}

#[test]
fn test_select_bad_tag_is_hard_error() {
    let releases = vec![release("16.0.0", &[]), release("not-a-version", &[])];
    let constraint = Version::new(16, None, None);
    match select_release(&releases, &constraint) {
        Err(ArchiveError::Unexpected(tag)) => assert_eq!("not-a-version", tag),
        other => panic!("unexpected result: {other:?}"),
    }
}

#[test]
fn test_get_asset() {
    let target_triple = "x86_64-unknown-linux-musl".to_string();
    let archive_name = "postgresql-16.1.0-x86_64-unknown-linux-musl.tar.gz";
    let hash_name = "postgresql-16.1.0-x86_64-unknown-linux-musl.tar.gz.sha256";
    let rel = release("16.1.0", &["other.txt", archive_name, hash_name]);
    let version = Version::new(16, Some(1), Some(0));
    let (asset_version, asset, asset_hash) = find_assets(&rel, &target_triple).unwrap();
    assert!(asset_version.matches(&version));
    assert!(asset.name.contains(&target_triple));
    assert!(asset_hash.name.contains(&target_triple));
    assert!(asset_hash.name.starts_with(asset.name.as_str()));
    assert!(asset_hash.name.ends_with(".sha256"));
}

#[test]
fn test_get_asset_version_not_found() {
    let target_triple = "x86_64-unknown-linux-musl".to_string();
    let releases = listing();
    let version = Version::new(1, Some(0), Some(0));
    let result = select_release(&releases, &version);
    assert!(result.is_err());
    drop(target_triple);
}

#[test]
fn test_get_asset_target_not_found() {
    let target_triple = "wasm64-unknown-unknown".to_string();
    let archive_name = "postgresql-16.1.0-x86_64-unknown-linux-musl.tar.gz";
    let hash_name = "postgresql-16.1.0-x86_64-unknown-linux-musl.tar.gz.sha256";
    let rel = release("16.1.0", &[archive_name, hash_name]);
    let result = find_assets(&rel, &target_triple);
    assert!(result.is_err());
    match result {
        Err(ArchiveError::AssetNotFound(expected)) => {
            assert_eq!("postgresql-16.1.0-wasm64-unknown-unknown.tar.gz", expected)
        },
        other => panic!("unexpected result: {other:?}"),
    }
}

#[test]
fn test_get_asset_missing_hash_companion() {
    let archive_name = "postgresql-16.1.0-x86_64-unknown-linux-musl.tar.gz";
    let rel = release("16.1.0", &[archive_name]);
    let result = find_assets(&rel, "x86_64-unknown-linux-musl");
    assert!(matches!(result, Err(ArchiveError::AssetNotFound(_))));
}
