use postgresql_archive::error::ArchiveError;
use postgresql_archive::integrity::{check_digest, extract_hash, find_hex_token};

const TOKEN: &str = "9af1652d5f6f0f7ab80020b0e3dbbbb80dee5dfd1f236985ab2b702b87d77da7";

#[test]
fn test_hash_extraction_ignores_surrounding_text() {
    let body = format!("{TOKEN}  postgresql-16.1.0-x86_64-unknown-linux-gnu.tar.gz\n");
    let token = find_hex_token(&body).unwrap();
    assert_eq!(TOKEN, token);
}

#[test]
fn test_hash_extraction_token_in_middle() {
    let body = format!("checksum: {TOKEN} trailing");
    assert_eq!(TOKEN, find_hex_token(&body).unwrap());
}

#[test]
fn test_hash_not_found() {
    let result = extract_hash("no token here", "postgresql-16.1.0.tar.gz");
    match result {
        Err(ArchiveError::AssetHashNotFound(name)) => {
            assert_eq!("postgresql-16.1.0.tar.gz", name)
        },
        other => panic!("unexpected result: {other:?}"),
    }
}

#[test]
fn test_hash_uppercase_is_not_a_token() {
    let body = TOKEN.to_uppercase();
    assert!(find_hex_token(&body).is_none());
}

#[test]
fn test_hash_too_short_is_not_a_token() {
    let body = &TOKEN[..63];
    assert!(find_hex_token(body).is_none());
}

#[test]
fn test_hash_longer_run_yields_leftmost_window() {
    let body = format!("{TOKEN}f");
    assert_eq!(TOKEN, find_hex_token(&body).unwrap());
}

#[test]
fn test_check_digest_match() {
    assert!(check_digest(TOKEN, TOKEN).is_ok());
}

#[test]
fn test_check_digest_mismatch() {
    let other = "0000000000000000000000000000000000000000000000000000000000000000";
    match check_digest(TOKEN, other) {
        Err(ArchiveError::IntegrityMismatch { expected, actual }) => {
            assert_eq!(TOKEN, expected);
            assert_eq!(other, actual);
        },
        other => panic!("unexpected result: {other:?}"),
    }
}
