use postgresql_archive::error::ArchiveError;
use postgresql_archive::registry::{Predicate, Registry};

#[test]
fn test_registry_dispatch() {
    let mut registry: Registry<String> = Registry::new();
    registry
        .register(
            Predicate::StartsWith("https://example.com/catalog".to_string()),
            "catalog-handler".to_string(),
        )
        .unwrap();
    let handler = registry.resolve("https://example.com/catalog/x").unwrap();
    assert_eq!("catalog-handler", handler);
    assert!(registry.resolve("https://other.example/").is_none());
}

#[test]
fn test_registry_first_registered_first_matched() {
    let mut registry: Registry<String> = Registry::new();
    registry
        .register(Predicate::StartsWith("https://example.com".to_string()), "broad".to_string())
        .unwrap();
    registry
        .register(
            Predicate::StartsWith("https://example.com/catalog".to_string()),
            "narrow".to_string(),
        )
        .unwrap();
    let handler = registry.resolve("https://example.com/catalog/x").unwrap();
    assert_eq!("broad", handler);
}

#[test]
fn test_registry_conflict_is_rejected() {
    let mut registry: Registry<String> = Registry::new();
    registry
        .register(Predicate::StartsWith("https://example.com".to_string()), "first".to_string())
        .unwrap();
    let result = registry.register(
        Predicate::StartsWith("https://example.com".to_string()),
        "second".to_string(),
    );
    match result {
        Err(ArchiveError::RegistrationConflict(pattern)) => {
            assert_eq!("https://example.com", pattern)
        },
        other => panic!("unexpected result: {other:?}"),
    }
    let handler = registry.resolve("https://example.com/x").unwrap();
    assert_eq!("first", handler);
}

#[test]
fn test_registry_same_pattern_different_shape_is_no_conflict() {
    let mut registry: Registry<String> = Registry::new();
    registry
        .register(Predicate::StartsWith("https://example.com".to_string()), "prefix".to_string())
        .unwrap();
    registry
        .register(Predicate::Equals("https://example.com".to_string()), "exact".to_string())
        .unwrap();
    assert_eq!(2, registry.entries.len());
}
