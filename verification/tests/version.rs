use postgresql_archive::version::Version;

#[test]
fn test_trichotomy_concrete() {
    let a = Version::new(1, Some(2), Some(3));
    let b = Version::new(1, Some(2), Some(4));
    assert!(a.lt(&b));
    assert!(!b.lt(&a));
    assert!(a != b);
    let c = Version::new(1, Some(2), Some(3));
    assert!(a == c);
    assert!(!a.lt(&c));
    assert!(!c.lt(&a));
}

#[test]
fn test_matches_wildcards() {
    let major_only = Version::new(16, None, None);
    let full = Version::new(16, Some(1), Some(0));
    assert!(major_only.matches(&full));
    let other_full = Version::new(16, Some(2), Some(0));
    assert!(!full.matches(&other_full));
}

#[test]
fn test_parse_full() {
    let v = Version::parse("16.1.0").unwrap();
    assert_eq!(v, Version::new(16, Some(1), Some(0)));
}

#[test]
fn test_parse_partial() {
    assert_eq!(Version::parse("16").unwrap(), Version::new(16, None, None));
    assert_eq!(Version::parse("16.4").unwrap(), Version::new(16, Some(4), None));
}

#[test]
fn test_parse_malformed() {
    assert!(Version::parse("").is_none());
    assert!(Version::parse("16.").is_none());
    assert!(Version::parse(".16").is_none());
    assert!(Version::parse("1.2.3.4").is_none());
    assert!(Version::parse("v16.1.0").is_none());
    assert!(Version::parse("16.01").is_none());
    assert!(Version::parse("016").is_none());
    assert!(Version::parse("16.1.0 ").is_none());
    assert!(Version::parse("99999999999999999999999").is_none());
}

#[test]
fn test_to_text() {
    assert_eq!("16.1.0", Version::new(16, Some(1), Some(0)).to_text());
    assert_eq!("16.1", Version::new(16, Some(1), None).to_text());
    assert_eq!("16", Version::new(16, None, None).to_text());
    assert_eq!("1840", Version::new(1840, None, None).to_text());
}

#[test]
fn test_parse_round_trip() {
    let v = Version::parse("12.0.7").unwrap();
    assert_eq!("12.0.7", v.to_text());
}
