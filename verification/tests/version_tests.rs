use std::cmp::Ordering;

use alpmver::Version;
use alpmver::VersionComponents;

fn ver(s: &str) -> Version {
    Version::new(s.to_string())
}

fn total(a: &str, b: &str) -> Ordering {
    ver(a).cmp(&ver(b))
}

#[test]
fn raw_text_round_trips() {
    let v = ver("2:1.2.3-4");
    assert_eq!(v.as_str(), "2:1.2.3-4");
    assert_eq!(v.into_string(), "2:1.2.3-4");
    assert_eq!(ver("").as_str(), "");
}

#[test]
fn decompose_full_form() {
    let v = ver("2:1.2.3-4");
    let c = v.as_components();
    assert_eq!(c.epoch, "2");
    assert_eq!(c.version, "1.2.3");
    assert_eq!(c.release.as_deref(), Some("4"));
}

#[test]
fn decompose_defaults_epoch_to_zero() {
    let c = ver("1.2.3-4").as_components();
    assert_eq!(c.epoch, "0");
    assert_eq!(c.version, "1.2.3");
    assert_eq!(c.release.as_deref(), Some("4"));
}

#[test]
fn decompose_missing_release() {
    let c = ver("1.0").as_components();
    assert_eq!(c.epoch, "0");
    assert_eq!(c.version, "1.0");
    assert_eq!(c.release, None);
}

#[test]
fn decompose_splits_at_last_dash() {
    let c = ver("1-2-3").as_components();
    assert_eq!(c.version, "1-2");
    assert_eq!(c.release.as_deref(), Some("3"));
}

#[test]
fn digit_run_without_colon_is_version() {
    let c = ver("12abc").as_components();
    assert_eq!(c.epoch, "0");
    assert_eq!(c.version, "12abc");
    assert_eq!(c.release, None);
}

#[test]
fn colon_without_digits_is_no_epoch() {
    let c = ver(":1.0").as_components();
    assert_eq!(c.epoch, "0");
    assert_eq!(c.version, ":1.0");
    assert_eq!(c.release, None);
}

#[test]
fn compose_round_trips_explicit_fields() {
    let v = ver("2:1.0-1").as_components().to_version();
    assert_eq!(v.as_str(), "2:1.0-1");
}

#[test]
fn compose_substitutes_default_release() {
    let v = ver("1.0").as_components().to_version();
    assert_eq!(v.as_str(), "1.0-1");
}

#[test]
fn compose_leaves_zero_epoch_implicit() {
    let v = ver("0:1.0-1").as_components().to_version();
    assert_eq!(v.as_str(), "1.0-1");
    let direct = VersionComponents {
        epoch: "3".to_string(),
        version: "2.4".to_string(),
        release: None,
    };
    assert_eq!(direct.to_version().as_str(), "3:2.4-1");
}

#[test]
fn missing_release_is_excluded_from_comparison() {
    assert_eq!(total("1.0", "1.0-1"), Ordering::Equal);
    assert_eq!(total("1.0-1", "1.0"), Ordering::Equal);
    assert_eq!(total("1.0-1", "1.0-2"), Ordering::Less);
}

#[test]
fn epoch_dominates_version() {
    assert_eq!(total("1:1.0-1", "2.0-1"), Ordering::Greater);
    assert_eq!(total("1:0", "2"), Ordering::Greater);
    assert_eq!(total("0:2", "1:1"), Ordering::Less);
}

#[test]
fn concrete_orderings() {
    assert_eq!(total("1.0.0", "1.0.0"), Ordering::Equal);
    assert_eq!(total("1.0.0", "1.0.1"), Ordering::Less);
    assert_eq!(total("1.0a", "1.0"), Ordering::Less);
}

#[test]
fn version_equality_follows_comparison() {
    assert!(ver("1.0") == ver("1.0-1"));
    assert!(ver("1.05") == ver("1.5"));
    assert!(ver("1.0") != ver("1.0.1"));
    let a = ver("1.0-1").as_components();
    let b = ver("1.0-01").as_components();
    assert!(a == b);
}

#[test]
fn operators_follow_comparison() {
    assert!(ver("1.0") == ver("1.0-1"));
    assert!(ver("1.05") == ver("1.5"));
    assert!(ver("1.0.0") < ver("1.0.1"));
    assert!(ver("2.0") < ver("1:0.1"));
    assert!(Version::from("007".to_string()) == ver("7"));
    let a = ver("1.0-1").as_components();
    let b = ver("1.0-2").as_components();
    assert!(a < b);
    assert!(a != b);
}

#[test]
fn components_compare_fieldwise() {
    let a = ver("1:1.0-1").as_components();
    let b = ver("1:1.0-2").as_components();
    assert_eq!(a.cmp(&b), Ordering::Less);
    assert_eq!(b.cmp(&a), Ordering::Greater);
    assert_eq!(a.cmp(&a), Ordering::Equal);
}
