use changelint::semver::{compare, parse, PreReleaseIdentifier};
use std::cmp::Ordering;

#[test]
fn parses_a_plain_version() {
    let v = parse("1.2.3").unwrap();
    assert_eq!((v.major, v.minor, v.patch), (1, 2, 3));
    assert!(v.pre_release.is_empty());
}

#[test]
fn parses_and_strips_a_leading_v_prefix() {
    let v = parse("v2.0.0").unwrap();
    assert_eq!((v.major, v.minor, v.patch), (2, 0, 0));
}

#[test]
fn parses_pre_release_identifiers() {
    let v = parse("1.0.0-alpha.1").unwrap();
    assert_eq!(
        v.pre_release,
        vec![
            PreReleaseIdentifier::Alpha("alpha".into()),
            PreReleaseIdentifier::Numeric(1)
        ]
    );
}

#[test]
fn discards_build_metadata() {
    let v = parse("1.0.0+build.123").unwrap();
    assert!(v.pre_release.is_empty());
    assert_eq!((v.major, v.minor, v.patch), (1, 0, 0));
}

#[test]
fn rejects_non_numeric_core_components() {
    assert!(parse("1.x.0").is_none());
}

#[test]
fn rejects_too_few_core_components() {
    assert!(parse("1.2").is_none());
}

#[test]
fn rejects_too_many_core_components() {
    assert!(parse("1.2.3.4").is_none());
}

#[test]
fn compares_major_minor_patch_numerically_not_lexically() {
    let a = parse("1.9.0").unwrap();
    let b = parse("1.10.0").unwrap();
    assert_eq!(compare(&a, &b), Ordering::Less);
}

#[test]
fn release_has_higher_precedence_than_its_own_pre_release() {
    let release = parse("1.0.0").unwrap();
    let pre = parse("1.0.0-alpha").unwrap();
    assert_eq!(compare(&release, &pre), Ordering::Greater);
}

#[test]
fn numeric_pre_release_identifiers_compare_numerically() {
    let a = parse("1.0.0-alpha.2").unwrap();
    let b = parse("1.0.0-alpha.10").unwrap();
    assert_eq!(compare(&a, &b), Ordering::Less);
}

#[test]
fn alpha_pre_release_identifiers_outrank_numeric_ones() {
    let numeric = parse("1.0.0-1").unwrap();
    let alpha = parse("1.0.0-alpha").unwrap();
    assert_eq!(compare(&numeric, &alpha), Ordering::Less);
}

#[test]
fn a_longer_pre_release_list_outranks_a_shared_prefix() {
    let short = parse("1.0.0-alpha").unwrap();
    let long = parse("1.0.0-alpha.1").unwrap();
    assert_eq!(compare(&short, &long), Ordering::Less);
}
