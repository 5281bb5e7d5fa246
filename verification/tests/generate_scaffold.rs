use changelint::generate::{scaffold, sort_tags_newest_first};

#[test]
fn sort_tags_orders_by_semver_descending() {
    let tags = vec![
        ("1.0.0".to_string(), "2024-01-01".to_string()),
        ("1.2.0".to_string(), "2024-03-01".to_string()),
    ];
    let sorted = sort_tags_newest_first(&tags);
    assert_eq!(sorted[0].0, "1.2.0");
    assert_eq!(sorted[1].0, "1.0.0");
}

#[test]
fn sort_tags_puts_unparseable_tags_after_valid_ones_without_dropping_them() {
    let tags = vec![
        ("release-candidate".to_string(), "2024-01-01".to_string()),
        ("1.0.0".to_string(), "2024-02-01".to_string()),
    ];
    let sorted = sort_tags_newest_first(&tags);
    assert_eq!(sorted.len(), 2);
    assert_eq!(sorted[0].0, "1.0.0");
    assert_eq!(sorted[1].0, "release-candidate");
}

#[test]
fn scaffold_includes_unreleased_section_first() {
    let out = scaffold(&[]);
    assert!(out.contains("## [Unreleased]"));
    assert!(out.starts_with("# Changelog"));
}

#[test]
fn scaffold_includes_one_section_per_tag_newest_first() {
    let tags = vec![
        ("1.0.0".to_string(), "2024-01-01".to_string()),
        ("1.1.0".to_string(), "2024-02-01".to_string()),
    ];
    let out = scaffold(&tags);
    let pos_110 = out.find("## [1.1.0] - 2024-02-01").unwrap();
    let pos_100 = out.find("## [1.0.0] - 2024-01-01").unwrap();
    assert!(pos_110 < pos_100);
}

#[test]
fn scaffold_output_parses_back_cleanly() {
    let tags = vec![("2.0.0".to_string(), "2024-05-01".to_string())];
    let out = scaffold(&tags);
    let doc = changelint::changelog::parse(&out);
    assert!(doc.has_title);
    assert_eq!(doc.releases.len(), 2); // Unreleased + 2.0.0
}
