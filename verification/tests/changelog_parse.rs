use changelint::changelog::{parse, VersionHeading};

#[test]
fn detects_the_h1_title() {
    let doc = parse("# Changelog\n\nSome text.\n");
    assert!(doc.has_title);
}

#[test]
fn missing_title_is_detected() {
    let doc = parse("## [1.0.0] - 2024-01-01\n");
    assert!(!doc.has_title);
}

#[test]
fn parses_unreleased_heading_with_no_date() {
    let doc = parse("# Changelog\n\n## [Unreleased]\n");
    assert_eq!(doc.releases.len(), 1);
    assert_eq!(doc.releases[0].heading, VersionHeading::Unreleased);
    assert_eq!(doc.releases[0].date, None);
}

#[test]
fn parses_a_versioned_release_with_date() {
    let doc = parse("# Changelog\n\n## [1.2.3] - 2024-03-15\n");
    assert_eq!(
        doc.releases[0].heading,
        VersionHeading::Version("1.2.3".to_string())
    );
    assert_eq!(doc.releases[0].date.as_deref(), Some("2024-03-15"));
}

#[test]
fn parses_sections_and_bullet_items_under_a_release() {
    let md = "# Changelog\n\n## [1.0.0] - 2024-01-01\n\n### Added\n- new thing\n- another thing\n\n### Fixed\n- a bug\n";
    let doc = parse(md);
    let release = &doc.releases[0];
    assert_eq!(release.sections.len(), 2);
    assert_eq!(release.sections[0].0, "Added");
    assert_eq!(
        release.sections[0].1,
        vec!["new thing".to_string(), "another thing".to_string()]
    );
    assert_eq!(release.sections[1].0, "Fixed");
    assert_eq!(release.sections[1].1, vec!["a bug".to_string()]);
}

#[test]
fn supports_asterisk_bullets_as_well_as_dashes() {
    let md = "# Changelog\n\n## [1.0.0] - 2024-01-01\n\n### Added\n* new thing\n";
    let doc = parse(md);
    assert_eq!(doc.releases[0].sections[0].1, vec!["new thing".to_string()]);
}

#[test]
fn parses_multiple_releases_in_order() {
    let md = "# Changelog\n\n## [Unreleased]\n\n## [1.1.0] - 2024-02-01\n\n## [1.0.0] - 2024-01-01\n";
    let doc = parse(md);
    assert_eq!(doc.releases.len(), 3);
    assert_eq!(doc.releases[0].heading, VersionHeading::Unreleased);
    assert_eq!(
        doc.releases[1].heading,
        VersionHeading::Version("1.1.0".to_string())
    );
    assert_eq!(
        doc.releases[2].heading,
        VersionHeading::Version("1.0.0".to_string())
    );
}

#[test]
fn collects_link_reference_definitions() {
    let md = "# Changelog\n\n## [1.0.0] - 2024-01-01\n\n[1.0.0]: https://example.com/releases/1.0.0\n[Unreleased]: https://example.com/compare/1.0.0...HEAD\n";
    let doc = parse(md);
    assert_eq!(
        doc.link_refs,
        vec!["1.0.0".to_string(), "Unreleased".to_string()]
    );
}

#[test]
fn a_non_bracket_h2_heading_is_recorded_as_malformed_not_silently_dropped() {
    let md = "# Changelog\n\n## Paru v2.0.4 (2026-07-08)\n\n### Added\n- something\n";
    let doc = parse(md);
    assert!(doc.releases.is_empty());
    assert_eq!(doc.malformed_headings.len(), 1);
    assert_eq!(doc.malformed_headings[0].1, "Paru v2.0.4 (2026-07-08)");
}

#[test]
fn a_bullet_before_any_category_heading_is_ignored_not_misattributed() {
    let md = "# Changelog\n\n## [1.0.0] - 2024-01-01\n- orphan bullet, no ### category yet\n\n### Added\n- real item\n";
    let doc = parse(md);
    assert_eq!(doc.releases[0].sections.len(), 1);
    assert_eq!(doc.releases[0].sections[0].1, vec!["real item".to_string()]);
}
