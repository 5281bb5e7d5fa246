use changelint::changelog::parse;
use changelint::validate::{lint, Issue, Severity};

fn has_message_containing(issues: &[Issue], needle: &str) -> bool {
    issues.iter().any(|i| i.message.contains(needle))
}

#[test]
fn clean_changelog_produces_no_errors() {
    let md = "# Changelog\n\n## [Unreleased]\n\n## [1.1.0] - 2024-02-01\n\n### Added\n- thing\n\n## [1.0.0] - 2024-01-01\n\n### Added\n- initial\n\n[Unreleased]: https://example.com/compare/1.1.0...HEAD\n[1.1.0]: https://example.com/compare/1.0.0...1.1.0\n[1.0.0]: https://example.com/releases/1.0.0\n";
    let doc = parse(md);
    let issues = lint(&doc);
    assert!(
        issues.iter().all(|i| i.severity == Severity::Warning),
        "unexpected errors: {issues:?}"
    );
}

#[test]
fn flags_unknown_category_name() {
    let md = "# Changelog\n\n## [1.0.0] - 2024-01-01\n\n### Improvements\n- thing\n";
    let doc = parse(md);
    let issues = lint(&doc);
    assert!(has_message_containing(
        &issues,
        "unknown category 'Improvements'"
    ));
}

#[test]
fn flags_invalid_semver() {
    let md = "# Changelog\n\n## [1.0] - 2024-01-01\n";
    let doc = parse(md);
    let issues = lint(&doc);
    assert!(has_message_containing(
        &issues,
        "not a valid semantic version"
    ));
}

#[test]
fn flags_invalid_date() {
    let md = "# Changelog\n\n## [1.0.0] - 2024-13-01\n";
    let doc = parse(md);
    let issues = lint(&doc);
    assert!(has_message_containing(
        &issues,
        "not a valid YYYY-MM-DD date"
    ));
}

#[test]
fn flags_out_of_order_versions() {
    let md = "# Changelog\n\n## [1.0.0] - 2024-01-01\n\n## [1.1.0] - 2024-02-01\n";
    let doc = parse(md);
    let issues = lint(&doc);
    assert!(has_message_containing(
        &issues,
        "not lower than the preceding version"
    ));
}

#[test]
fn flags_duplicate_versions() {
    let md = "# Changelog\n\n## [1.0.0] - 2024-02-01\n\n## [1.0.0] - 2024-01-01\n";
    let doc = parse(md);
    let issues = lint(&doc);
    assert!(has_message_containing(&issues, "duplicate version"));
}

#[test]
fn flags_date_out_of_order_even_when_versions_are_correctly_ordered() {
    // Newer version (1.1.0) dated before the older one (1.0.0) — contradictory history.
    let md = "# Changelog\n\n## [1.1.0] - 2024-01-01\n\n## [1.0.0] - 2024-02-01\n";
    let doc = parse(md);
    let issues = lint(&doc);
    assert!(has_message_containing(&issues, "has a later date"));
}

#[test]
fn flags_missing_release_date() {
    let md = "# Changelog\n\n## [1.0.0]\n";
    let doc = parse(md);
    let issues = lint(&doc);
    assert!(has_message_containing(&issues, "missing a release date"));
}

#[test]
fn flags_unreleased_not_first() {
    let md = "# Changelog\n\n## [1.0.0] - 2024-01-01\n\n## [Unreleased]\n";
    let doc = parse(md);
    let issues = lint(&doc);
    assert!(has_message_containing(
        &issues,
        "must be the first release section"
    ));
}

#[test]
fn flags_duplicate_unreleased_sections() {
    let md = "# Changelog\n\n## [Unreleased]\n\n## [Unreleased]\n";
    let doc = parse(md);
    let issues = lint(&doc);
    assert!(has_message_containing(&issues, "more than one"));
}

#[test]
fn warns_about_missing_link_reference() {
    let md = "# Changelog\n\n## [1.0.0] - 2024-01-01\n";
    let doc = parse(md);
    let issues = lint(&doc);
    let warning = issues
        .iter()
        .find(|i| i.message.contains("link reference"))
        .unwrap();
    assert_eq!(warning.severity, Severity::Warning);
}

#[test]
fn flags_malformed_non_bracket_headings_as_errors() {
    let md = "# Changelog\n\n## Paru v2.0.4 (2026-07-08)\n\n### Added\n- something\n";
    let doc = parse(md);
    let issues = lint(&doc);
    let issue = issues
        .iter()
        .find(|i| i.message.contains("does not match"))
        .unwrap();
    assert_eq!(issue.severity, Severity::Error);
    assert_eq!(issue.line, Some(3));
}

#[test]
fn warns_about_missing_title_but_does_not_error() {
    let md = "## [1.0.0] - 2024-01-01\n\n[1.0.0]: https://example.com\n";
    let doc = parse(md);
    let issues = lint(&doc);
    let issue = issues.iter().find(|i| i.message.contains("title")).unwrap();
    assert_eq!(issue.severity, Severity::Warning);
}
