use changelint::changelog::{parse as parse_changelog, VersionHeading};
use changelint::date::{parse as parse_date, Date};
use changelint::generate::{scaffold, sort_tags_newest_first};
use changelint::git::parse_tag_listing;
use changelint::semver::{compare, parse as parse_version, PreReleaseIdentifier};
use changelint::validate::{error_count, lint, lint_exit_code, report_line, Issue, Severity};
use std::cmp::Ordering;

fn pairs(items: &[(&str, &str)]) -> Vec<(String, String)> {
    items
        .iter()
        .map(|(a, b)| (a.to_string(), b.to_string()))
        .collect()
}

#[test]
fn date_fields_must_be_ascii_digits_only() {
    assert!(parse_date("+024-03-15").is_none());
    assert!(parse_date("2024-+3-15").is_none());
    assert!(parse_date("2024-03-+5").is_none());
    assert!(parse_date("2024-03- 5").is_none());
    assert_eq!(
        parse_date("0024-03-05"),
        Some(Date { year: 24, month: 3, day: 5 })
    );
}

#[test]
fn date_rejects_day_zero_and_non_ascii() {
    assert!(parse_date("2024-01-00").is_none());
    assert!(parse_date("2024-01-1é").is_none());
    assert!(parse_date("2024-3-015").is_none());
}

#[test]
fn date_accepts_the_last_day_of_each_month() {
    assert!(parse_date("2023-01-31").is_some());
    assert!(parse_date("2023-02-28").is_some());
    assert!(parse_date("2023-06-30").is_some());
    assert!(parse_date("2023-06-31").is_none());
    assert!(parse_date("2023-12-31").is_some());
}

#[test]
fn semver_reads_numeric_and_alphanumeric_identifiers() {
    let v = parse_version("v1.2.3-rc.1+build").unwrap();
    assert_eq!((v.major, v.minor, v.patch), (1, 2, 3));
    assert_eq!(
        v.pre_release,
        vec![
            PreReleaseIdentifier::Alpha("rc".into()),
            PreReleaseIdentifier::Numeric(1)
        ]
    );
    let hyphens = parse_version("1.0.0-x-y.0.-").unwrap();
    assert_eq!(
        hyphens.pre_release,
        vec![
            PreReleaseIdentifier::Alpha("x-y".into()),
            PreReleaseIdentifier::Numeric(0),
            PreReleaseIdentifier::Alpha("-".into())
        ]
    );
    let mixed = parse_version("1.0.0-0a.01a").unwrap();
    assert_eq!(
        mixed.pre_release,
        vec![
            PreReleaseIdentifier::Alpha("0a".into()),
            PreReleaseIdentifier::Alpha("01a".into())
        ]
    );
}

#[test]
fn semver_rejects_invalid_pre_release_identifiers() {
    assert!(parse_version("1.2.3-rc.01").is_none());
    assert!(parse_version("1.2.3-a..b").is_none());
    assert!(parse_version("1.2.3-").is_none());
    assert!(parse_version("1.2.3-a.").is_none());
    assert!(parse_version("1.2.3-a_b").is_none());
    assert!(parse_version("1.2.3-é").is_none());
}

#[test]
fn semver_rejects_leading_zeros_in_core_numbers() {
    assert!(parse_version("01.0.0").is_none());
    assert!(parse_version("1.00.0").is_none());
    assert!(parse_version("1.0.007").is_none());
    assert_eq!(parse_version("0.0.0").unwrap().major, 0);
    assert_eq!(parse_version("10.20.30").unwrap().patch, 30);
}

#[test]
fn semver_drops_build_metadata_and_one_leading_v() {
    assert_eq!(parse_version("1.2.3+any+thing"), parse_version("1.2.3"));
    assert_eq!(parse_version("1.2.3-rc.1+"), parse_version("1.2.3-rc.1"));
    assert_eq!(parse_version("v1.2.3"), parse_version("1.2.3"));
    assert!(parse_version("vv1.2.3").is_none());
}

#[test]
fn semver_overflow_rejects_a_core_number_but_not_an_identifier() {
    assert!(parse_version("18446744073709551616.0.0").is_none());
    assert_eq!(parse_version("18446744073709551615.0.0").unwrap().major, u64::MAX);
    let v = parse_version("1.0.0-99999999999999999999").unwrap();
    assert_eq!(
        v.pre_release,
        vec![PreReleaseIdentifier::Alpha("99999999999999999999".into())]
    );
}

#[test]
fn semver_rejects_empty_and_signed_core_parts() {
    assert!(parse_version("").is_none());
    assert!(parse_version("1..3").is_none());
    assert!(parse_version("+1.2.3").is_none());
    assert!(parse_version("1.-2.3").is_none());
    assert!(parse_version("1.2.+3").is_none());
}

#[test]
fn compare_is_antisymmetric_and_ignores_build_metadata() {
    let versions = [
        "1.0.0-alpha",
        "1.0.0-alpha.1",
        "1.0.0-alpha.beta",
        "1.0.0-beta",
        "1.0.0-beta.2",
        "1.0.0-beta.11",
        "1.0.0-rc.1",
        "1.0.0",
        "2.0.0",
    ];
    for (i, a) in versions.iter().enumerate() {
        for (j, b) in versions.iter().enumerate() {
            let va = parse_version(a).unwrap();
            let vb = parse_version(b).unwrap();
            assert_eq!(compare(&va, &vb), i.cmp(&j), "{a} vs {b}");
            assert_eq!(compare(&va, &vb), compare(&vb, &va).reverse());
        }
    }
    let a = parse_version("1.0.0+one").unwrap();
    let b = parse_version("1.0.0+two").unwrap();
    assert_eq!(compare(&a, &b), Ordering::Equal);
}

#[test]
fn changelog_handles_crlf_and_heading_variants() {
    let md = "# Changelog\r\n\r\n## [unReleased]\r\n## [1.0.0]- 2024-01-01\r\n## [0.9.0] 2023-01-01\r\n";
    let doc = parse_changelog(md);
    assert!(doc.has_title);
    assert_eq!(doc.releases.len(), 3);
    assert_eq!(doc.releases[0].heading, VersionHeading::Unreleased);
    assert_eq!(doc.releases[1].date.as_deref(), Some("2024-01-01"));
    assert_eq!(doc.releases[1].line_number, 4);
    assert_eq!(doc.releases[2].date, None);
}

#[test]
fn changelog_bullets_are_never_link_references() {
    let md = "## [1.0.0] - 2024-01-01\n### Added\n- [x]: not a link\n  * indented  \n[1.0.0]: https://example.com\n";
    let doc = parse_changelog(md);
    assert_eq!(
        doc.releases[0].sections[0].1,
        vec!["[x]: not a link".to_string(), "indented".to_string()]
    );
    assert_eq!(doc.link_refs, vec!["1.0.0".to_string()]);
}

#[test]
fn changelog_empty_title_and_empty_input() {
    let doc = parse_changelog("#   \n");
    assert!(!doc.has_title);
    let empty = parse_changelog("");
    assert!(!empty.has_title);
    assert!(empty.releases.is_empty());
    assert!(empty.malformed_headings.is_empty());
    assert!(empty.link_refs.is_empty());
}

#[test]
fn every_h2_heading_is_a_release_or_malformed() {
    let md = "## [1.0.0] - 2024-01-01\n## nope\n## [2.0.0\n##no-space\n## [Unreleased]\n";
    let doc = parse_changelog(md);
    assert_eq!(doc.releases.len() + doc.malformed_headings.len(), 4);
    assert_eq!(
        doc.malformed_headings,
        vec![(2, "nope".to_string()), (3, "[2.0.0".to_string())]
    );
}

#[test]
fn lint_messages_are_exact() {
    let md = "## v1 (x)\n## [1.0.0] - 2024-01-01\n## [1.0.0] - 2024-02-01\n";
    let issues = lint(&parse_changelog(md));
    let messages: Vec<&str> = issues.iter().map(|i| i.message.as_str()).collect();
    assert_eq!(
        messages,
        vec![
            "missing a top-level '# ' title",
            "'## v1 (x)' does not match '[Unreleased]' or '[version] - YYYY-MM-DD' — its content is not being linted at all",
            "no '[1.0.0]: <url>' link reference definition found",
            "no '[1.0.0]: <url>' link reference definition found",
            "version '1.0.0' is not lower than the preceding version '1.0.0' (line 2) — releases must be listed newest-first",
            "version '1.0.0' has a later date (Date { year: 2024, month: 2, day: 1 }) than the preceding, newer version '1.0.0' (Date { year: 2024, month: 1, day: 1 })",
            "duplicate version '1.0.0'",
        ]
    );
    assert_eq!(issues[1].line, Some(1));
    assert_eq!(issues[6].line, Some(3));
}

#[test]
fn lint_date_message_matches_the_debug_form_of_a_date() {
    let d = Date { year: 2024, month: 2, day: 1 };
    let md = "## [1.1.0] - 2024-01-01\n## [1.0.0] - 2024-02-01\n";
    let issues = lint(&parse_changelog(md));
    assert!(issues
        .iter()
        .any(|i| i.message.contains(&format!("({d:?})"))));
}

#[test]
fn lint_reports_categories_and_unreleased_rules() {
    let md = "# Changelog\n## [1.0.0] - 2024-01-01\n### Misc\n### Added\n## [Unreleased] - 2024-01-01\n## [UNRELEASED]\n[1.0.0]: u\n";
    let issues = lint(&parse_changelog(md));
    let found: Vec<(Severity, Option<usize>, &str)> = issues
        .iter()
        .map(|i| (i.severity, i.line, i.message.as_str()))
        .collect();
    assert_eq!(
        found,
        vec![
            (Severity::Error, Some(2), "unknown category 'Misc' (expected one of Added, Changed, Deprecated, Removed, Fixed, Security)"),
            (Severity::Error, Some(5), "'[Unreleased]' must be the first release section"),
            (Severity::Warning, Some(5), "'[Unreleased]' should not have a release date"),
            (Severity::Error, Some(6), "more than one '[Unreleased]' section"),
            (Severity::Error, Some(6), "'[Unreleased]' must be the first release section"),
        ]
    );
}

#[test]
fn lint_reports_an_empty_changelog() {
    let issues = lint(&parse_changelog(""));
    assert_eq!(issues.len(), 2);
    assert_eq!(issues[1].message, "no release sections ('## [...]') found");
    assert_eq!(issues[1].severity, Severity::Warning);
    assert_eq!(error_count(&issues), 0);
}

#[test]
fn error_count_and_report_lines() {
    let issues = vec![
        Issue { severity: Severity::Error, line: Some(12), message: "bad".to_string() },
        Issue { severity: Severity::Warning, line: None, message: "meh".to_string() },
        Issue { severity: Severity::Error, line: None, message: "worse".to_string() },
    ];
    assert_eq!(error_count(&issues), 2);
    assert_eq!(report_line("CHANGELOG.md", &issues[0]), "CHANGELOG.md:12: [ERROR] bad");
    assert_eq!(report_line("CHANGELOG.md", &issues[1]), "CHANGELOG.md: [WARNING] meh");
}

#[test]
fn sort_is_stable_for_equal_and_unparseable_tags() {
    let tags = pairs(&[
        ("b", "1"),
        ("1.0.0", "2"),
        ("a", "3"),
        ("v1.0.0", "4"),
        ("2.0.0-rc.1", "5"),
        ("2.0.0", "6"),
    ]);
    let sorted = sort_tags_newest_first(&tags);
    let names: Vec<&str> = sorted.iter().map(|t| t.0.as_str()).collect();
    assert_eq!(names, vec!["2.0.0", "2.0.0-rc.1", "1.0.0", "v1.0.0", "b", "a"]);
    assert_eq!(sorted[2].1, "2");
}

#[test]
fn scaffold_text_is_exact() {
    let out = scaffold(&pairs(&[("1.0.0", "2024-01-01")]));
    assert_eq!(
        out,
        "# Changelog\n\nAll notable changes to this project will be documented in this file.\n\nThe format is based on [Keep a Changelog](https://keepachangelog.com/en/1.1.0/),\nand this project adheres to [Semantic Versioning](https://semver.org/spec/v2.0.0.html).\n\n## [Unreleased]\n\n## [1.0.0] - 2024-01-01\n\n### Changed\n- \n\n"
    );
}

#[test]
fn scaffold_of_valid_tags_lints_without_errors() {
    let out = scaffold(&pairs(&[("1.0.0", "2024-01-01"), ("1.1.0", "2024-02-01")]));
    let doc = parse_changelog(&out);
    assert_eq!(doc.releases.len(), 3);
    let issues = lint(&doc);
    assert_eq!(error_count(&issues), 0);
}

#[test]
fn tag_listing_splits_at_the_last_bar_and_skips_other_lines() {
    let listing = "v1.0.0|2024-01-01\r\nnot a tag\na|b|2024-02-02\n\nv3|";
    assert_eq!(
        parse_tag_listing(listing),
        pairs(&[("v1.0.0", "2024-01-01"), ("a|b", "2024-02-02"), ("v3", "")])
    );
    assert!(parse_tag_listing("").is_empty());
}

#[test]
fn lint_flags_a_version_with_a_leading_zero() {
    let doc = parse_changelog("# Changelog\n\n## [01.0.0] - 2024-01-01\n\n[01.0.0]: u\n");
    let issues = lint(&doc);
    assert_eq!(issues.len(), 1);
    assert_eq!(issues[0].severity, Severity::Error);
    assert_eq!(issues[0].line, Some(3));
    assert!(issues[0].message.contains("not a valid semantic version"));
}

#[test]
fn sorting_twice_changes_nothing() {
    let tags = pairs(&[
        ("v1.0.0", "2024-01-01"),
        ("junk", "x"),
        ("2.0.0-rc.1", "2024-03-01"),
        ("v1.0.0", "2024-01-02"),
        ("2.0.0", "2024-04-01"),
    ]);
    let once = sort_tags_newest_first(&tags);
    assert_eq!(sort_tags_newest_first(&once), once);
}

#[test]
fn scaffold_of_distinct_versions_ignores_input_order() {
    let a = pairs(&[("1.0.0", "2024-01-01"), ("1.1.0", "2024-02-01"), ("v0.9.0", "2023-12-01")]);
    let b = pairs(&[("v0.9.0", "2023-12-01"), ("1.0.0", "2024-01-01"), ("1.1.0", "2024-02-01")]);
    assert_eq!(scaffold(&a), scaffold(&b));
}

#[test]
fn scaffold_follows_the_sorted_order() {
    let tags = pairs(&[("1.0.0", "2024-01-01"), ("junk", "d"), ("1.1.0", "2024-02-01")]);
    let mut expected = scaffold(&[]);
    for (t, d) in sort_tags_newest_first(&tags) {
        expected.push_str(&format!("## [{t}] - {d}\n\n### Changed\n- \n\n"));
    }
    assert_eq!(scaffold(&tags), expected);
}

#[test]
fn scaffold_of_consistent_tags_lints_with_one_link_warning_per_tag() {
    let tags = pairs(&[("1.0.0", "2024-01-01"), ("1.2.0", "2024-03-01"), ("1.1.0", "2024-02-01")]);
    let issues = lint(&parse_changelog(&scaffold(&tags)));
    assert_eq!(issues.len(), 3);
    for issue in &issues {
        assert_eq!(issue.severity, Severity::Warning);
        assert!(issue.message.contains("link reference"));
    }
    assert_eq!(lint_exit_code(&issues), 0);
}

#[test]
fn scaffold_date_reads_back_trimmed() {
    let tags = pairs(&[("1.0.0", "  2024-01-01 \t"), ("0.1.0", "")]);
    let doc = parse_changelog(&scaffold(&tags));
    assert_eq!(doc.releases.len(), 3);
    assert_eq!(doc.releases[1].date.as_deref(), Some("2024-01-01"));
    assert_eq!(doc.releases[2].date.as_deref(), Some(""));
    assert_eq!(doc.releases[2].heading, VersionHeading::Version("0.1.0".to_string()));
}

#[test]
fn date_order_is_the_order_of_the_date_texts() {
    let texts = ["1999-12-31", "2024-01-01", "2024-01-02", "2024-02-01", "2024-06-01"];
    for a in texts {
        for b in texts {
            let da = parse_date(a).unwrap();
            let db = parse_date(b).unwrap();
            assert_eq!(da.cmp(&db), a.cmp(b), "{a} vs {b}");
        }
    }
}

#[test]
fn plain_versions_read_back_exactly() {
    let v = parse_version("12.0.7").unwrap();
    assert_eq!((v.major, v.minor, v.patch), (12, 0, 7));
    assert!(v.pre_release.is_empty());
    let max = format!("{0}.{0}.{0}", u64::MAX);
    assert_eq!(parse_version(&max).unwrap().patch, u64::MAX);
}

#[test]
fn exit_code_is_one_exactly_when_an_error_is_reported() {
    let bad = lint(&parse_changelog("# T\n\n## [1.x] - 2024-01-01\n"));
    assert_eq!(lint_exit_code(&bad), 1);
    let warn_only = lint(&parse_changelog("## [1.0.0] - 2024-01-01\n\n[1.0.0]: u\n"));
    assert_eq!(warn_only.len(), 1);
    assert_eq!(lint_exit_code(&warn_only), 0);
    assert_eq!(lint_exit_code(&Vec::new()), 0);
}
