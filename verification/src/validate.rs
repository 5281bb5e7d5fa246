//! Lint rules over an already-parsed changelog.

use std::cmp::Ordering;
use vstd::prelude::*;

use crate::changelog::{
    HeadingModel, ParsedChangelog, Release, ReleaseModel, DocModel, VersionHeading, texts,
    heading_spec, is_h2_line, lines, parse_spec,
};
use crate::date::{self, Date};
use crate::semver::{self, SemVer, SemVerModel, precedence};
use crate::text::{decimal, push_decimal, trim, trim_end};

verus! {

#[derive(Debug, Clone, Copy, PartialEq, Eq, Structural)]
pub enum Severity {
    Error,
    Warning,
}

#[derive(Debug, Clone, PartialEq, Eq)]
pub struct Issue {
    pub severity: Severity,
    pub line: Option<usize>,
    pub message: String,
}

/// What an issue stands for.
pub struct IssueModel {
    pub severity: Severity,
    pub line: Option<usize>,
    pub message: Seq<char>,
}

impl View for Issue {
    type V = IssueModel;

    open spec fn view(&self) -> IssueModel {
        IssueModel { severity: self.severity, line: self.line, message: self.message@ }
    }
}

pub open spec fn err(line: Option<usize>, message: Seq<char>) -> IssueModel {
    IssueModel { severity: Severity::Error, line, message }
}

pub open spec fn warn(line: Option<usize>, message: Seq<char>) -> IssueModel {
    IssueModel { severity: Severity::Warning, line, message }
}

/// Keep a Changelog's six categories.
pub const STANDARD_CATEGORIES: [&'static str; 6] = ["Added", "Changed", "Deprecated", "Removed", "Fixed", "Security"];

/// Whether `c` is one of Keep a Changelog's six categories.
pub open spec fn standard_category(c: Seq<char>) -> bool {
    c == "Added"@ || c == "Changed"@ || c == "Deprecated"@ || c == "Removed"@ || c == "Fixed"@
        || c == "Security"@
}

pub open spec fn msg_missing_title() -> Seq<char> {
    "missing a top-level '# ' title"@
}

pub open spec fn msg_malformed(raw: Seq<char>) -> Seq<char> {
    "'## "@ + raw
        + "' does not match '[Unreleased]' or '[version] - YYYY-MM-DD' — its content is not being linted at all"@
}

pub open spec fn msg_no_releases() -> Seq<char> {
    "no release sections ('## [...]') found"@
}

pub open spec fn msg_unknown_category(c: Seq<char>) -> Seq<char> {
    "unknown category '"@ + c
        + "' (expected one of Added, Changed, Deprecated, Removed, Fixed, Security)"@
}

pub open spec fn msg_second_unreleased() -> Seq<char> {
    "more than one '[Unreleased]' section"@
}

pub open spec fn msg_unreleased_not_first() -> Seq<char> {
    "'[Unreleased]' must be the first release section"@
}

pub open spec fn msg_unreleased_dated() -> Seq<char> {
    "'[Unreleased]' should not have a release date"@
}

pub open spec fn msg_bad_version(raw: Seq<char>) -> Seq<char> {
    "'"@ + raw + "' is not a valid semantic version"@
}

pub open spec fn msg_missing_date(raw: Seq<char>) -> Seq<char> {
    "version '"@ + raw + "' is missing a release date"@
}

pub open spec fn msg_bad_date(d: Seq<char>) -> Seq<char> {
    "'"@ + d + "' is not a valid YYYY-MM-DD date"@
}

pub open spec fn msg_no_link(raw: Seq<char>) -> Seq<char> {
    "no '["@ + raw + "]: <url>' link reference definition found"@
}

pub open spec fn msg_not_lower(raw: Seq<char>, prev: Seq<char>, prev_line: usize) -> Seq<char> {
    "version '"@ + raw + "' is not lower than the preceding version '"@ + prev + "' (line "@
        + decimal(prev_line as nat) + ") — releases must be listed newest-first"@
}

pub open spec fn msg_later_date(raw: Seq<char>, d: Date, prev: Seq<char>, pd: Date) -> Seq<char> {
    "version '"@ + raw + "' has a later date ("@ + date::debug_text(d)
        + ") than the preceding, newer version '"@ + prev + "' ("@ + date::debug_text(pd) + ")"@
}

pub open spec fn msg_duplicate(raw: Seq<char>) -> Seq<char> {
    "duplicate version '"@ + raw + "'"@
}

/// The errors for the non-standard categories of a release, in order.
pub open spec fn category_issues(sections: Seq<(Seq<char>, Seq<Seq<char>>)>, line: usize) -> Seq<
    IssueModel,
>
    decreases sections.len(),
{
    if sections.len() == 0 {
        Seq::empty()
    } else {
        category_issues(sections.drop_last(), line) + if standard_category(sections.last().0) {
            Seq::<IssueModel>::empty()
        } else {
            seq![err(Some(line), msg_unknown_category(sections.last().0))]
        }
    }
}

/// The lint's state between releases: the issues so far, whether an
/// `[Unreleased]` section was seen, the preceding valid version (its raw
/// text, version, parsed date and line), and the distinct versions seen.
pub struct LintState {
    pub issues: Seq<IssueModel>,
    pub seen_unreleased: bool,
    pub prior: Option<(Seq<char>, SemVerModel, Option<Date>, usize)>,
    pub seen: Seq<SemVerModel>,
}

/// The issues that start the report, before any release is looked at.
pub open spec fn document_issues(doc: DocModel) -> Seq<IssueModel> {
    (if doc.has_title {
        Seq::<IssueModel>::empty()
    } else {
        seq![warn(None, msg_missing_title())]
    }) + doc.malformed_headings.map_values(
        |m: (usize, Seq<char>)| err(Some(m.0), msg_malformed(m.1)),
    ) + (if doc.releases.len() == 0 && doc.malformed_headings.len() == 0 {
        seq![warn(None, msg_no_releases())]
    } else {
        Seq::<IssueModel>::empty()
    })
}

/// The issues of the ordering checks of a valid version `v` against the
/// preceding valid version.
pub open spec fn order_issues(
    raw: Seq<char>,
    v: SemVerModel,
    d: Option<Date>,
    line: usize,
    prior: Option<(Seq<char>, SemVerModel, Option<Date>, usize)>,
) -> Seq<IssueModel> {
    match prior {
        Some((praw, pv, pd, pline)) => (if precedence(v, pv) >= 0 {
            seq![err(Some(line), msg_not_lower(raw, praw, pline))]
        } else {
            Seq::<IssueModel>::empty()
        }) + match (d, pd) {
            (Some(x), Some(y)) => if date::later(x, y) {
                seq![err(Some(line), msg_later_date(raw, x, praw, y))]
            } else {
                Seq::<IssueModel>::empty()
            },
            _ => Seq::<IssueModel>::empty(),
        },
        None => Seq::empty(),
    }
}

/// What checking release `r` (at position `idx`) does to the lint's state.
pub open spec fn check_spec(st: LintState, r: ReleaseModel, idx: usize, link_refs: Seq<Seq<char>>) -> LintState {
    let cats = category_issues(r.sections, r.line_number);
    let line = Some(r.line_number);
    match r.heading {
        HeadingModel::Unreleased => LintState {
            issues: st.issues + cats + (if st.seen_unreleased {
                seq![err(line, msg_second_unreleased())]
            } else {
                Seq::<IssueModel>::empty()
            }) + (if idx != 0 {
                seq![err(line, msg_unreleased_not_first())]
            } else {
                Seq::<IssueModel>::empty()
            }) + (if r.date is Some {
                seq![warn(line, msg_unreleased_dated())]
            } else {
                Seq::<IssueModel>::empty()
            }),
            seen_unreleased: true,
            ..st
        },
        HeadingModel::Version(raw) => {
            let pv = semver::parse_spec(raw);
            let pd = match r.date {
                Some(d) => date::parse_spec(d),
                None => None,
            };
            let found = cats + (if pv is None {
                seq![err(line, msg_bad_version(raw))]
            } else {
                Seq::<IssueModel>::empty()
            }) + match r.date {
                None => seq![err(line, msg_missing_date(raw))],
                Some(d) => if pd is None {
                    seq![err(line, msg_bad_date(d))]
                } else {
                    Seq::<IssueModel>::empty()
                },
            } + (if link_refs.contains(raw) {
                Seq::<IssueModel>::empty()
            } else {
                seq![warn(line, msg_no_link(raw))]
            });
            match pv {
                None => LintState { issues: st.issues + found, ..st },
                Some(v) => {
                    let dup = st.seen.contains(v);
                    LintState {
                        issues: st.issues + found + order_issues(raw, v, pd, r.line_number, st.prior)
                            + (if dup {
                            seq![err(line, msg_duplicate(raw))]
                        } else {
                            Seq::<IssueModel>::empty()
                        }),
                        seen_unreleased: st.seen_unreleased,
                        prior: Some((raw, v, pd, r.line_number)),
                        seen: if dup {
                            st.seen
                        } else {
                            st.seen.push(v)
                        },
                    }
                },
            }
        },
    }
}

/// The lint's state after the first `k` releases of `doc`.
pub open spec fn lint_upto(doc: DocModel, k: int) -> LintState
    decreases k,
{
    if k <= 0 {
        LintState {
            issues: document_issues(doc),
            seen_unreleased: false,
            prior: None,
            seen: Seq::empty(),
        }
    } else {
        check_spec(lint_upto(doc, k - 1), doc.releases[k - 1], (k - 1) as usize, doc.link_refs)
    }
}

/// The issues that `lint` reports for `doc`, in order.
pub open spec fn lint_spec(doc: DocModel) -> Seq<IssueModel> {
    lint_upto(doc, doc.releases.len() as int).issues
}

fn error(line: Option<usize>, message: String) -> (i: Issue)
    ensures
        i@ == err(line, message@),
{
    Issue { severity: Severity::Error, line, message }
}

fn warning(line: Option<usize>, message: String) -> (i: Issue)
    ensures
        i@ == warn(line, message@),
{
    Issue { severity: Severity::Warning, line, message }
}

/// `prefix + middle + suffix` as a new `String`.
fn framed(prefix: &str, middle: &str, suffix: &str) -> (m: String)
    ensures
        m@ == prefix@ + middle@ + suffix@,
{
    let mut m = String::from_str(prefix);
    m.append(middle);
    m.append(suffix);
    m
}

fn message_not_lower(raw: &String, prev: &String, prev_line: usize) -> (m: String)
    ensures
        m@ == msg_not_lower(raw@, prev@, prev_line),
{
    let mut m = framed("version '", raw.as_str(), "' is not lower than the preceding version '");
    m.append(prev.as_str());
    m.append("' (line ");
    push_decimal(&mut m, prev_line as u64);
    m.append(") — releases must be listed newest-first");
    m
}

fn message_later_date(raw: &String, d: &Date, prev: &String, pd: &Date) -> (m: String)
    ensures
        m@ == msg_later_date(raw@, *d, prev@, *pd),
{
    let mut m = framed("version '", raw.as_str(), "' has a later date (");
    date::push_debug(&mut m, d);
    m.append(") than the preceding, newer version '");
    m.append(prev.as_str());
    m.append("' (");
    date::push_debug(&mut m, pd);
    m.append(")");
    m
}

/// Whether `c` is one of Keep a Changelog's six categories.
fn is_standard_category(c: &String) -> (r: bool)
    ensures
        r == standard_category(c@),
{
    let names = STANDARD_CATEGORIES;
    assert(names@ == seq!["Added", "Changed", "Deprecated", "Removed", "Fixed", "Security"]);
    let mut k: usize = 0;
    while k < 6
        invariant
            k <= 6,
            names@ == seq!["Added", "Changed", "Deprecated", "Removed", "Fixed", "Security"],
            forall|j: int| 0 <= j < k ==> c@ != names@[j]@,
        decreases 6 - k,
    {
        let name = String::from_str(names[k]);
        if c.eq(&name) {
            return true;
        }
        k = k + 1;
    }
    false
}

/// Whether some link reference is exactly `raw`.
fn has_link(link_refs: &Vec<String>, raw: &String) -> (r: bool)
    ensures
        r == texts(*link_refs).contains(raw@),
{
    let mut k: usize = 0;
    while k < link_refs.len()
        invariant
            k <= link_refs.len(),
            forall|j: int| 0 <= j < k ==> link_refs@[j]@ != raw@,
        decreases link_refs.len() - k,
    {
        if link_refs[k].eq(raw) {
            assert(texts(*link_refs)[k as int] == raw@);
            return true;
        }
        k = k + 1;
    }
    assert forall|j: int| 0 <= j < texts(*link_refs).len() implies texts(*link_refs)[j] != raw@ by {
        assert(texts(*link_refs)[j] == link_refs@[j]@);
    }
    false
}

spec fn version_at(s: Seq<SemVer>, k: usize) -> SemVerModel {
    s[k as int]@
}

spec fn model_at(s: Seq<SemVerModel>, k: usize) -> SemVerModel {
    s[k as int]
}

/// The lint's running state; `prior` holds the raw text, the position in
/// `seen` of the version, the parsed date and the line of the preceding
/// valid version.
struct Linter {
    issues: Vec<Issue>,
    seen_unreleased: bool,
    prior: Option<(String, usize, Option<Date>, usize)>,
    seen: Vec<SemVer>,
}

impl Linter {
    spec fn wf(&self) -> bool {
        match self.prior {
            Some(p) => p.1 < self.seen.len(),
            None => true,
        }
    }

    spec fn model(&self) -> LintState {
        LintState {
            issues: self.issues@.map_values(|i: Issue| i@),
            seen_unreleased: self.seen_unreleased,
            prior: match self.prior {
                Some(p) => Some((p.0@, self.seen@[p.1 as int]@, p.2, p.3)),
                None => None,
            },
            seen: self.seen@.map_values(|v: SemVer| v@),
        }
    }

    fn add(&mut self, i: Issue)
        ensures
            final(self).model() == (LintState {
                issues: old(self).model().issues.push(i@),
                ..old(self).model()
            }),
            final(self).prior == old(self).prior,
            final(self).seen == old(self).seen,
    {
        self.issues.push(i);
        assert(self.model().issues =~= old(self).model().issues.push(i@));
    }

    /// Checks the categories, heading, date, link and order of `r`.
    fn check(&mut self, r: &Release, idx: usize, link_refs: &Vec<String>)
        requires
            old(self).wf(),
        ensures
            final(self).wf(),
            final(self).model() == check_spec(old(self).model(), r@, idx, texts(*link_refs)),
    {
        let ghost st = old(self).model();
        let ghost rm = r@;
        let line = Some(r.line_number);
        let mut j: usize = 0;
        while j < r.sections.len()
            invariant
                j <= r.sections.len(),
                rm == r@,
                line == Some(r.line_number),
                self.wf(),
                self.prior == old(self).prior,
                self.seen == old(self).seen,
                self.model() == (LintState {
                    issues: st.issues + category_issues(rm.sections.take(j as int), r.line_number),
                    ..st
                }),
            decreases r.sections.len() - j,
        {
            assert(rm.sections.take(j + 1).drop_last() =~= rm.sections.take(j as int));
            assert(rm.sections.take(j + 1).last() == rm.sections[j as int]);
            if !is_standard_category(&r.sections[j].0) {
                let m = framed(
                    "unknown category '",
                    r.sections[j].0.as_str(),
                    "' (expected one of Added, Changed, Deprecated, Removed, Fixed, Security)",
                );
                self.add(error(line, m));
            }
            assert(self.model().issues =~= st.issues + category_issues(
                rm.sections.take(j + 1),
                r.line_number,
            ));
            j = j + 1;
        }
        assert(rm.sections.take(r.sections.len() as int) =~= rm.sections);
        match &r.heading {
            VersionHeading::Unreleased => {
                if self.seen_unreleased {
                    self.add(error(line, String::from_str("more than one '[Unreleased]' section")));
                }
                self.seen_unreleased = true;
                if idx != 0 {
                    self.add(
                        error(line, String::from_str("'[Unreleased]' must be the first release section")),
                    );
                }
                if r.date.is_some() {
                    self.add(
                        warning(line, String::from_str("'[Unreleased]' should not have a release date")),
                    );
                }
                assert(self.model().issues =~= check_spec(st, rm, idx, texts(*link_refs)).issues);
            },
            VersionHeading::Version(raw) => {
                let parsed = semver::parse(raw.as_str());
                if parsed.is_none() {
                    self.add(error(line, framed("'", raw.as_str(), "' is not a valid semantic version")));
                }
                let pd: Option<Date> = match &r.date {
                    None => {
                        self.add(error(line, framed("version '", raw.as_str(), "' is missing a release date")));
                        None
                    },
                    Some(d) => {
                        let p = date::parse(d.as_str());
                        if p.is_none() {
                            self.add(error(line, framed("'", d.as_str(), "' is not a valid YYYY-MM-DD date")));
                        }
                        p
                    },
                };
                if !has_link(link_refs, raw) {
                    self.add(
                        warning(line, framed("no '[", raw.as_str(), "]: <url>' link reference definition found")),
                    );
                }
                let ghost after_found = self.model();
                match parsed {
                    None => {
                        assert(self.model().issues =~= check_spec(st, rm, idx, texts(*link_refs)).issues);
                    },
                    Some(v) => {
                        self.check_order(raw, &v, pd, r.line_number);
                        let ghost after_order = self.model();
                        assert(after_order.issues =~= after_found.issues + order_issues(
                            raw@,
                            v@,
                            pd,
                            r.line_number,
                            st.prior,
                        ));
                        self.record(raw, v, pd, r.line_number);
                        assert(self.model().issues =~= check_spec(st, rm, idx, texts(*link_refs)).issues);
                    },
                }
            },
        }
    }
}

impl Linter {
    /// Checks a valid version against the preceding valid version: its
    /// precedence must be lower, and its date must not be later.
    fn check_order(&mut self, raw: &String, v: &SemVer, pd: Option<Date>, line: usize)
        requires
            old(self).wf(),
        ensures
            final(self).wf(),
            final(self).model() == (LintState {
                issues: old(self).model().issues + order_issues(
                    raw@,
                    v@,
                    pd,
                    line,
                    old(self).model().prior,
                ),
                ..old(self).model()
            }),
    {
        let ghost st = self.model();
        let l = Some(line);
        match &self.prior {
            Some(p) => {
                let prev_raw = p.0.clone();
                let prev_line = p.3;
                let prev_date = p.2;
                let lower = match semver::compare(v, &self.seen[p.1]) {
                    Ordering::Less => true,
                    _ => false,
                };
                proof {
                    semver::lemma_precedence_antisymmetric(v@, version_at(self.seen@, p.1));
                }
                if !lower {
                    self.add(error(l, message_not_lower(raw, &prev_raw, prev_line)));
                }
                match (pd, prev_date) {
                    (Some(x), Some(y)) => {
                        if date::is_later(&x, &y) {
                            self.add(error(l, message_later_date(raw, &x, &prev_raw, &y)));
                        }
                    },
                    _ => {},
                }
                assert(self.model().issues =~= st.issues + order_issues(raw@, v@, pd, line, st.prior));
            },
            None => {
                assert(st.issues + order_issues(raw@, v@, pd, line, st.prior) =~= st.issues);
            },
        }
    }

    /// Makes `v` the preceding version, reporting it when it is a version
    /// already seen, and remembering it otherwise.
    fn record(&mut self, raw: &String, v: SemVer, pd: Option<Date>, line: usize)
        requires
            old(self).wf(),
        ensures
            final(self).wf(),
            final(self).model() == ({
                let st = old(self).model();
                let dup = st.seen.contains(v@);
                LintState {
                    issues: st.issues + (if dup {
                        seq![err(Some(line), msg_duplicate(raw@))]
                    } else {
                        Seq::<IssueModel>::empty()
                    }),
                    seen_unreleased: st.seen_unreleased,
                    prior: Some((raw@, v@, pd, line)),
                    seen: if dup {
                        st.seen
                    } else {
                        st.seen.push(v@)
                    },
                }
            }),
    {
        let ghost st = self.model();
        let mut k: usize = 0;
        let mut found: Option<usize> = None;
        while k < self.seen.len() && found.is_none()
            invariant
                k <= self.seen.len(),
                self.model() == st,
                self.wf(),
                match found {
                    Some(j) => j < self.seen.len() && version_at(self.seen@, j) == v@,
                    None => forall|j: int| 0 <= j < k ==> self.seen@[j]@ != v@,
                },
            decreases self.seen.len() - k,
        {
            let same = match semver::compare(&self.seen[k], &v) {
                Ordering::Equal => true,
                _ => false,
            };
            proof {
                semver::lemma_precedence_equal(version_at(self.seen@, k), v@);
            }
            if same {
                found = Some(k);
            }
            k = k + 1;
        }
        let at = match found {
            Some(j) => {
                assert(model_at(st.seen, j) == v@);
                assert(st.seen.contains(v@));
                self.add(error(Some(line), framed("duplicate version '", raw.as_str(), "'")));
                j
            },
            None => {
                assert forall|j: int| 0 <= j < st.seen.len() implies st.seen[j] != v@ by {
                    assert(st.seen[j] == self.seen@[j]@);
                }
                self.seen.push(v);
                assert(self.seen@.map_values(|x: SemVer| x@) =~= st.seen.push(self.seen@[self.seen.len() - 1]@));
                self.seen.len() - 1
            },
        };
        self.prior = Some((raw.clone(), at, pd, line));
        assert(self.model().issues =~= st.issues + (if st.seen.contains(v@) {
            seq![err(Some(line), msg_duplicate(raw@))]
        } else {
            Seq::<IssueModel>::empty()
        }));
    }
}

/// Checks `doc` against Keep a Changelog's rules; returns the issues in
/// the order they were found.
pub fn lint(doc: &ParsedChangelog) -> (issues: Vec<Issue>)
    ensures
        issues@.map_values(|i: Issue| i@) == lint_spec(doc@),
{
    let ghost d = doc@;
    let mut linter = Linter {
        issues: Vec::new(),
        seen_unreleased: false,
        prior: None,
        seen: Vec::new(),
    };
    if !doc.has_title {
        linter.add(warning(None, String::from_str("missing a top-level '# ' title")));
    }
    let mut k: usize = 0;
    while k < doc.malformed_headings.len()
        invariant
            k <= doc.malformed_headings.len(),
            d == doc@,
            linter.wf(),
            linter.prior is None,
            linter.seen@.len() == 0,
            !linter.seen_unreleased,
            linter.model().issues == (if d.has_title {
                Seq::<IssueModel>::empty()
            } else {
                seq![warn(None, msg_missing_title())]
            }) + d.malformed_headings.take(k as int).map_values(
                |m: (usize, Seq<char>)| err(Some(m.0), msg_malformed(m.1)),
            ),
        decreases doc.malformed_headings.len() - k,
    {
        let m = framed(
            "'## ",
            doc.malformed_headings[k].1.as_str(),
            "' does not match '[Unreleased]' or '[version] - YYYY-MM-DD' — its content is not being linted at all",
        );
        linter.add(error(Some(doc.malformed_headings[k].0), m));
        assert(d.malformed_headings.take(k + 1).map_values(
            |m: (usize, Seq<char>)| err(Some(m.0), msg_malformed(m.1)),
        ) =~= d.malformed_headings.take(k as int).map_values(
            |m: (usize, Seq<char>)| err(Some(m.0), msg_malformed(m.1)),
        ).push(err(Some(d.malformed_headings[k as int].0), msg_malformed(d.malformed_headings[k as int].1))));
        k = k + 1;
    }
    assert(d.malformed_headings.take(d.malformed_headings.len() as int) =~= d.malformed_headings);
    if doc.releases.len() == 0 && doc.malformed_headings.len() == 0 {
        linter.add(warning(None, String::from_str("no release sections ('## [...]') found")));
    }
    assert(linter.model().issues =~= document_issues(d));
    assert(linter.model().seen =~= Seq::<SemVerModel>::empty());
    assert(linter.model() =~~= lint_upto(d, 0));
    let mut idx: usize = 0;
    while idx < doc.releases.len()
        invariant
            idx <= doc.releases.len(),
            d == doc@,
            linter.wf(),
            linter.model() == lint_upto(d, idx as int),
        decreases doc.releases.len() - idx,
    {
        linter.check(&doc.releases[idx], idx, &doc.link_refs);
        idx = idx + 1;
    }
    linter.issues
}

proof fn lemma_prefix_contains(a: Seq<IssueModel>, b: Seq<IssueModel>, x: IssueModel)
    requires
        a.is_prefix_of(b),
        a.contains(x),
    ensures
        b.contains(x),
{
    let k = choose|k: int| 0 <= k < a.len() && a[k] == x;
    assert(b[k] == x);
}

/// Checking a release only ever appends issues.
proof fn lemma_check_extends(st: LintState, r: ReleaseModel, idx: usize, link_refs: Seq<Seq<char>>)
    ensures
        st.issues.is_prefix_of(check_spec(st, r, idx, link_refs).issues),
{
    let after = check_spec(st, r, idx, link_refs).issues;
    assert(after.subrange(0, st.issues.len() as int) =~= st.issues);
}

/// The issues after `k1` releases are a prefix of those after `k2 >= k1`.
proof fn lemma_lint_upto_extends(doc: DocModel, k1: int, k2: int)
    requires
        0 <= k1 <= k2 <= doc.releases.len(),
    ensures
        lint_upto(doc, k1).issues.is_prefix_of(lint_upto(doc, k2).issues),
    decreases k2 - k1,
{
    if k1 < k2 {
        lemma_lint_upto_extends(doc, k1, k2 - 1);
        lemma_check_extends(
            lint_upto(doc, k2 - 1),
            doc.releases[k2 - 1],
            (k2 - 1) as usize,
            doc.link_refs,
        );
        let a = lint_upto(doc, k1).issues;
        let b = lint_upto(doc, k2 - 1).issues;
        let c = lint_upto(doc, k2).issues;
        assert(c.subrange(0, a.len() as int) =~= b.subrange(0, a.len() as int));
    } else {
        let a = lint_upto(doc, k1).issues;
        assert(a.subrange(0, a.len() as int) =~= a);
    }
}

/// An issue found while checking release `i` is in the final report.
proof fn lemma_found_at(doc: DocModel, i: int, x: IssueModel)
    requires
        0 <= i < doc.releases.len(),
        lint_upto(doc, i + 1).issues.contains(x),
    ensures
        lint_spec(doc).contains(x),
{
    lemma_lint_upto_extends(doc, i + 1, doc.releases.len() as int);
    lemma_prefix_contains(lint_upto(doc, i + 1).issues, lint_spec(doc), x);
}

/// Every malformed heading is reported as an error naming its line.
pub proof fn lemma_malformed_heading_reported(doc: DocModel, k: int)
    requires
        0 <= k < doc.malformed_headings.len(),
    ensures
        lint_spec(doc).contains(
            err(Some(doc.malformed_headings[k].0), msg_malformed(doc.malformed_headings[k].1)),
        ),
{
    let m = doc.malformed_headings;
    let x = err(Some(m[k].0), msg_malformed(m[k].1));
    let title = if doc.has_title {
        Seq::<IssueModel>::empty()
    } else {
        seq![warn(None, msg_missing_title())]
    };
    let d = document_issues(doc);
    assert(d[title.len() + k] == x);
    lemma_lint_upto_extends(doc, 0, doc.releases.len() as int);
    lemma_prefix_contains(d, lint_spec(doc), x);
}

/// An `[Unreleased]` section that is not the first release section is
/// reported as an error at its line.
pub proof fn lemma_unreleased_not_first_reported(doc: DocModel, i: int)
    requires
        0 < i < doc.releases.len(),
        doc.releases.len() <= usize::MAX,
        doc.releases[i].heading is Unreleased,
    ensures
        lint_spec(doc).contains(
            err(Some(doc.releases[i].line_number), msg_unreleased_not_first()),
        ),
{
    let r = doc.releases[i];
    let st = lint_upto(doc, i);
    let x = err(Some(r.line_number), msg_unreleased_not_first());
    let base = st.issues + category_issues(r.sections, r.line_number) + (if st.seen_unreleased {
        seq![err(Some(r.line_number), msg_second_unreleased())]
    } else {
        Seq::<IssueModel>::empty()
    });
    let after = lint_upto(doc, i + 1).issues;
    assert(after[base.len() as int] == x);
    lemma_found_at(doc, i, x);
}

/// Whether some release before position `k` is `[Unreleased]`.
pub open spec fn unreleased_before(doc: DocModel, k: int) -> bool {
    exists|i: int| 0 <= i < k && (#[trigger] doc.releases[i]).heading is Unreleased
}

proof fn lemma_seen_unreleased(doc: DocModel, k: int)
    requires
        0 <= k <= doc.releases.len(),
    ensures
        lint_upto(doc, k).seen_unreleased == unreleased_before(doc, k),
    decreases k,
{
    if k > 0 {
        lemma_seen_unreleased(doc, k - 1);
        if doc.releases[k - 1].heading is Unreleased {
            assert(unreleased_before(doc, k));
        } else if unreleased_before(doc, k) {
            let i = choose|i: int| 0 <= i < k && (#[trigger] doc.releases[i]).heading is Unreleased;
            assert(i < k - 1);
            assert(unreleased_before(doc, k - 1));
        }
    }
}

/// A second `[Unreleased]` section is reported as an error at its line.
pub proof fn lemma_second_unreleased_reported(doc: DocModel, i: int, j: int)
    requires
        0 <= i < j < doc.releases.len(),
        doc.releases[i].heading is Unreleased,
        doc.releases[j].heading is Unreleased,
    ensures
        lint_spec(doc).contains(err(Some(doc.releases[j].line_number), msg_second_unreleased())),
{
    let r = doc.releases[j];
    lemma_seen_unreleased(doc, j);
    assert(unreleased_before(doc, j));
    let st = lint_upto(doc, j);
    let x = err(Some(r.line_number), msg_second_unreleased());
    let base = st.issues + category_issues(r.sections, r.line_number);
    assert(lint_upto(doc, j + 1).issues[base.len() as int] == x);
    lemma_found_at(doc, j, x);
}

/// The version a release heading names, when it is a valid one.
pub open spec fn release_version(r: ReleaseModel) -> Option<SemVerModel> {
    match r.heading {
        HeadingModel::Version(raw) => semver::parse_spec(raw),
        HeadingModel::Unreleased => None,
    }
}

proof fn lemma_seen_versions(doc: DocModel, k: int, i: int)
    requires
        0 <= i < k <= doc.releases.len(),
        release_version(doc.releases[i]) is Some,
    ensures
        lint_upto(doc, k).seen.contains(release_version(doc.releases[i])->0),
    decreases k,
{
    let v = release_version(doc.releases[i])->0;
    if i < k - 1 {
        lemma_seen_versions(doc, k - 1, i);
        let prev = lint_upto(doc, k - 1).seen;
        let p = choose|p: int| 0 <= p < prev.len() && prev[p] == v;
        let now = lint_upto(doc, k).seen;
        if now != prev {
            assert(now[p] == v);
        }
    } else {
        let now = lint_upto(doc, k).seen;
        let prev = lint_upto(doc, k - 1).seen;
        if !prev.contains(v) {
            assert(now[now.len() - 1] == v);
        }
    }
}

/// A release that repeats the version of an earlier release is reported
/// as a duplicate at its line.
pub proof fn lemma_duplicate_version_reported(doc: DocModel, i: int, j: int)
    requires
        0 <= i < j < doc.releases.len(),
        release_version(doc.releases[i]) is Some,
        release_version(doc.releases[j]) == release_version(doc.releases[i]),
    ensures
        lint_spec(doc).contains(
            err(
                Some(doc.releases[j].line_number),
                msg_duplicate(doc.releases[j].heading->Version_0),
            ),
        ),
{
    let r = doc.releases[j];
    let raw = r.heading->Version_0;
    lemma_seen_versions(doc, j, i);
    let x = err(Some(r.line_number), msg_duplicate(raw));
    let after = lint_upto(doc, j + 1).issues;
    assert(after[after.len() - 1] == x);
    lemma_found_at(doc, j, x);
}

/// A versioned release without a date is reported as an error at its line.
pub proof fn lemma_missing_date_reported(doc: DocModel, i: int)
    requires
        0 <= i < doc.releases.len(),
        doc.releases[i].heading is Version,
        doc.releases[i].date is None,
    ensures
        lint_spec(doc).contains(
            err(
                Some(doc.releases[i].line_number),
                msg_missing_date(doc.releases[i].heading->Version_0),
            ),
        ),
{
    let r = doc.releases[i];
    let raw = r.heading->Version_0;
    let st = lint_upto(doc, i);
    let x = err(Some(r.line_number), msg_missing_date(raw));
    let base = st.issues + category_issues(r.sections, r.line_number) + (if semver::parse_spec(
        raw,
    ) is None {
        seq![err(Some(r.line_number), msg_bad_version(raw))]
    } else {
        Seq::<IssueModel>::empty()
    });
    assert(lint_upto(doc, i + 1).issues[base.len() as int] == x);
    lemma_found_at(doc, i, x);
}

/// End to end: a `## ` line of a changelog whose text is not a release
/// heading is reported as an error naming its line.
pub proof fn lemma_malformed_line_is_an_error(s: Seq<char>, j: int)
    requires
        0 <= j < lines(s).len(),
        is_h2_line(lines(s)[j]),
        heading_spec(trim_end(lines(s)[j]).skip(3)) is None,
    ensures
        lint_spec(parse_spec(s)).contains(
            err(Some((j + 1) as usize), msg_malformed(trim(trim_end(lines(s)[j]).skip(3)))),
        ),
{
    let doc = parse_spec(s);
    let m = ((j + 1) as usize, trim(trim_end(lines(s)[j]).skip(3)));
    crate::changelog::lemma_malformed_heading_is_kept(s, j);
    let k = choose|k: int| 0 <= k < doc.malformed_headings.len() && doc.malformed_headings[k] == m;
    lemma_malformed_heading_reported(doc, k);
}

/// The position of the last release before `k` with a valid version, or -1.
pub open spec fn last_valid_before(doc: DocModel, k: int) -> int
    decreases k,
{
    if k <= 0 {
        -1
    } else if release_version(doc.releases[k - 1]) is Some {
        k - 1
    } else {
        last_valid_before(doc, k - 1)
    }
}

/// The date a release carries, when it is a valid one.
pub open spec fn release_date(r: ReleaseModel) -> Option<Date> {
    match r.date {
        Some(d) => date::parse_spec(d),
        None => None,
    }
}

proof fn lemma_prior(doc: DocModel, k: int)
    requires
        0 <= k <= doc.releases.len(),
    ensures
        -1 <= last_valid_before(doc, k) < k,
        last_valid_before(doc, k) >= 0 ==> release_version(doc.releases[last_valid_before(doc, k)]) is Some,
        lint_upto(doc, k).prior == (if last_valid_before(doc, k) >= 0 {
            let r = doc.releases[last_valid_before(doc, k)];
            Some((r.heading->Version_0, release_version(r)->0, release_date(r), r.line_number))
        } else {
            None
        }),
    decreases k,
{
    if k > 0 {
        lemma_prior(doc, k - 1);
    }
}

/// A valid version that is not lower than the preceding valid version is
/// reported at its line, naming that version and its line.
pub proof fn lemma_not_lower_reported(doc: DocModel, j: int)
    requires
        0 <= j < doc.releases.len(),
        release_version(doc.releases[j]) is Some,
        last_valid_before(doc, j) >= 0,
        precedence(
            release_version(doc.releases[j])->0,
            release_version(doc.releases[last_valid_before(doc, j)])->0,
        ) >= 0,
    ensures
        lint_spec(doc).contains(
            err(
                Some(doc.releases[j].line_number),
                msg_not_lower(
                    doc.releases[j].heading->Version_0,
                    doc.releases[last_valid_before(doc, j)].heading->Version_0,
                    doc.releases[last_valid_before(doc, j)].line_number,
                ),
            ),
        ),
{
    lemma_prior(doc, j);
    let r = doc.releases[j];
    let raw = r.heading->Version_0;
    let p = doc.releases[last_valid_before(doc, j)];
    let x = err(Some(r.line_number), msg_not_lower(raw, p.heading->Version_0, p.line_number));
    let v = release_version(r)->0;
    let oi = order_issues(raw, v, release_date(r), r.line_number, lint_upto(doc, j).prior);
    assert(oi[0] == x);
    let after = lint_upto(doc, j + 1).issues;
    let st = lint_upto(doc, j);
    let pre = st.issues + category_issues(r.sections, r.line_number) + (if semver::parse_spec(
        raw,
    ) is None {
        seq![err(Some(r.line_number), msg_bad_version(raw))]
    } else {
        Seq::<IssueModel>::empty()
    }) + match r.date {
        None => seq![err(Some(r.line_number), msg_missing_date(raw))],
        Some(d) => if date::parse_spec(d) is None {
            seq![err(Some(r.line_number), msg_bad_date(d))]
        } else {
            Seq::<IssueModel>::empty()
        },
    } + (if doc.link_refs.contains(raw) {
        Seq::<IssueModel>::empty()
    } else {
        seq![warn(Some(r.line_number), msg_no_link(raw))]
    });
    assert(after[pre.len() as int] == x);
    lemma_found_at(doc, j, x);
}

/// A valid version dated later than the preceding valid version is
/// reported at its line, naming both dates.
pub proof fn lemma_later_date_reported(doc: DocModel, j: int)
    requires
        0 <= j < doc.releases.len(),
        release_version(doc.releases[j]) is Some,
        last_valid_before(doc, j) >= 0,
        release_date(doc.releases[j]) is Some,
        release_date(doc.releases[last_valid_before(doc, j)]) is Some,
        date::later(
            release_date(doc.releases[j])->0,
            release_date(doc.releases[last_valid_before(doc, j)])->0,
        ),
    ensures
        lint_spec(doc).contains(
            err(
                Some(doc.releases[j].line_number),
                msg_later_date(
                    doc.releases[j].heading->Version_0,
                    release_date(doc.releases[j])->0,
                    doc.releases[last_valid_before(doc, j)].heading->Version_0,
                    release_date(doc.releases[last_valid_before(doc, j)])->0,
                ),
            ),
        ),
{
    lemma_prior(doc, j);
    let r = doc.releases[j];
    let raw = r.heading->Version_0;
    let p = doc.releases[last_valid_before(doc, j)];
    let x = err(
        Some(r.line_number),
        msg_later_date(raw, release_date(r)->0, p.heading->Version_0, release_date(p)->0),
    );
    let v = release_version(r)->0;
    let oi = order_issues(raw, v, release_date(r), r.line_number, lint_upto(doc, j).prior);
    assert(oi.contains(x)) by {
        assert(oi[oi.len() - 1] == x);
    }
    let after = lint_upto(doc, j + 1).issues;
    let st = lint_upto(doc, j);
    let k = choose|k: int| 0 <= k < oi.len() && oi[k] == x;
    let dup = if st.seen.contains(v) {
        seq![err(Some(r.line_number), msg_duplicate(raw))]
    } else {
        Seq::<IssueModel>::empty()
    };
    assert(after.len() >= oi.len() + dup.len());
    assert(after[after.len() - dup.len() - oi.len() + k] == x);
    lemma_found_at(doc, j, x);
}

/// How many of `issues` are errors.
pub open spec fn error_total(issues: Seq<IssueModel>) -> nat
    decreases issues.len(),
{
    if issues.len() == 0 {
        0
    } else {
        error_total(issues.drop_last()) + if issues.last().severity == Severity::Error {
            1nat
        } else {
            0nat
        }
    }
}

proof fn lemma_error_total_bound(issues: Seq<IssueModel>)
    ensures
        error_total(issues) <= issues.len(),
    decreases issues.len(),
{
    if issues.len() > 0 {
        lemma_error_total_bound(issues.drop_last());
    }
}

/// How many of `issues` are errors (the report fails when any is).
pub fn error_count(issues: &Vec<Issue>) -> (n: usize)
    ensures
        n == error_total(issues@.map_values(|i: Issue| i@)),
{
    let ghost all = issues@.map_values(|i: Issue| i@);
    let mut n: usize = 0;
    let mut k: usize = 0;
    while k < issues.len()
        invariant
            k <= issues.len(),
            all == issues@.map_values(|i: Issue| i@),
            n == error_total(all.take(k as int)),
        decreases issues.len() - k,
    {
        assert(all.take(k + 1).drop_last() =~= all.take(k as int));
        assert(all.take(k + 1).last() == issues@[k as int]@);
        proof {
            lemma_error_total_bound(all.take(k as int));
        }
        match issues[k].severity {
            Severity::Error => {
                n = n + 1;
            },
            Severity::Warning => {},
        }
        k = k + 1;
    }
    assert(all.take(issues.len() as int) =~= all);
    n
}

/// The exit status of a lint run that read its file: 1 when any issue is
/// an error, 0 when there are only warnings or nothing at all.
pub fn lint_exit_code(issues: &Vec<Issue>) -> (code: u8)
    ensures
        code == (if error_total(issues@.map_values(|i: Issue| i@)) > 0 {
            1u8
        } else {
            0u8
        }),
{
    if error_count(issues) > 0 {
        1
    } else {
        0
    }
}

/// The label a report line gives an issue's severity.
pub open spec fn severity_label(s: Severity) -> Seq<char> {
    match s {
        Severity::Error => "ERROR"@,
        Severity::Warning => "WARNING"@,
    }
}

/// How the report shows `issue` for the file named `file`:
/// `file:line: [LABEL] message`, or `file: [LABEL] message` without a line.
pub open spec fn report_text(file: Seq<char>, issue: IssueModel) -> Seq<char> {
    file + match issue.line {
        Some(l) => ":"@ + decimal(l as nat),
        None => Seq::empty(),
    } + ": ["@ + severity_label(issue.severity) + "] "@ + issue.message
}

/// The report line for `issue` in the file named `file`.
pub fn report_line(file: &str, issue: &Issue) -> (r: String)
    ensures
        r@ == report_text(file@, issue@),
{
    let mut r = String::from_str(file);
    match issue.line {
        Some(l) => {
            r.append(":");
            push_decimal(&mut r, l as u64);
        },
        None => {},
    }
    r.append(": [");
    match issue.severity {
        Severity::Error => r.append("ERROR"),
        Severity::Warning => r.append("WARNING"),
    }
    r.append("] ");
    r.append(issue.message.as_str());
    assert(r@ =~= report_text(file@, issue@));
    r
}

proof fn lemma_category_issue(sections: Seq<(Seq<char>, Seq<Seq<char>>)>, line: usize, k: int)
    requires
        0 <= k < sections.len(),
        !standard_category(sections[k].0),
    ensures
        category_issues(sections, line).contains(err(Some(line), msg_unknown_category(sections[k].0))),
    decreases sections.len(),
{
    let x = err(Some(line), msg_unknown_category(sections[k].0));
    let rest = sections.drop_last();
    if k == sections.len() - 1 {
        let c = category_issues(sections, line);
        assert(c[c.len() - 1] == x);
    } else {
        assert(rest[k] == sections[k]);
        lemma_category_issue(rest, line, k);
        let a = category_issues(rest, line);
        let j = choose|j: int| 0 <= j < a.len() && a[j] == x;
        assert(category_issues(sections, line)[j] == x);
    }
}

/// The issues found while checking release `i`, before the version and
/// date checks: unknown categories come first.
proof fn lemma_found_in_categories(doc: DocModel, i: int, x: IssueModel)
    requires
        0 <= i < doc.releases.len(),
        category_issues(doc.releases[i].sections, doc.releases[i].line_number).contains(x),
    ensures
        lint_spec(doc).contains(x),
{
    let r = doc.releases[i];
    let st = lint_upto(doc, i);
    let cats = category_issues(r.sections, r.line_number);
    let j = choose|j: int| 0 <= j < cats.len() && cats[j] == x;
    assert(lint_upto(doc, i + 1).issues[st.issues.len() + j] == x);
    lemma_found_at(doc, i, x);
}

/// A category that is not one of the six is reported as an error at the
/// line of its release.
pub proof fn lemma_unknown_category_reported(doc: DocModel, i: int, k: int)
    requires
        0 <= i < doc.releases.len(),
        0 <= k < doc.releases[i].sections.len(),
        !standard_category(doc.releases[i].sections[k].0),
    ensures
        lint_spec(doc).contains(
            err(
                Some(doc.releases[i].line_number),
                msg_unknown_category(doc.releases[i].sections[k].0),
            ),
        ),
{
    let r = doc.releases[i];
    lemma_category_issue(r.sections, r.line_number, k);
    lemma_found_in_categories(doc, i, err(Some(r.line_number), msg_unknown_category(r.sections[k].0)));
}

/// A heading that is not a valid semantic version is reported as an
/// error at its line.
pub proof fn lemma_bad_version_reported(doc: DocModel, i: int)
    requires
        0 <= i < doc.releases.len(),
        doc.releases[i].heading is Version,
        semver::parse_spec(doc.releases[i].heading->Version_0) is None,
    ensures
        lint_spec(doc).contains(
            err(
                Some(doc.releases[i].line_number),
                msg_bad_version(doc.releases[i].heading->Version_0),
            ),
        ),
{
    let r = doc.releases[i];
    let raw = r.heading->Version_0;
    let st = lint_upto(doc, i);
    let x = err(Some(r.line_number), msg_bad_version(raw));
    let base = st.issues + category_issues(r.sections, r.line_number);
    assert(lint_upto(doc, i + 1).issues[base.len() as int] == x);
    lemma_found_at(doc, i, x);
}

/// A release date that is not a real `YYYY-MM-DD` date is reported as an
/// error at the line of its release.
pub proof fn lemma_bad_date_reported(doc: DocModel, i: int)
    requires
        0 <= i < doc.releases.len(),
        doc.releases[i].heading is Version,
        doc.releases[i].date is Some,
        date::parse_spec(doc.releases[i].date->0) is None,
    ensures
        lint_spec(doc).contains(
            err(Some(doc.releases[i].line_number), msg_bad_date(doc.releases[i].date->0)),
        ),
{
    let r = doc.releases[i];
    let raw = r.heading->Version_0;
    let st = lint_upto(doc, i);
    let x = err(Some(r.line_number), msg_bad_date(r.date->0));
    let base = st.issues + category_issues(r.sections, r.line_number) + (if semver::parse_spec(
        raw,
    ) is None {
        seq![err(Some(r.line_number), msg_bad_version(raw))]
    } else {
        Seq::<IssueModel>::empty()
    });
    assert(lint_upto(doc, i + 1).issues[base.len() as int] == x);
    lemma_found_at(doc, i, x);
}

/// A version without a `[version]: <url>` link reference is warned about
/// at its line (a warning, not an error).
pub proof fn lemma_missing_link_warned(doc: DocModel, i: int)
    requires
        0 <= i < doc.releases.len(),
        doc.releases[i].heading is Version,
        !doc.link_refs.contains(doc.releases[i].heading->Version_0),
    ensures
        lint_spec(doc).contains(
            warn(Some(doc.releases[i].line_number), msg_no_link(doc.releases[i].heading->Version_0)),
        ),
{
    let r = doc.releases[i];
    let raw = r.heading->Version_0;
    let st = lint_upto(doc, i);
    let x = warn(Some(r.line_number), msg_no_link(raw));
    let base = st.issues + category_issues(r.sections, r.line_number) + (if semver::parse_spec(
        raw,
    ) is None {
        seq![err(Some(r.line_number), msg_bad_version(raw))]
    } else {
        Seq::<IssueModel>::empty()
    }) + match r.date {
        None => seq![err(Some(r.line_number), msg_missing_date(raw))],
        Some(d) => if date::parse_spec(d) is None {
            seq![err(Some(r.line_number), msg_bad_date(d))]
        } else {
            Seq::<IssueModel>::empty()
        },
    };
    assert(lint_upto(doc, i + 1).issues[base.len() as int] == x);
    lemma_found_at(doc, i, x);
}

/// Each of Keep a Changelog's six names (Added, Changed, Deprecated,
/// Removed, Fixed, Security) is a standard category: a release whose
/// categories are all named among them draws no unknown-category issue.
pub proof fn lemma_six_categories_draw_no_issue(
    sections: Seq<(Seq<char>, Seq<Seq<char>>)>,
    line: usize,
)
    requires
        forall|k: int|
            0 <= k < sections.len() ==> (#[trigger] sections[k]).0 == "Added"@ || sections[k].0
                == "Changed"@ || sections[k].0 == "Deprecated"@ || sections[k].0 == "Removed"@
                || sections[k].0 == "Fixed"@ || sections[k].0 == "Security"@,
    ensures
        category_issues(sections, line) == Seq::<IssueModel>::empty(),
    decreases sections.len(),
{
    if sections.len() > 0 {
        let rest = sections.drop_last();
        assert forall|k: int| 0 <= k < rest.len() implies (#[trigger] rest[k]).0 == "Added"@
            || rest[k].0 == "Changed"@ || rest[k].0 == "Deprecated"@ || rest[k].0 == "Removed"@
            || rest[k].0 == "Fixed"@ || rest[k].0 == "Security"@ by {
            assert(rest[k] == sections[k]);
        }
        lemma_six_categories_draw_no_issue(rest, line);
        assert(sections[sections.len() - 1] == sections.last());
        assert(category_issues(sections, line) =~= Seq::<IssueModel>::empty());
    }
}

} // verus!
