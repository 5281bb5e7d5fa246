//! Laws that tie the scaffold to the parser and the lint: a scaffold
//! reads back as the releases it was made from, and the scaffold of a
//! well-ordered release history lints without an error.

use vstd::prelude::*;

use crate::changelog::{
    DocModel, HeadingModel, ParseState, ReleaseModel, is_unreleased_word, lemma_lines_joined,
    lemma_run_push, lemma_step_bracket_heading, lemma_step_category, lemma_step_lone_dash,
    lemma_step_plain, lemma_step_tag_heading, lemma_step_title, lemma_step_unreleased_heading,
    parse_spec, run,
};
use crate::date;
use crate::generate::{
    distinct_versions, head_lines, in_order, lemma_newest_first, newest_first, scaffold_lines,
    section_lines, stably_sorted, tag_key,
};
use crate::semver::{self, SemVerModel, precedence};
use crate::text::{joined, no_newline, trim, trim_end, trim_start};
use crate::validate::{self, lint_spec, lint_upto, Severity};

verus! {

/// The parser's state while reading a scaffold: title seen, nothing
/// malformed, `m` releases closed, one open, and `[Unreleased]` first.
spec fn scaffold_state(st: ParseState, m: nat) -> bool {
    &&& st.doc.has_title
    &&& st.doc.malformed_headings.len() == 0
    &&& st.doc.releases.len() == m
    &&& st.current is Some
    &&& m == 0 ==> st.current->0.heading is Unreleased
    &&& m > 0 ==> st.doc.releases[0].heading is Unreleased
}

/// The release that the scaffold's `[Unreleased]` heading reads as.
pub open spec fn is_unreleased_stub(r: ReleaseModel) -> bool {
    r.heading is Unreleased && r.date is None && r.sections.len() == 0
}

/// The release that the scaffold's section of `t` reads as: headed by
/// the tag, dated by the date without surrounding whitespace, with one
/// empty `Changed` category.
pub open spec fn is_tag_stub(r: ReleaseModel, t: (Seq<char>, Seq<char>)) -> bool {
    &&& r.heading == HeadingModel::Version(t.0)
    &&& r.date == Some(trim(t.1))
    &&& r.sections == seq![("Changed"@, Seq::<Seq<char>>::empty())]
}

/// A tag whose heading reads back as that tag: no `]` in it, and not
/// `unreleased` in any letter case.
pub open spec fn heading_safe(t: (Seq<char>, Seq<char>)) -> bool {
    &&& forall|i: int| 0 <= i < t.0.len() ==> t.0[i] != ']'
    &&& !is_unreleased_word(t.0)
}

/// A (tag, date) pair that reads back as itself (its date trimmed): no
/// line feed in either, and a tag whose heading reads back as that tag.
pub open spec fn readable_tag(t: (Seq<char>, Seq<char>)) -> bool {
    &&& no_newline(t.0)
    &&& no_newline(t.1)
    &&& heading_safe(t)
}

spec fn scaffold_exact(st: ParseState, ts: Seq<(Seq<char>, Seq<char>)>) -> bool {
    let all = st.doc.releases.push(st.current->0);
    &&& st.doc.has_title
    &&& st.doc.malformed_headings.len() == 0
    &&& st.doc.link_refs.len() == 0
    &&& st.doc.releases.len() == ts.len()
    &&& st.current is Some
    &&& is_unreleased_stub(all[0])
    &&& forall|i: int| 0 <= i < ts.len() ==> is_tag_stub(#[trigger] all[i + 1], ts[i])
}

proof fn lemma_head_run()
    ensures
        scaffold_state(run(head_lines()), 0),
        scaffold_exact(run(head_lines()), Seq::empty()),
{
    reveal_strlit("# Changelog");
    reveal_strlit("Changelog");
    reveal_strlit("All notable changes to this project will be documented in this file.");
    reveal_strlit("The format is based on [Keep a Changelog](https://keepachangelog.com/en/1.1.0/),");
    reveal_strlit("and this project adheres to [Semantic Versioning](https://semver.org/spec/v2.0.0.html).");
    reveal_strlit("## [Unreleased]");
    let h = head_lines();
    let l0 = Seq::<Seq<char>>::empty();
    let l1 = l0.push(h[0]);
    let l2 = l1.push(h[1]);
    let l3 = l2.push(h[2]);
    let l4 = l3.push(h[3]);
    let l5 = l4.push(h[4]);
    let l6 = l5.push(h[5]);
    let l7 = l6.push(h[6]);
    let l8 = l7.push(h[7]);
    let l9 = l8.push(h[8]);
    assert(l9 =~= h);
    lemma_run_push(l0, h[0]);
    lemma_run_push(l1, h[1]);
    lemma_run_push(l2, h[2]);
    lemma_run_push(l3, h[3]);
    lemma_run_push(l4, h[4]);
    lemma_run_push(l5, h[5]);
    lemma_run_push(l6, h[6]);
    lemma_run_push(l7, h[7]);
    lemma_run_push(l8, h[8]);
    assert(h[0] =~= seq!['#', ' '] + "Changelog"@);
    lemma_step_title(run(l0), "Changelog"@, 1);
    lemma_step_plain(run(l1), h[1], 2);
    lemma_step_plain(run(l2), h[2], 3);
    lemma_step_plain(run(l3), h[3], 4);
    lemma_step_plain(run(l4), h[4], 5);
    lemma_step_plain(run(l5), h[5], 6);
    lemma_step_plain(run(l6), h[6], 7);
    assert(h[7] =~= seq!['#', '#', ' ', '[', 'U', 'n', 'r', 'e', 'l', 'e', 'a', 's', 'e', 'd', ']']);
    lemma_step_unreleased_heading(run(l7), 8);
    lemma_step_plain(run(l8), h[8], 9);
    let st = run(h);
    assert(st.doc.releases.push(st.current->0)[0] == st.current->0);
}

/// Reading the section of `t` after a scaffold's lines `ls` (of which the
/// sections read so far come from `ts`) closes one more release, and
/// opens one headed by `t` when its heading is safe.
proof fn lemma_section_run(ls: Seq<Seq<char>>, ts: Seq<(Seq<char>, Seq<char>)>, t: (Seq<char>, Seq<char>), m: nat)
    requires
        scaffold_state(run(ls), m),
    ensures
        scaffold_state(run(ls + section_lines(t)), m + 1),
        scaffold_exact(run(ls), ts) && heading_safe(t) ==> scaffold_exact(
            run(ls + section_lines(t)),
            ts.push(t),
        ),
{
    reveal_strlit("## [");
    reveal_strlit("] - ");
    reveal_strlit("### Changed");
    reveal_strlit("Changed");
    reveal_strlit("- ");
    let s = section_lines(t);
    let l1 = ls.push(s[0]);
    let l2 = l1.push(s[1]);
    let l3 = l2.push(s[2]);
    let l4 = l3.push(s[3]);
    let l5 = l4.push(s[4]);
    assert(l5 =~= ls + s);
    lemma_run_push(ls, s[0]);
    lemma_run_push(l1, s[1]);
    lemma_run_push(l2, s[2]);
    lemma_run_push(l3, s[3]);
    lemma_run_push(l4, s[4]);
    assert(s[0] =~= seq!['#', '#', ' ', '['] + t.0 + seq![']', ' ', '-'] + (seq![' '] + t.1));
    assert(s[0] =~= seq!['#', '#', ' ', '['] + t.0 + seq![']', ' ', '-', ' '] + t.1);
    let st0 = run(ls);
    lemma_step_bracket_heading(st0, t.0, seq![' '] + t.1, (ls.len() + 1) as usize);
    if heading_safe(t) {
        lemma_step_tag_heading(st0, t.0, t.1, (ls.len() + 1) as usize);
    }
    let st1 = run(l1);
    assert(st1.doc.releases =~= st0.doc.releases.push(st0.current->0));
    assert(scaffold_state(st1, m + 1));
    lemma_step_plain(st1, s[1], (l1.len() + 1) as usize);
    assert(s[2] =~= seq!['#', '#', '#', ' '] + "Changed"@);
    lemma_step_category(run(l2), "Changed"@, (l2.len() + 1) as usize);
    assert(scaffold_state(run(l3), m + 1));
    assert(s[3] =~= seq!['-', ' ']);
    assert(seq!['-', ' '].drop_last() =~= seq!['-']);
    assert(seq!['-', ' '].last() == ' ');
    assert(trim_end(seq!['-']) == seq!['-']);
    assert(trim_end(seq!['-', ' ']) == trim_end(seq!['-']));
    assert(trim_end(s[3]) == seq!['-']);
    lemma_step_lone_dash(run(l3), s[3], (l3.len() + 1) as usize);
    lemma_step_plain(run(l4), s[4], (l4.len() + 1) as usize);
    if scaffold_exact(st0, ts) && heading_safe(t) {
        let old_all = st0.doc.releases.push(st0.current->0);
        let st5 = run(l5);
        let all = st5.doc.releases.push(st5.current->0);
        let ts2 = ts.push(t);
        assert(st5.doc.releases =~= old_all);
        assert(all[0] == old_all[0]);
        assert forall|i: int| 0 <= i < ts2.len() implies is_tag_stub(#[trigger] all[i + 1], ts2[i]) by {
            if i < ts.len() {
                assert(all[i + 1] == old_all[i + 1]);
                assert(ts2[i] == ts[i]);
            } else {
                assert(all[i + 1] == st5.current->0);
                assert(st5.current->0.sections =~= seq![("Changed"@, Seq::<Seq<char>>::empty())]);
            }
        }
    }
}

proof fn lemma_sections_run(ts: Seq<(Seq<char>, Seq<char>)>)
    ensures
        scaffold_state(run(scaffold_lines(ts)), ts.len()),
        (forall|k: int| 0 <= k < ts.len() ==> heading_safe(#[trigger] ts[k])) ==> scaffold_exact(
            run(scaffold_lines(ts)),
            ts,
        ),
    decreases ts.len(),
{
    if ts.len() == 0 {
        assert(scaffold_lines(ts) =~= head_lines());
        assert(ts =~= Seq::<(Seq<char>, Seq<char>)>::empty());
        lemma_head_run();
    } else {
        let rest = ts.drop_last();
        lemma_sections_run(rest);
        assert(scaffold_lines(ts) =~= scaffold_lines(rest) + section_lines(ts.last()));
        lemma_section_run(scaffold_lines(rest), rest, ts.last(), rest.len());
        assert(rest.push(ts.last()) =~= ts);
        if forall|k: int| 0 <= k < ts.len() ==> heading_safe(#[trigger] ts[k]) {
            assert forall|k: int| 0 <= k < rest.len() implies heading_safe(#[trigger] rest[k]) by {
                assert(rest[k] == ts[k]);
            }
            assert(heading_safe(ts[ts.len() - 1]));
        }
    }
}

proof fn lemma_no_newline_concat(a: Seq<char>, b: Seq<char>)
    requires
        no_newline(a),
        no_newline(b),
    ensures
        no_newline(a + b),
{
    assert forall|i: int| 0 <= i < (a + b).len() implies (a + b)[i] != '\n' by {
        if i < a.len() {
            assert((a + b)[i] == a[i]);
        } else {
            assert((a + b)[i] == b[i - a.len()]);
        }
    }
}

proof fn lemma_scaffold_lines_no_newline(ts: Seq<(Seq<char>, Seq<char>)>)
    requires
        forall|k: int| 0 <= k < ts.len() ==> no_newline((#[trigger] ts[k]).0) && no_newline(ts[k].1),
    ensures
        forall|i: int| 0 <= i < scaffold_lines(ts).len() ==> no_newline(#[trigger] scaffold_lines(ts)[i]),
    decreases ts.len(),
{
    let l = scaffold_lines(ts);
    if ts.len() == 0 {
        reveal_strlit("# Changelog");
        reveal_strlit("All notable changes to this project will be documented in this file.");
        reveal_strlit("The format is based on [Keep a Changelog](https://keepachangelog.com/en/1.1.0/),");
        reveal_strlit("and this project adheres to [Semantic Versioning](https://semver.org/spec/v2.0.0.html).");
        reveal_strlit("## [Unreleased]");
        assert(l =~= head_lines());
        assert forall|i: int| 0 <= i < l.len() implies no_newline(#[trigger] l[i]) by {
            assert(no_newline(l[i]));
        }
    } else {
        let rest = ts.drop_last();
        let t = ts.last();
        assert forall|k: int| 0 <= k < rest.len() implies no_newline((#[trigger] rest[k]).0) && no_newline(rest[k].1) by {
            assert(rest[k] == ts[k]);
        }
        assert(no_newline(ts[ts.len() - 1].0) && no_newline(ts[ts.len() - 1].1));
        lemma_scaffold_lines_no_newline(rest);
        let p = scaffold_lines(rest);
        let s = section_lines(t);
        assert(l =~= p + s);
        reveal_strlit("## [");
        reveal_strlit("] - ");
        reveal_strlit("### Changed");
        reveal_strlit("- ");
        lemma_no_newline_concat("## ["@, t.0);
        lemma_no_newline_concat("## ["@ + t.0, "] - "@);
        lemma_no_newline_concat("## ["@ + t.0 + "] - "@, t.1);
        assert forall|i: int| 0 <= i < l.len() implies no_newline(#[trigger] l[i]) by {
            if i < p.len() {
                assert(l[i] == p[i]);
            } else {
                assert(l[i] == s[i - p.len()]);
            }
        }
    }
}

/// A scaffold parses back into what it was made to be: it has a title,
/// one release section per tag after `[Unreleased]`, which comes first,
/// and no malformed heading, provided no tag or date holds a line feed.
pub proof fn lemma_scaffold_parses_back(ts: Seq<(Seq<char>, Seq<char>)>)
    requires
        forall|k: int| 0 <= k < ts.len() ==> no_newline((#[trigger] ts[k]).0) && no_newline(ts[k].1),
    ensures
        parse_spec(joined(scaffold_lines(ts))).has_title,
        parse_spec(joined(scaffold_lines(ts))).releases.len() == ts.len() + 1,
        parse_spec(joined(scaffold_lines(ts))).releases[0].heading is Unreleased,
        parse_spec(joined(scaffold_lines(ts))).malformed_headings.len() == 0,
{
    lemma_scaffold_lines_no_newline(ts);
    lemma_lines_joined(scaffold_lines(ts));
    lemma_sections_run(ts);
}

/// The scaffold of readable (tag, date) pairs parses back exactly: a
/// title, no link references and no malformed headings, `[Unreleased]`
/// first with no date and no categories, then one release per pair, in
/// order, headed by its tag, dated by its date without surrounding
/// whitespace, with one empty `Changed` category.
pub proof fn lemma_scaffold_reads_back_exactly(ts: Seq<(Seq<char>, Seq<char>)>)
    requires
        forall|k: int| 0 <= k < ts.len() ==> readable_tag(#[trigger] ts[k]),
    ensures
        parse_spec(joined(scaffold_lines(ts))).has_title,
        parse_spec(joined(scaffold_lines(ts))).malformed_headings.len() == 0,
        parse_spec(joined(scaffold_lines(ts))).link_refs.len() == 0,
        parse_spec(joined(scaffold_lines(ts))).releases.len() == ts.len() + 1,
        is_unreleased_stub(parse_spec(joined(scaffold_lines(ts))).releases[0]),
        forall|i: int|
            0 <= i < ts.len() ==> is_tag_stub(
                #[trigger] parse_spec(joined(scaffold_lines(ts))).releases[i + 1],
                ts[i],
            ),
{
    assert forall|k: int| 0 <= k < ts.len() implies no_newline((#[trigger] ts[k]).0) && no_newline(ts[k].1) by {
        assert(readable_tag(ts[k]));
    }
    assert forall|k: int| 0 <= k < ts.len() implies heading_safe(#[trigger] ts[k]) by {
        assert(readable_tag(ts[k]));
    }
    lemma_scaffold_lines_no_newline(ts);
    lemma_lines_joined(scaffold_lines(ts));
    lemma_sections_run(ts);
}

/// The version a plain tag names.
pub open spec fn tag_version(t: (Seq<char>, Seq<char>)) -> SemVerModel {
    semver::parse_spec(t.0)->0
}

/// The date a plain tag carries.
pub open spec fn tag_date(t: (Seq<char>, Seq<char>)) -> date::Date {
    date::parse_spec(t.1)->0
}

/// Readable (tag, date) pairs of valid versions and valid dates, listed
/// strictly newest version first and never with a later date after an
/// earlier one.
pub open spec fn release_history(ts: Seq<(Seq<char>, Seq<char>)>) -> bool {
    &&& forall|k: int|
        0 <= k < ts.len() ==> readable_tag(#[trigger] ts[k]) && semver::parse_spec(ts[k].0) is Some
            && date::parse_spec(ts[k].1) is Some
    &&& forall|i: int, j: int|
        0 <= i < j < ts.len() ==> precedence(tag_version(#[trigger] ts[j]), tag_version(#[trigger] ts[i])) < 0
    &&& forall|i: int, j: int|
        0 <= i < j < ts.len() ==> !date::later(tag_date(#[trigger] ts[j]), tag_date(#[trigger] ts[i]))
}

/// The lint of a scaffold of `ts` read back as `doc`: one missing-link
/// warning per tag, at the line of its release, and nothing else.
pub open spec fn link_warnings(doc: DocModel, ts: Seq<(Seq<char>, Seq<char>)>, n: nat) -> Seq<
    validate::IssueModel,
> {
    Seq::new(n, |m: int| validate::warn(Some(doc.releases[m + 1].line_number), validate::msg_no_link(ts[m].0)))
}

/// A valid date has no surrounding whitespace.
proof fn lemma_date_is_trimmed(d: Seq<char>)
    requires
        date::parse_spec(d) is Some,
    ensures
        trim(d) == d,
{
    assert(crate::text::is_digit(d.subrange(0, 4)[0]));
    assert(crate::text::is_digit(d.subrange(8, 10)[1]));
    assert(d.subrange(0, 4)[0] == d[0]);
    assert(d.subrange(8, 10)[1] == d[9]);
    assert(trim_start(d) == d);
    assert(d.last() == d[9]);
}

#[verifier::rlimit(40)]
proof fn lemma_lint_history(doc: DocModel, ts: Seq<(Seq<char>, Seq<char>)>, k: int)
    requires
        release_history(ts),
        doc.has_title,
        doc.malformed_headings.len() == 0,
        doc.link_refs.len() == 0,
        doc.releases.len() == ts.len() + 1,
        is_unreleased_stub(doc.releases[0]),
        forall|i: int| 0 <= i < ts.len() ==> is_tag_stub(#[trigger] doc.releases[i + 1], ts[i]),
        1 <= k <= doc.releases.len(),
    ensures
        lint_upto(doc, k).issues == link_warnings(doc, ts, (k - 1) as nat),
        lint_upto(doc, k).seen_unreleased,
        lint_upto(doc, k).seen == Seq::new((k - 1) as nat, |m: int| tag_version(ts[m])),
        k >= 2 ==> lint_upto(doc, k).prior == Some(
            (
                ts[k - 2].0,
                tag_version(ts[k - 2]),
                Some(tag_date(ts[k - 2])),
                doc.releases[k - 1].line_number,
            ),
        ),
        k == 1 ==> lint_upto(doc, k).prior is None,
    decreases k,
{
    let prev = lint_upto(doc, k - 1);
    let r = doc.releases[k - 1];
    if k == 1 {
        assert(validate::document_issues(doc) =~= Seq::<validate::IssueModel>::empty());
        assert(validate::category_issues(r.sections, r.line_number) =~= Seq::<validate::IssueModel>::empty());
        assert(lint_upto(doc, 1).issues =~= link_warnings(doc, ts, 0));
        assert(lint_upto(doc, 1).seen =~= Seq::new(0, |m: int| tag_version(ts[m])));
    } else {
        lemma_lint_history(doc, ts, k - 1);
        let t = ts[k - 2];
        assert(is_tag_stub(doc.releases[k - 2 + 1], ts[k - 2]));
        reveal_strlit("Changed");
        let cats = validate::category_issues(r.sections, r.line_number);
        assert(r.sections.drop_last() =~= Seq::<(Seq<char>, Seq<Seq<char>>)>::empty());
        assert(validate::standard_category("Changed"@));
        assert(r.sections == seq![("Changed"@, Seq::<Seq<char>>::empty())]);
        assert(r.sections.len() == 1);
        assert(r.sections.last().0 == "Changed"@);
        assert(validate::category_issues(r.sections.drop_last(), r.line_number) =~= Seq::<validate::IssueModel>::empty());
        assert(cats =~= Seq::<validate::IssueModel>::empty());
        let v = tag_version(t);
        assert(readable_tag(ts[k - 2]) && semver::parse_spec(ts[k - 2].0) is Some && date::parse_spec(ts[k - 2].1) is Some);
        lemma_date_is_trimmed(t.1);
        let order = validate::order_issues(t.0, v, Some(tag_date(t)), r.line_number, prev.prior);
        if k >= 3 {
            assert(precedence(tag_version(ts[k - 2]), tag_version(ts[k - 3])) < 0);
            assert(!date::later(tag_date(ts[k - 2]), tag_date(ts[k - 3])));
            assert(order =~= Seq::<validate::IssueModel>::empty());
        } else {
            assert(order =~= Seq::<validate::IssueModel>::empty());
        }
        assert(!prev.seen.contains(v)) by {
            if prev.seen.contains(v) {
                let m = choose|m: int| 0 <= m < prev.seen.len() && prev.seen[m] == v;
                assert(prev.seen[m] == tag_version(ts[m]));
                assert(precedence(tag_version(ts[k - 2]), tag_version(ts[m])) < 0);
                semver::lemma_precedence_equal(v, tag_version(ts[m]));
            }
        }
        let now = lint_upto(doc, k);
        assert(!doc.link_refs.contains(t.0));
        let link = seq![validate::warn(Some(r.line_number), validate::msg_no_link(t.0))];
        assert(now.issues =~= prev.issues + link);
        assert(now.issues =~= link_warnings(doc, ts, (k - 1) as nat));
        assert(now.seen =~= Seq::new((k - 1) as nat, |m: int| tag_version(ts[m])));
    }
}

/// A scaffold of a release history (valid versions, newest first, dates
/// never later further down) lints with exactly one warning per tag, that
/// its link reference is missing, and no error.
pub proof fn lemma_scaffold_lints_clean(ts: Seq<(Seq<char>, Seq<char>)>)
    requires
        release_history(ts),
    ensures
        lint_spec(parse_spec(joined(scaffold_lines(ts)))) == link_warnings(
            parse_spec(joined(scaffold_lines(ts))),
            ts,
            ts.len(),
        ),
        forall|q: int|
            0 <= q < lint_spec(parse_spec(joined(scaffold_lines(ts)))).len() ==> (#[trigger] lint_spec(
                parse_spec(joined(scaffold_lines(ts))),
            )[q]).severity == Severity::Warning,
{
    assert forall|k: int| 0 <= k < ts.len() implies readable_tag(#[trigger] ts[k]) by {
        assert(readable_tag(ts[k]));
    }
    lemma_scaffold_reads_back_exactly(ts);
    let doc = parse_spec(joined(scaffold_lines(ts)));
    lemma_lint_history(doc, ts, doc.releases.len() as int);
}

/// Tags of valid versions, no two the same, with valid dates, where a
/// newer version is never dated before an older one, in any order.
pub open spec fn consistent_tags(ts: Seq<(Seq<char>, Seq<char>)>) -> bool {
    &&& forall|k: int|
        0 <= k < ts.len() ==> readable_tag(#[trigger] ts[k]) && date::parse_spec(ts[k].1) is Some
    &&& distinct_versions(ts)
    &&& forall|i: int, j: int|
        0 <= i < ts.len() && 0 <= j < ts.len() && precedence(
            tag_version(#[trigger] ts[i]),
            tag_version(#[trigger] ts[j]),
        ) > 0 ==> !date::later(tag_date(ts[j]), tag_date(ts[i]))
}

/// Whatever order consistent tags come in, their newest-first order is a
/// release history, and so the scaffold lints with one missing-link
/// warning per tag and nothing else.
pub proof fn lemma_scaffold_of_consistent_tags_lints_clean(ts: Seq<(Seq<char>, Seq<char>)>)
    requires
        consistent_tags(ts),
    ensures
        release_history(newest_first(ts)),
        lint_spec(parse_spec(joined(scaffold_lines(newest_first(ts))))) == link_warnings(
            parse_spec(joined(scaffold_lines(newest_first(ts)))),
            newest_first(ts),
            ts.len(),
        ),
{
    lemma_newest_first(ts);
    let out = newest_first(ts);
    let perm = choose|perm: Seq<int>| stably_sorted(ts, out, perm);
    let keys = ts.map_values(|t: (Seq<char>, Seq<char>)| tag_key(t));
    assert forall|k: int| 0 <= k < out.len() implies readable_tag(#[trigger] out[k]) && semver::parse_spec(out[k].0) is Some
        && date::parse_spec(out[k].1) is Some by {
        assert(0 <= perm[k] < ts.len() && out[k] == ts[perm[k]]);
        assert(tag_key(ts[perm[k]]) is Some);
    }
    assert forall|i: int, j: int| 0 <= i < j < out.len() implies precedence(tag_version(#[trigger] out[j]), tag_version(#[trigger] out[i])) < 0
        && !date::later(tag_date(out[j]), tag_date(out[i])) by {
        let a = perm[i];
        let b = perm[j];
        assert(in_order(keys, a, b));
        assert(0 <= a < ts.len() && out[i] == ts[a]);
        assert(0 <= b < ts.len() && out[j] == ts[b]);
        assert(a != b);
        assert(tag_key(ts[a]) is Some && tag_key(ts[b]) is Some);
        if a < b {
            assert(tag_key(ts[a]) != tag_key(ts[b]));
        } else {
            assert(tag_key(ts[b]) != tag_key(ts[a]));
        }
        let va = tag_version(ts[a]);
        let vb = tag_version(ts[b]);
        assert(keys[a] == Some(va) && keys[b] == Some(vb));
        semver::lemma_precedence_equal(vb, va);
        semver::lemma_precedence_antisymmetric(vb, va);
        assert(precedence(vb, va) < 0);
        assert(precedence(va, vb) > 0);
    }
    assert(release_history(out));
    lemma_scaffold_lints_clean(out);
    assert(out.len() == ts.len());
}

} // verus!
