//! Markdown parsing for the Keep a Changelog structure. Not a general
//! Markdown parser: Keep a Changelog's format is a narrow, predictable
//! subset (H1 title, H2 version headings, H3 category headings, `-`/`*`
//! bullet items, and `[ref]: url` link-reference definitions at the
//! bottom), so a line-based scan is enough.

use vstd::prelude::*;

use crate::text::{
    chars_of, find_char, find_char_at, find_seq, find_seq_at, has_prefix, has_prefix_at, is_ws,
    joined, no_newline, split_char, substring, trim, trim_end, trim_end_at, trim_start,
    trim_start_at,
};

verus! {

#[derive(Debug, Clone, PartialEq, Eq)]
pub enum VersionHeading {
    Unreleased,
    Version(String),
}

/// What a release heading stands for.
pub enum HeadingModel {
    Unreleased,
    Version(Seq<char>),
}

impl View for VersionHeading {
    type V = HeadingModel;

    open spec fn view(&self) -> HeadingModel {
        match self {
            VersionHeading::Unreleased => HeadingModel::Unreleased,
            VersionHeading::Version(s) => HeadingModel::Version(s@),
        }
    }
}

#[derive(Debug, Clone, PartialEq, Eq)]
pub struct Release {
    pub heading: VersionHeading,
    pub date: Option<String>,
    pub line_number: usize,
    pub sections: Vec<(String, Vec<String>)>,
}

/// What a release section stands for: its heading, its date text, the
/// line of its heading, and its categories with their bullet items.
pub struct ReleaseModel {
    pub heading: HeadingModel,
    pub date: Option<Seq<char>>,
    pub line_number: usize,
    pub sections: Seq<(Seq<char>, Seq<Seq<char>>)>,
}

pub open spec fn text_opt(o: Option<String>) -> Option<Seq<char>> {
    match o {
        Some(s) => Some(s@),
        None => None,
    }
}

pub open spec fn texts(v: Vec<String>) -> Seq<Seq<char>> {
    v@.map_values(|s: String| s@)
}

pub open spec fn section_model(p: (String, Vec<String>)) -> (Seq<char>, Seq<Seq<char>>) {
    (p.0@, texts(p.1))
}

impl View for Release {
    type V = ReleaseModel;

    open spec fn view(&self) -> ReleaseModel {
        ReleaseModel {
            heading: self.heading@,
            date: text_opt(self.date),
            line_number: self.line_number,
            sections: self.sections@.map_values(|p: (String, Vec<String>)| section_model(p)),
        }
    }
}

#[derive(Debug, Clone, PartialEq, Eq)]
pub struct ParsedChangelog {
    pub has_title: bool,
    pub releases: Vec<Release>,
    pub link_refs: Vec<String>,
    /// `## ` headings that don't match `[Unreleased]` or `[version] -
    /// date`, e.g. `## v2.0.4 (2026-07-08)`: kept (line number and raw
    /// text) rather than dropped, since a heading that doesn't parse is
    /// itself the most basic format violation a linter exists to catch.
    pub malformed_headings: Vec<(usize, String)>,
}

/// What a parsed changelog stands for.
pub struct DocModel {
    pub has_title: bool,
    pub releases: Seq<ReleaseModel>,
    pub link_refs: Seq<Seq<char>>,
    pub malformed_headings: Seq<(usize, Seq<char>)>,
}

impl View for ParsedChangelog {
    type V = DocModel;

    open spec fn view(&self) -> DocModel {
        DocModel {
            has_title: self.has_title,
            releases: self.releases@.map_values(|r: Release| r@),
            link_refs: texts(self.link_refs),
            malformed_headings: self.malformed_headings@.map_values(
                |m: (usize, String)| (m.0, m.1@),
            ),
        }
    }
}

/// A document with nothing in it.
pub open spec fn empty_doc() -> DocModel {
    DocModel {
        has_title: false,
        releases: Seq::empty(),
        link_refs: Seq::empty(),
        malformed_headings: Seq::empty(),
    }
}

impl Default for ParsedChangelog {
    fn default() -> (r: ParsedChangelog)
        ensures
            r@ == empty_doc(),
    {
        let r = ParsedChangelog {
            has_title: false,
            releases: Vec::new(),
            link_refs: Vec::new(),
            malformed_headings: Vec::new(),
        };
        assert(r@.releases =~= Seq::<ReleaseModel>::empty());
        assert(r@.link_refs =~= Seq::<Seq<char>>::empty());
        assert(r@.malformed_headings =~= Seq::<(usize, Seq<char>)>::empty());
        r
    }
}

/// The parser's state between lines: the document so far and the release
/// section still being filled.
pub struct ParseState {
    pub doc: DocModel,
    pub current: Option<ReleaseModel>,
}

pub open spec fn release_opt(o: Option<Release>) -> Option<ReleaseModel> {
    match o {
        Some(r) => Some(r@),
        None => None,
    }
}

/// `doc` once the open release section, if any, is closed.
pub open spec fn flush(doc: DocModel, current: Option<ReleaseModel>) -> DocModel {
    match current {
        Some(r) => DocModel { releases: doc.releases.push(r), ..doc },
        None => doc,
    }
}

/// Whether `s` is `unreleased` in any mix of ASCII letter case.
pub open spec fn is_unreleased_word(s: Seq<char>) -> bool {
    let lower = seq!['u', 'n', 'r', 'e', 'l', 'e', 'a', 's', 'e', 'd'];
    let upper = seq!['U', 'N', 'R', 'E', 'L', 'E', 'A', 'S', 'E', 'D'];
    s.len() == 10 && forall|i: int| 0 <= i < 10 ==> s[i] == lower[i] || s[i] == upper[i]
}

/// How the text after `## ` reads as a release heading: `[inside]`, then
/// optionally `- date`; `None` when it does not start with `[` or has no `]`.
pub open spec fn heading_spec(rest: Seq<char>) -> Option<(HeadingModel, Option<Seq<char>>)> {
    let r = trim(rest);
    let b = find_char(r, ']');
    if b < 0 || !(r.len() > 0 && r[0] == '[') {
        None
    } else {
        let inside = r.subrange(1, b);
        let after = trim(r.subrange(b + 1, r.len() as int));
        let date = if after.len() > 0 && after[0] == '-' {
            Some(trim(after.drop_first()))
        } else {
            None
        };
        if is_unreleased_word(inside) {
            Some((HeadingModel::Unreleased, date))
        } else {
            Some((HeadingModel::Version(inside), date))
        }
    }
}

/// What reading one line (numbered `n`, its line ending removed) does to
/// the parser's state.
pub open spec fn step(st: ParseState, raw: Seq<char>, n: usize) -> ParseState {
    let line = trim_end(raw);
    if has_prefix(line, seq!['#', ' ']) {
        if trim(line.skip(2)).len() > 0 {
            ParseState { doc: DocModel { has_title: true, ..st.doc }, ..st }
        } else {
            st
        }
    } else if has_prefix(line, seq!['#', '#', ' ']) {
        let rest = line.skip(3);
        let doc = flush(st.doc, st.current);
        match heading_spec(rest) {
            Some((h, d)) => ParseState {
                doc,
                current: Some(
                    ReleaseModel { heading: h, date: d, line_number: n, sections: Seq::empty() },
                ),
            },
            None => ParseState {
                doc: DocModel {
                    malformed_headings: doc.malformed_headings.push((n, trim(rest))),
                    ..doc
                },
                current: None,
            },
        }
    } else if has_prefix(line, seq!['#', '#', '#', ' ']) {
        match st.current {
            Some(r) => ParseState {
                current: Some(
                    ReleaseModel {
                        sections: r.sections.push((trim(line.skip(4)), Seq::empty())),
                        ..r
                    },
                ),
                ..st
            },
            None => st,
        }
    } else {
        let t = trim_start(line);
        if has_prefix(t, seq!['-', ' ']) || has_prefix(t, seq!['*', ' ']) {
            match st.current {
                Some(r) => if r.sections.len() > 0 {
                    let last = r.sections.last();
                    ParseState {
                        current: Some(
                            ReleaseModel {
                                sections: r.sections.update(
                                    r.sections.len() - 1,
                                    (last.0, last.1.push(trim(t.skip(2)))),
                                ),
                                ..r
                            },
                        ),
                        ..st
                    }
                } else {
                    st
                },
                None => st,
            }
        } else if line.len() > 0 && line[0] == '[' && find_seq(line, seq![']', ':', ' ']) >= 0 {
            ParseState {
                doc: DocModel {
                    link_refs: st.doc.link_refs.push(
                        line.subrange(1, find_seq(line, seq![']', ':', ' '])),
                    ),
                    ..st.doc
                },
                ..st
            }
        } else {
            st
        }
    }
}

/// The parser's state after reading `lines`, numbered from 1.
pub open spec fn run(lines: Seq<Seq<char>>) -> ParseState
    decreases lines.len(),
{
    if lines.len() == 0 {
        ParseState { doc: empty_doc(), current: None }
    } else {
        step(run(lines.drop_last()), lines.last(), lines.len() as usize)
    }
}

/// The lines of `s` as `str::lines` yields them, before trailing
/// whitespace (a `\r` among it) is removed: the pieces between `\n`s,
/// without the empty piece after a final `\n`.
pub open spec fn lines(s: Seq<char>) -> Seq<Seq<char>> {
    let p = split_char(s, '\n');
    if p.last().len() == 0 {
        p.drop_last()
    } else {
        p
    }
}

/// What `parse` gives for the text `s`.
pub open spec fn parse_spec(s: Seq<char>) -> DocModel {
    let st = run(lines(s));
    flush(st.doc, st.current)
}

pub open spec fn heading_opt(
    o: Option<(VersionHeading, Option<String>)>,
) -> Option<(HeadingModel, Option<Seq<char>>)> {
    match o {
        Some((h, d)) => Some((h@, text_opt(d))),
        None => None,
    }
}

/// `trim(v[start..end])` as a range of `v`.
fn trim_at(v: &Vec<char>, start: usize, end: usize) -> (r: (usize, usize))
    requires
        start <= end <= v.len(),
    ensures
        start <= r.0 <= r.1 <= end,
        v@.subrange(r.0 as int, r.1 as int) == trim(v@.subrange(start as int, end as int)),
{
    let b = trim_start_at(v, start, end);
    let e = trim_end_at(v, b, end);
    (b, e)
}

/// Whether `v[start..end]` is `unreleased`, ignoring ASCII case.
fn is_unreleased_at(v: &Vec<char>, start: usize, end: usize) -> (r: bool)
    requires
        start <= end <= v.len(),
    ensures
        r == is_unreleased_word(v@.subrange(start as int, end as int)),
{
    let ghost s = v@.subrange(start as int, end as int);
    let lower = ['u', 'n', 'r', 'e', 'l', 'e', 'a', 's', 'e', 'd'];
    let upper = ['U', 'N', 'R', 'E', 'L', 'E', 'A', 'S', 'E', 'D'];
    assert(lower@ =~= seq!['u', 'n', 'r', 'e', 'l', 'e', 'a', 's', 'e', 'd']);
    assert(upper@ =~= seq!['U', 'N', 'R', 'E', 'L', 'E', 'A', 'S', 'E', 'D']);
    if end - start != 10 {
        return false;
    }
    let mut i: usize = 0;
    while i < 10
        invariant
            i <= 10,
            end - start == 10,
            start <= end <= v.len(),
            s == v@.subrange(start as int, end as int),
            lower@ == seq!['u', 'n', 'r', 'e', 'l', 'e', 'a', 's', 'e', 'd'],
            upper@ == seq!['U', 'N', 'R', 'E', 'L', 'E', 'A', 'S', 'E', 'D'],
            forall|j: int| 0 <= j < i ==> s[j] == lower@[j] || s[j] == upper@[j],
        decreases 10 - i,
    {
        let c = v[start + i];
        if c != lower[i] && c != upper[i] {
            assert(s[i as int] == c);
            return false;
        }
        i = i + 1;
    }
    true
}

/// Reads the text after `## ` (in `v[start..end]`) as a release heading.
fn parse_h2(v: &Vec<char>, start: usize, end: usize) -> (r: Option<
    (VersionHeading, Option<String>),
>)
    requires
        start <= end <= v.len(),
    ensures
        heading_opt(r) == heading_spec(v@.subrange(start as int, end as int)),
{
    let (b0, e0) = trim_at(v, start, end);
    let ghost r = v@.subrange(b0 as int, e0 as int);
    let br = match find_char_at(v, b0, e0, ']') {
        Some(i) => i,
        None => {
            return None;
        },
    };
    if !(b0 < e0 && v[b0] == '[') {
        return None;
    }
    proof {
        crate::text::lemma_find_char(r, ']');
    }
    let bend = b0 + br;
    assert(r.subrange(1, br as int) =~= v@.subrange(b0 + 1, bend as int));
    assert(r.subrange(br + 1, r.len() as int) =~= v@.subrange(bend + 1, e0 as int));
    let (a0, a1) = trim_at(v, bend + 1, e0);
    let date = if a0 < a1 && v[a0] == '-' {
        assert(v@.subrange(a0 as int, a1 as int).drop_first() =~= v@.subrange(a0 + 1, a1 as int));
        let (d0, d1) = trim_at(v, a0 + 1, a1);
        Some(substring(v, d0, d1))
    } else {
        None
    };
    if is_unreleased_at(v, b0 + 1, bend) {
        Some((VersionHeading::Unreleased, date))
    } else {
        Some((VersionHeading::Version(substring(v, b0 + 1, bend)), date))
    }
}

pub open spec fn state_of(doc: ParsedChangelog, current: Option<Release>) -> ParseState {
    ParseState { doc: doc@, current: release_opt(current) }
}

/// Reads the line `v[start..end]`, numbered `n`, into `doc` and the open
/// release section `cur`; returns the open release section afterwards.
fn read_line(
    v: &Vec<char>,
    start: usize,
    end: usize,
    n: usize,
    doc: &mut ParsedChangelog,
    cur: Option<Release>,
) -> (r: Option<Release>)
    requires
        start <= end <= v.len(),
    ensures
        state_of(*final(doc), r) == step(
            state_of(*old(doc), cur),
            v@.subrange(start as int, end as int),
            n,
        ),
{
    let ghost raw = v@.subrange(start as int, end as int);
    let e = trim_end_at(v, start, end);
    let ghost line = v@.subrange(start as int, e as int);
    let ghost st = state_of(*old(doc), cur);
    if has_prefix_at(v, start, e, &['#', ' ']) {
        assert(line.skip(2) =~= v@.subrange(start + 2, e as int));
        let (b, e2) = trim_at(v, start + 2, e);
        if b < e2 {
            doc.has_title = true;
        }
        assert(state_of(*doc, cur) =~~= step(st, raw, n));
        return cur;
    }
    if has_prefix_at(v, start, e, &['#', '#', ' ']) {
        assert(line.skip(3) =~= v@.subrange(start + 3, e as int));
        match cur {
            Some(r) => {
                doc.releases.push(r);
                assert(doc@.releases =~= st.doc.releases.push(r@));
            },
            None => {},
        }
        assert(doc@ =~~= flush(st.doc, st.current));
        match parse_h2(v, start + 3, e) {
            Some((heading, date)) => {
                let rel = Release { heading, date, line_number: n, sections: Vec::new() };
                assert(rel@.sections =~= Seq::<(Seq<char>, Seq<Seq<char>>)>::empty());
                return Some(rel);
            },
            None => {
                let (b, e2) = trim_at(v, start + 3, e);
                let text = substring(v, b, e2);
                let ghost before = doc@;
                doc.malformed_headings.push((n, text));
                assert(doc@.malformed_headings =~= before.malformed_headings.push((n, text@)));
                assert(state_of(*doc, None) =~~= step(st, raw, n));
                return None;
            },
        }
    }
    if has_prefix_at(v, start, e, &['#', '#', '#', ' ']) {
        assert(line.skip(4) =~= v@.subrange(start + 4, e as int));
        match cur {
            Some(mut r) => {
                let ghost r0 = r@;
                let (b, e2) = trim_at(v, start + 4, e);
                let title = substring(v, b, e2);
                let items: Vec<String> = Vec::new();
                assert(texts(items) =~= Seq::<Seq<char>>::empty());
                r.sections.push((title, items));
                assert(r@.sections =~= r0.sections.push((trim(line.skip(4)), Seq::empty())));
                assert(state_of(*doc, Some(r)) =~~= step(st, raw, n));
                return Some(r);
            },
            None => {
                return None;
            },
        }
    }
    let t = trim_start_at(v, start, e);
    let ghost ts = v@.subrange(t as int, e as int);
    if has_prefix_at(v, t, e, &['-', ' ']) || has_prefix_at(v, t, e, &['*', ' ']) {
        assert(ts.skip(2) =~= v@.subrange(t + 2, e as int));
        match cur {
            Some(mut r) => {
                if r.sections.len() > 0 {
                    let ghost r0 = r@;
                    let (b, e2) = trim_at(v, t + 2, e);
                    let item = substring(v, b, e2);
                    let mut last = r.sections.pop().unwrap();
                    let ghost l0 = last;
                    last.1.push(item);
                    r.sections.push(last);
                    assert(texts(last.1) =~= texts(l0.1).push(item@));
                    assert(r@.sections =~= r0.sections.update(
                        r0.sections.len() - 1,
                        (r0.sections.last().0, r0.sections.last().1.push(trim(ts.skip(2)))),
                    ));
                    assert(state_of(*doc, Some(r)) =~~= step(st, raw, n));
                }
                return Some(r);
            },
            None => {
                return None;
            },
        }
    }
    if start < e && v[start] == '[' {
        match find_seq_at(v, start, e, &[']', ':', ' ']) {
            Some(b) => {
                assert(line.subrange(1, b as int) =~= v@.subrange(start + 1, start + b));
                let reference = substring(v, start + 1, start + b);
                doc.link_refs.push(reference);
                assert(doc@.link_refs =~= st.doc.link_refs.push(reference@));
                assert(state_of(*doc, cur) =~~= step(st, raw, n));
            },
            None => {},
        }
    }
    cur
}

/// Parses the Keep a Changelog structure of `markdown`, line by line.
pub fn parse(markdown: &str) -> (doc: ParsedChangelog)
    ensures
        doc@ == parse_spec(markdown@),
{
    let v = chars_of(markdown);
    let ghost s = markdown@;
    let mut doc = ParsedChangelog::default();
    let mut cur: Option<Release> = None;
    let mut line_start: usize = 0;
    let mut done: usize = 0;
    let mut i: usize = 0;
    assert(s.take(0) =~= Seq::<char>::empty());
    assert(state_of(doc, cur) =~~= run(Seq::<Seq<char>>::empty()));
    while i < v.len()
        invariant
            v@ == s,
            done <= line_start <= i <= v.len(),
            done + 1 == split_char(s.take(i as int), '\n').len(),
            state_of(doc, cur) == run(split_char(s.take(i as int), '\n').drop_last()),
            v@.subrange(line_start as int, i as int) == split_char(s.take(i as int), '\n').last(),
        decreases v.len() - i,
    {
        let ghost p = split_char(s.take(i as int), '\n');
        assert(s.take(i + 1).drop_last() =~= s.take(i as int));
        assert(s.take(i + 1).last() == v@[i as int]);
        if v[i] == '\n' {
            cur = read_line(&v, line_start, i, done + 1, &mut doc, cur);
            assert(p.push(Seq::<char>::empty()).drop_last() =~= p);
            assert(p.drop_last().push(p.last()) =~= p);
            done = done + 1;
            line_start = i + 1;
            assert(v@.subrange(line_start as int, i + 1) =~= Seq::<char>::empty());
        } else {
            assert(p.update(p.len() - 1, p.last().push(v@[i as int])).drop_last() =~= p.drop_last());
            assert(v@.subrange(line_start as int, i + 1) =~= v@.subrange(
                line_start as int,
                i as int,
            ).push(v@[i as int]));
        }
        i = i + 1;
    }
    assert(s.take(v.len() as int) =~= s);
    let ghost p = split_char(s, '\n');
    if line_start < v.len() {
        cur = read_line(&v, line_start, v.len(), done + 1, &mut doc, cur);
        assert(p.drop_last().push(p.last()) =~= p);
    }
    match cur {
        Some(r) => {
            let ghost before = doc@;
            doc.releases.push(r);
            assert(doc@.releases =~= before.releases.push(r@));
        },
        None => {},
    }
    assert(doc@ =~~= parse_spec(s));
    doc
}

/// Whether a line (before trailing whitespace is removed) is a `## `
/// heading.
pub open spec fn is_h2_line(raw: Seq<char>) -> bool {
    has_prefix(trim_end(raw), seq!['#', '#', ' '])
}

/// How many of `lines` are `## ` headings.
pub open spec fn h2_count(lines: Seq<Seq<char>>) -> nat
    decreases lines.len(),
{
    if lines.len() == 0 {
        0
    } else {
        h2_count(lines.drop_last()) + if is_h2_line(lines.last()) {
            1nat
        } else {
            0nat
        }
    }
}

pub open spec fn open_count(st: ParseState) -> nat {
    if st.current is Some {
        1
    } else {
        0
    }
}

/// A `# ` line is never a `## ` line.
proof fn lemma_h1_is_not_h2(line: Seq<char>)
    ensures
        has_prefix(line, seq!['#', ' ']) ==> !has_prefix(line, seq!['#', '#', ' ']),
{
    if has_prefix(line, seq!['#', ' ']) && has_prefix(line, seq!['#', '#', ' ']) {
        assert(line.subrange(0, 2)[1] == line[1]);
        assert(line.subrange(0, 3)[1] == line[1]);
    }
}

proof fn lemma_step_counts(st: ParseState, raw: Seq<char>, n: usize)
    ensures
        ({
            let st2 = step(st, raw, n);
            st2.doc.releases.len() + open_count(st2) + st2.doc.malformed_headings.len() == st.doc.releases.len()
                + open_count(st) + st.doc.malformed_headings.len() + if is_h2_line(raw) {
                1nat
            } else {
                0nat
            }
        }),
{
    lemma_h1_is_not_h2(trim_end(raw));
}

/// Reading a line only ever appends to the malformed headings.
proof fn lemma_step_keeps_malformed(st: ParseState, raw: Seq<char>, n: usize)
    ensures
        st.doc.malformed_headings.len() <= step(st, raw, n).doc.malformed_headings.len(),
        step(st, raw, n).doc.malformed_headings.subrange(0, st.doc.malformed_headings.len() as int)
            == st.doc.malformed_headings,
{
    let m = st.doc.malformed_headings;
    assert(m.subrange(0, m.len() as int) =~= m);
    assert(m.push((n, trim(trim_end(raw).skip(3)))).subrange(0, m.len() as int) =~= m);
}

proof fn lemma_run_malformed(lines: Seq<Seq<char>>, j: int)
    requires
        0 <= j < lines.len(),
        is_h2_line(lines[j]),
        heading_spec(trim_end(lines[j]).skip(3)) is None,
    ensures
        run(lines).doc.malformed_headings.contains(((j + 1) as usize, trim(trim_end(lines[j]).skip(3)))),
    decreases lines.len(),
{
    let prev = run(lines.drop_last());
    let n = lines.len() as usize;
    if j == lines.len() - 1 {
        lemma_h1_is_not_h2(trim_end(lines[j]));
        let m = run(lines).doc.malformed_headings;
        assert(m[m.len() - 1] == ((j + 1) as usize, trim(trim_end(lines[j]).skip(3))));
    } else {
        assert(lines.drop_last()[j] == lines[j]);
        lemma_run_malformed(lines.drop_last(), j);
        lemma_step_keeps_malformed(prev, lines.last(), n);
        let old_m = prev.doc.malformed_headings;
        let new_m = run(lines).doc.malformed_headings;
        let k = choose|k: int| 0 <= k < old_m.len() && old_m[k] == ((j + 1) as usize, trim(trim_end(lines[j]).skip(3)));
        assert(new_m.subrange(0, old_m.len() as int)[k] == new_m[k]);
    }
}

/// A `## ` line whose text is not a release heading is kept as a
/// malformed heading, with its line number and its trimmed text.
pub proof fn lemma_malformed_heading_is_kept(s: Seq<char>, j: int)
    requires
        0 <= j < lines(s).len(),
        is_h2_line(lines(s)[j]),
        heading_spec(trim_end(lines(s)[j]).skip(3)) is None,
    ensures
        parse_spec(s).malformed_headings.contains(
            ((j + 1) as usize, trim(trim_end(lines(s)[j]).skip(3))),
        ),
{
    lemma_run_malformed(lines(s), j);
}

proof fn lemma_run_counts(lines: Seq<Seq<char>>)
    ensures
        run(lines).doc.releases.len() + open_count(run(lines)) + run(lines).doc.malformed_headings.len()
            == h2_count(lines),
    decreases lines.len(),
{
    if lines.len() > 0 {
        lemma_run_counts(lines.drop_last());
        lemma_step_counts(run(lines.drop_last()), lines.last(), lines.len() as usize);
    }
}

/// No `## ` heading is dropped: every one becomes either a release section
/// or a malformed heading.
pub proof fn lemma_every_h2_heading_is_kept(s: Seq<char>)
    ensures
        parse_spec(s).releases.len() + parse_spec(s).malformed_headings.len() == h2_count(
            lines(s),
        ),
{
    lemma_run_counts(lines(s));
}

/// The lines of joined lines are those lines.
pub proof fn lemma_lines_joined(ls: Seq<Seq<char>>)
    requires
        forall|k: int| 0 <= k < ls.len() ==> no_newline(#[trigger] ls[k]),
    ensures
        lines(joined(ls)) == ls,
{
    crate::text::lemma_split_joined(ls);
    assert(ls.push(Seq::<char>::empty()).drop_last() =~= ls);
}

/// Reading one more line.
pub proof fn lemma_run_push(ls: Seq<Seq<char>>, x: Seq<char>)
    ensures
        run(ls.push(x)) == step(run(ls), x, (ls.len() + 1) as usize),
{
    assert(ls.push(x).drop_last() =~= ls);
}

/// A line that is empty, or starts with a character that is neither
/// whitespace nor one of `#`, `[`, `-`, `*`, changes nothing.
pub proof fn lemma_step_plain(st: ParseState, raw: Seq<char>, n: usize)
    requires
        raw.len() == 0 || (!is_ws(raw[0]) && raw[0] != '#' && raw[0] != '[' && raw[0] != '-'
            && raw[0] != '*'),
    ensures
        step(st, raw, n) == st,
{
    crate::text::lemma_trim_end_shape(raw);
    let line = trim_end(raw);
    if line.len() > 0 {
        assert(line[0] == raw[0]);
        if line.len() >= 2 {
            assert(line.subrange(0, 2)[0] == line[0]);
        }
        if line.len() >= 3 {
            assert(line.subrange(0, 3)[0] == line[0]);
        }
        if line.len() >= 4 {
            assert(line.subrange(0, 4)[0] == line[0]);
        }
        assert(!has_prefix(line, seq!['#', ' ']));
        assert(!has_prefix(line, seq!['#', '#', ' ']));
        assert(!has_prefix(line, seq!['#', '#', '#', ' ']));
        assert(trim_start(line) == line);
        assert(!has_prefix(line, seq!['-', ' ']));
        assert(!has_prefix(line, seq!['*', ' ']));
    } else {
        assert(trim_start(line) == line);
    }
}

/// A line that is a lone `-` once trailing whitespace is gone changes
/// nothing (an empty bullet has no item text to attach).
pub proof fn lemma_step_lone_dash(st: ParseState, raw: Seq<char>, n: usize)
    requires
        trim_end(raw) == seq!['-'],
    ensures
        step(st, raw, n) == st,
{
    let line = trim_end(raw);
    assert(trim_start(line) == line);
}

/// A `### ` line keeps the document and keeps a release section open.
pub proof fn lemma_step_category(st: ParseState, name: Seq<char>, n: usize)
    requires
        name.len() > 0,
        !is_ws(name.last()),
    ensures
        step(st, seq!['#', '#', '#', ' '] + name, n).doc == st.doc,
        step(st, seq!['#', '#', '#', ' '] + name, n).current is Some <==> st.current is Some,
        st.current is Some ==> step(st, seq!['#', '#', '#', ' '] + name, n).current->0.heading
            == st.current->0.heading,
        st.current is Some && !is_ws(name[0]) ==> step(st, seq!['#', '#', '#', ' '] + name, n).current
            == Some(
            ReleaseModel {
                sections: st.current->0.sections.push((name, Seq::empty())),
                ..st.current->0
            },
        ),
{
    let raw = seq!['#', '#', '#', ' '] + name;
    assert(raw.last() == name.last());
    let line = trim_end(raw);
    assert(line == raw);
    assert(line[1] == '#' && line[2] == '#');
    assert(line.subrange(0, 2)[1] == '#');
    assert(line.subrange(0, 3)[2] == '#');
    assert(line.subrange(0, 4) =~= seq!['#', '#', '#', ' ']);
    assert(line.skip(4) =~= name);
    if !is_ws(name[0]) {
        assert(trim_start(name) == name);
        crate::text::lemma_trim_end_shape(name);
        assert(trim_end(name) == name);
    }
}

/// A `## [t] -...` line closes the open release section and opens a new
/// one, whatever `t` and the rest of the line hold.
pub proof fn lemma_step_bracket_heading(st: ParseState, t: Seq<char>, r: Seq<char>, n: usize)
    ensures
        step(st, seq!['#', '#', ' ', '['] + t + seq![']', ' ', '-'] + r, n).doc == flush(
            st.doc,
            st.current,
        ),
        step(st, seq!['#', '#', ' ', '['] + t + seq![']', ' ', '-'] + r, n).current is Some,
{
    let p = seq!['#', '#', ' ', '['] + t + seq![']', ' ', '-'];
    let raw = p + r;
    assert(p.last() == '-');
    crate::text::lemma_trim_end_concat(p, r);
    crate::text::lemma_trim_end_shape(r);
    let tr = trim_end(r);
    let line = trim_end(raw);
    assert(line == p + tr);
    assert(line[0] == '#' && line[1] == '#' && line[2] == ' ');
    assert(line.subrange(0, 3) =~= seq!['#', '#', ' ']);
    assert(line.subrange(0, 2)[1] == '#');
    let rest = line.skip(3);
    let q = seq!['['] + t + seq![']', ' ', '-'];
    assert(rest =~= q + tr);
    assert(rest[0] == '[');
    assert(trim_start(rest) == rest);
    assert(q.last() == '-');
    crate::text::lemma_trim_end_concat(q, tr);
    assert(trim_end(tr) == tr);
    assert(trim(rest) == rest);
    assert(rest[t.len() + 1int] == ']');
    crate::text::lemma_find_char(rest, ']');
}

/// The `# title` line sets the title flag and changes nothing else.
pub proof fn lemma_step_title(st: ParseState, title: Seq<char>, n: usize)
    requires
        title.len() > 0,
        !is_ws(title[0]),
        !is_ws(title.last()),
    ensures
        step(st, seq!['#', ' '] + title, n) == (ParseState {
            doc: DocModel { has_title: true, ..st.doc },
            ..st
        }),
{
    let raw = seq!['#', ' '] + title;
    assert(raw.last() == title.last());
    let line = trim_end(raw);
    assert(line == raw);
    assert(line.subrange(0, 2) =~= seq!['#', ' ']);
    assert(line.skip(2) =~= title);
    assert(trim_start(title) == title);
    crate::text::lemma_trim_end_shape(title);
}

/// The `## [Unreleased]` line closes the open release section and opens
/// an `[Unreleased]` one without a date.
pub proof fn lemma_step_unreleased_heading(st: ParseState, n: usize)
    ensures
        ({
            let raw = seq!['#', '#', ' ', '[', 'U', 'n', 'r', 'e', 'l', 'e', 'a', 's', 'e', 'd', ']'];
            &&& step(st, raw, n).doc == flush(st.doc, st.current)
            &&& step(st, raw, n).current is Some
            &&& step(st, raw, n).current == Some(
                ReleaseModel {
                    heading: HeadingModel::Unreleased,
                    date: None,
                    line_number: n,
                    sections: Seq::empty(),
                },
            )
        }),
{
    let raw = seq!['#', '#', ' ', '[', 'U', 'n', 'r', 'e', 'l', 'e', 'a', 's', 'e', 'd', ']'];
    let line = trim_end(raw);
    assert(line == raw);
    assert(line.subrange(0, 3) =~= seq!['#', '#', ' ']);
    assert(line.subrange(0, 2)[1] == '#');
    let rest = line.skip(3);
    let word = seq!['U', 'n', 'r', 'e', 'l', 'e', 'a', 's', 'e', 'd'];
    assert(rest =~= seq!['['] + word + seq![']']);
    assert(trim_start(rest) == rest);
    assert(rest.last() == ']');
    assert(trim_end(rest) == rest);
    crate::text::lemma_find_char(rest, ']');
    assert(rest[11] == ']');
    assert forall|j: int| 0 <= j < 11 implies rest[j] != ']' by {
    }
    assert(find_char(rest, ']') == 11);
    assert(rest.subrange(1, 11) =~= word);
    assert(is_unreleased_word(word));
    assert(rest.subrange(12, 12) =~= Seq::<char>::empty());
    assert(trim(Seq::<char>::empty()) =~= Seq::<char>::empty());
}

/// A `## [tag] - date` line, with a tag that holds no `]` and is not
/// `unreleased`, closes the open release section and opens the release
/// of that tag, dated by the date trimmed, whatever whitespace surrounds it.
pub proof fn lemma_step_tag_heading(st: ParseState, t: Seq<char>, d: Seq<char>, n: usize)
    requires
        forall|i: int| 0 <= i < t.len() ==> t[i] != ']',
        !is_unreleased_word(t),
    ensures
        step(st, seq!['#', '#', ' ', '['] + t + seq![']', ' ', '-', ' '] + d, n).doc == flush(
            st.doc,
            st.current,
        ),
        step(st, seq!['#', '#', ' ', '['] + t + seq![']', ' ', '-', ' '] + d, n).current == Some(
            ReleaseModel {
                heading: HeadingModel::Version(t),
                date: Some(trim(d)),
                line_number: n,
                sections: Seq::empty(),
            },
        ),
{
    let r = seq![' '] + d;
    let raw = seq!['#', '#', ' ', '['] + t + seq![']', ' ', '-', ' '] + d;
    let p = seq!['#', '#', ' ', '['] + t + seq![']', ' ', '-'];
    assert(raw =~= p + r);
    lemma_step_bracket_heading(st, t, r, n);
    crate::text::lemma_trim_end_concat(p, r);
    crate::text::lemma_trim_end_idempotent(r);
    let tr = trim_end(r);
    let line = trim_end(raw);
    assert(line == p + tr);
    let rest = line.skip(3);
    let q = seq!['['] + t + seq![']', ' ', '-'];
    assert(rest =~= q + tr);
    assert(trim_start(rest) == rest);
    crate::text::lemma_trim_end_concat(q, tr);
    assert(trim(rest) == rest);
    crate::text::lemma_find_char(rest, ']');
    let b: int = t.len() + 1int;
    assert(rest[b] == ']');
    assert forall|j: int| 0 <= j < b implies rest[j] != ']' by {
        if j > 0 {
            assert(rest[j] == t[j - 1]);
        }
    }
    assert(find_char(rest, ']') == b);
    assert(rest.subrange(1, b) =~= t);
    let tail = rest.subrange(b + 1, rest.len() as int);
    assert(tail =~= seq![' ', '-'] + tr);
    let dash_on = seq!['-'] + tr;
    assert(tail.drop_first() =~= dash_on);
    assert(trim_start(tail) == trim_start(dash_on));
    assert(trim_start(dash_on) == dash_on);
    crate::text::lemma_trim_end_concat(seq!['-'], tr);
    assert(trim(tail) == dash_on);
    assert(dash_on.drop_first() =~= tr);
    crate::text::lemma_trim_after_space(d);
    assert(heading_spec(rest) == Some((HeadingModel::Version(t), Some(trim(d)))));
    assert(line.subrange(0, 3) =~= seq!['#', '#', ' ']);
    assert(line.subrange(0, 2)[1] == '#');
}

/// A last line with no line feed after it is still read, as a line of
/// its own: the text reads exactly as it would with the line feed.
pub proof fn lemma_last_line_without_feed_is_read(ls: Seq<Seq<char>>, x: Seq<char>)
    requires
        forall|k: int| 0 <= k < ls.len() ==> no_newline(#[trigger] ls[k]),
        no_newline(x),
        x.len() > 0,
    ensures
        lines(joined(ls) + x) == ls.push(x),
        parse_spec(joined(ls) + x) == parse_spec(joined(ls.push(x))),
{
    crate::text::lemma_split_joined(ls);
    crate::text::lemma_split_append(joined(ls), x, '\n');
    let p = split_char(joined(ls) + x, '\n');
    assert(p =~= ls.push(x));
    assert(p.last() == x);
    assert forall|k: int| 0 <= k < ls.push(x).len() implies no_newline(#[trigger] ls.push(x)[k]) by {
        if k < ls.len() {
            assert(ls.push(x)[k] == ls[k]);
        }
    }
    lemma_lines_joined(ls.push(x));
}

} // verus!
