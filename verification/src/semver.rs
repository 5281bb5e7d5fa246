//! A small semantic-version parser and precedence comparator (SemVer
//! 2.0.0 §11), enough to order and validate the version headings a
//! CHANGELOG.md uses. Build metadata is parsed and discarded (it never
//! affects precedence), and malformed input is reported, never a panic.

use std::cmp::Ordering;
use vstd::prelude::*;

use crate::text::{
    decimal, lemma_decimal_digits, lemma_split_append,
    all_digits, chars_of, digits_u64, digits_u64_at, digits_value, find_char, find_char_at, is_digit,
    split_char, split_ranges, substring,
};

verus! {

#[derive(Debug, Clone, PartialEq, Eq)]
pub enum PreReleaseIdentifier {
    Numeric(u64),
    Alpha(String),
}

/// What a pre-release identifier stands for.
pub enum PreModel {
    Numeric(u64),
    Alpha(Seq<char>),
}

impl View for PreReleaseIdentifier {
    type V = PreModel;

    open spec fn view(&self) -> PreModel {
        match self {
            PreReleaseIdentifier::Numeric(n) => PreModel::Numeric(*n),
            PreReleaseIdentifier::Alpha(s) => PreModel::Alpha(s@),
        }
    }
}

#[derive(Debug, Clone, PartialEq, Eq)]
pub struct SemVer {
    pub major: u64,
    pub minor: u64,
    pub patch: u64,
    pub pre_release: Vec<PreReleaseIdentifier>,
}

/// What a version stands for.
pub struct SemVerModel {
    pub major: u64,
    pub minor: u64,
    pub patch: u64,
    pub pre_release: Seq<PreModel>,
}

impl View for SemVer {
    type V = SemVerModel;

    open spec fn view(&self) -> SemVerModel {
        SemVerModel {
            major: self.major,
            minor: self.minor,
            patch: self.patch,
            pre_release: self.pre_release@.map_values(|p: PreReleaseIdentifier| p@),
        }
    }
}

/// A pre-release identifier is numeric when it is a non-empty run of
/// ASCII digits that fits in a `u64`; anything else is alphanumeric.
pub open spec fn pre_id_spec(s: Seq<char>) -> PreModel {
    if s.len() > 0 && all_digits(s) && digits_value(s) <= u64::MAX {
        PreModel::Numeric(digits_value(s) as u64)
    } else {
        PreModel::Alpha(s)
    }
}

/// `input` without one leading `v`.
pub open spec fn without_v(input: Seq<char>) -> Seq<char> {
    if input.len() > 0 && input[0] == 'v' {
        input.drop_first()
    } else {
        input
    }
}

/// `s` up to its first `+` (the build metadata is dropped).
pub open spec fn without_build(s: Seq<char>) -> Seq<char> {
    if find_char(s, '+') >= 0 {
        s.take(find_char(s, '+'))
    } else {
        s
    }
}

/// The core version: everything before the first `-`.
pub open spec fn core_part(s: Seq<char>) -> Seq<char> {
    if find_char(s, '-') >= 0 {
        s.take(find_char(s, '-'))
    } else {
        s
    }
}

/// A character that SemVer allows in an identifier: an ASCII letter, an
/// ASCII digit or a hyphen.
pub open spec fn is_ident_char(c: char) -> bool {
    is_digit(c) || ('a' <= c && c <= 'z') || ('A' <= c && c <= 'Z') || c == '-'
}

/// A run of digits without a leading zero, unless it is `0` itself.
pub open spec fn no_leading_zero(s: Seq<char>) -> bool {
    s.len() == 1 || s[0] != '0'
}

/// A core number as SemVer writes it: ASCII digits, at least one, with no
/// leading zero; its value, when that fits in a `u64`.
pub open spec fn core_number(s: Seq<char>) -> Option<u64> {
    if s.len() > 0 && all_digits(s) && no_leading_zero(s) {
        digits_u64(s)
    } else {
        None
    }
}

/// A valid pre-release identifier: non-empty, made of letters, digits and
/// hyphens, and without a leading zero when it is all digits.
pub open spec fn pre_id_valid(s: Seq<char>) -> bool {
    &&& s.len() > 0
    &&& forall|i: int| 0 <= i < s.len() ==> is_ident_char(#[trigger] s[i])
    &&& all_digits(s) ==> no_leading_zero(s)
}

/// The pre-release identifiers: none without a `-`; else the
/// `.`-separated pieces after the first `-`, when every one of them is a
/// valid identifier (so an empty pre-release or an empty piece is
/// refused).
pub open spec fn pre_part(s: Seq<char>) -> Option<Seq<PreModel>> {
    let d = find_char(s, '-');
    if d < 0 {
        Some(Seq::<PreModel>::empty())
    } else {
        let ids = split_char(s.subrange(d + 1, s.len() as int), '.');
        if forall|k: int| 0 <= k < ids.len() ==> pre_id_valid(#[trigger] ids[k]) {
            Some(ids.map_values(|p: Seq<char>| pre_id_spec(p)))
        } else {
            None
        }
    }
}

/// What `parse` gives for `input`, by SemVer 2.0.0: exactly three
/// `.`-separated core numbers without leading zeros, then, after a `-`,
/// valid pre-release identifiers; one leading `v` and everything from the
/// first `+` on (the build metadata) are dropped.
pub open spec fn parse_spec(input: Seq<char>) -> Option<SemVerModel> {
    let s = without_build(without_v(input));
    let parts = split_char(core_part(s), '.');
    if parts.len() == 3 && core_number(parts[0]) is Some && core_number(parts[1]) is Some
        && core_number(parts[2]) is Some && pre_part(s) is Some {
        Some(
            SemVerModel {
                major: core_number(parts[0])->0,
                minor: core_number(parts[1])->0,
                patch: core_number(parts[2])->0,
                pre_release: pre_part(s)->0,
            },
        )
    } else {
        None
    }
}

/// Whether `v[start..end]` is all ASCII digits.
fn all_digits_at(v: &Vec<char>, start: usize, end: usize) -> (r: bool)
    requires
        start <= end <= v.len(),
    ensures
        r == all_digits(v@.subrange(start as int, end as int)),
{
    let ghost s = v@.subrange(start as int, end as int);
    let mut i = start;
    while i < end
        invariant
            start <= i <= end <= v.len(),
            s == v@.subrange(start as int, end as int),
            forall|j: int| 0 <= j < i - start ==> is_digit(#[trigger] s[j]),
        decreases end - i,
    {
        if !('0' <= v[i] && v[i] <= '9') {
            assert(!is_digit(s[i - start]));
            return false;
        }
        i = i + 1;
    }
    true
}

/// The core number `v[start..end]`.
fn core_number_at(v: &Vec<char>, start: usize, end: usize) -> (r: Option<u64>)
    requires
        start <= end <= v.len(),
    ensures
        r == core_number(v@.subrange(start as int, end as int)),
{
    let ghost s = v@.subrange(start as int, end as int);
    if start == end || !all_digits_at(v, start, end) {
        return None;
    }
    if end - start > 1 && v[start] == '0' {
        assert(s[0] == '0');
        return None;
    }
    digits_u64_at(v, start, end)
}

/// Whether `v[start..end]` is a valid pre-release identifier.
fn pre_id_valid_at(v: &Vec<char>, start: usize, end: usize) -> (r: bool)
    requires
        start <= end <= v.len(),
    ensures
        r == pre_id_valid(v@.subrange(start as int, end as int)),
{
    let ghost s = v@.subrange(start as int, end as int);
    if start == end {
        return false;
    }
    let mut i = start;
    while i < end
        invariant
            start <= i <= end <= v.len(),
            s == v@.subrange(start as int, end as int),
            forall|j: int| 0 <= j < i - start ==> is_ident_char(#[trigger] s[j]),
        decreases end - i,
    {
        let c = v[i];
        if !(('0' <= c && c <= '9') || ('a' <= c && c <= 'z') || ('A' <= c && c <= 'Z') || c
            == '-') {
            assert(!is_ident_char(s[i - start]));
            return false;
        }
        i = i + 1;
    }
    if end - start > 1 && v[start] == '0' && all_digits_at(v, start, end) {
        assert(s[0] == '0');
        return false;
    }
    true
}

impl PreReleaseIdentifier {
    /// Reads the identifier `v[start..end]`.
    fn parse(v: &Vec<char>, start: usize, end: usize) -> (r: PreReleaseIdentifier)
        requires
            start <= end <= v.len(),
        ensures
            r@ == pre_id_spec(v@.subrange(start as int, end as int)),
    {
        let ghost s = v@.subrange(start as int, end as int);
        let mut i = start;
        let mut digits = start < end;
        while i < end && digits
            invariant
                start <= i <= end <= v.len(),
                s == v@.subrange(start as int, end as int),
                digits ==> forall|j: int| 0 <= j < i - start ==> crate::text::is_digit(s[j]),
                !digits ==> !(s.len() > 0 && all_digits(s)),
            decreases end - i,
        {
            if !('0' <= v[i] && v[i] <= '9') {
                assert(!crate::text::is_digit(s[i - start]));
                digits = false;
            }
            i = i + 1;
        }
        if digits {
            assert(all_digits(s));
            match digits_u64_at(v, start, end) {
                Some(n) => {
                    return PreReleaseIdentifier::Numeric(n);
                },
                None => {},
            }
        }
        PreReleaseIdentifier::Alpha(substring(v, start, end))
    }
}

/// Parses a version string, tolerating a leading `v` (as in git tags
/// like `v1.2.3`) and discarding `+build` metadata.
pub fn parse(input: &str) -> (r: Option<SemVer>)
    ensures
        match r {
            Some(v) => parse_spec(input@) == Some(v@),
            None => parse_spec(input@) is None,
        },
{
    let v = chars_of(input);
    let n = v.len();
    let mut s0: usize = 0;
    if n > 0 && v[0] == 'v' {
        s0 = 1;
    }
    assert(v@.subrange(s0 as int, n as int) =~= without_v(input@));
    let e = match find_char_at(&v, s0, n, '+') {
        Some(i) => s0 + i,
        None => n,
    };
    assert(v@.subrange(s0 as int, e as int) =~= without_build(without_v(input@)));
    let ghost s = without_build(without_v(input@));
    let dash = find_char_at(&v, s0, e, '-');
    let core_end = match dash {
        Some(i) => s0 + i,
        None => e,
    };
    assert(v@.subrange(s0 as int, core_end as int) =~= core_part(s));
    let parts = split_ranges(&v, s0, core_end, '.');
    if parts.len() != 3 {
        return None;
    }
    let major = match core_number_at(&v, parts[0].0, parts[0].1) {
        Some(x) => x,
        None => {
            return None;
        },
    };
    let minor = match core_number_at(&v, parts[1].0, parts[1].1) {
        Some(x) => x,
        None => {
            return None;
        },
    };
    let patch = match core_number_at(&v, parts[2].0, parts[2].1) {
        Some(x) => x,
        None => {
            return None;
        },
    };
    let pre_release = match dash {
        Some(i) => {
            let d = s0 + i;
            assert(find_char(s, '-') == i);
            assert(v@.subrange(d + 1, e as int) =~= s.subrange(i + 1, s.len() as int));
            match parse_pre_release(&v, d + 1, e) {
                Some(p) => p,
                None => {
                    return None;
                },
            }
        },
        None => Vec::new(),
    };
    assert(pre_release@.map_values(|q: PreReleaseIdentifier| q@) =~= pre_part(s)->0);
    Some(SemVer { major, minor, patch, pre_release })
}

/// The identifiers of the pre-release `v[start..end]`, when every
/// `.`-separated piece of it is a valid identifier.
fn parse_pre_release(v: &Vec<char>, start: usize, end: usize) -> (r: Option<
    Vec<PreReleaseIdentifier>,
>)
    requires
        start <= end <= v.len(),
    ensures
        ({
            let ids = split_char(v@.subrange(start as int, end as int), '.');
            match r {
                Some(out) => (forall|k: int| 0 <= k < ids.len() ==> pre_id_valid(#[trigger] ids[k]))
                    && out@.map_values(|q: PreReleaseIdentifier| q@) == ids.map_values(
                    |p: Seq<char>| pre_id_spec(p),
                ),
                None => !(forall|k: int| 0 <= k < ids.len() ==> pre_id_valid(#[trigger] ids[k])),
            }
        }),
{
    let ghost p = v@.subrange(start as int, end as int);
    let pieces = split_ranges(v, start, end, '.');
    let ghost ids = split_char(p, '.');
    let mut out: Vec<PreReleaseIdentifier> = Vec::new();
    let mut k: usize = 0;
    while k < pieces.len()
        invariant
            k <= pieces.len(),
            start <= end <= v.len(),
            p == v@.subrange(start as int, end as int),
            ids == split_char(p, '.'),
            pieces.len() == ids.len(),
            forall|j: int|
                0 <= j < pieces.len() ==> start <= (#[trigger] pieces@[j]).0 <= pieces@[j].1 <= end
                    && v@.subrange(pieces@[j].0 as int, pieces@[j].1 as int) == ids[j],
            out@.len() == k,
            forall|j: int| 0 <= j < k ==> pre_id_valid(#[trigger] ids[j]),
            forall|j: int| 0 <= j < k ==> (#[trigger] out@[j])@ == pre_id_spec(ids[j]),
        decreases pieces.len() - k,
    {
        if !pre_id_valid_at(v, pieces[k].0, pieces[k].1) {
            assert(!pre_id_valid(ids[k as int]));
            return None;
        }
        let id = PreReleaseIdentifier::parse(v, pieces[k].0, pieces[k].1);
        out.push(id);
        k = k + 1;
    }
    assert(out@.map_values(|q: PreReleaseIdentifier| q@) =~= ids.map_values(
        |p: Seq<char>| pre_id_spec(p),
    ));
    Some(out)
}

/// -1, 0 or 1 as `a` is below, equal to or above `b`.
pub open spec fn three_way(a: u64, b: u64) -> int {
    if a < b {
        -1
    } else if a == b {
        0
    } else {
        1
    }
}

/// Lexicographic order of two texts by code point (which is the order of
/// their UTF-8 bytes, the order `String`'s `Ord` uses): -1, 0 or 1.
pub open spec fn text_order(a: Seq<char>, b: Seq<char>) -> int
    decreases a.len(),
{
    if a.len() == 0 {
        if b.len() == 0 {
            0
        } else {
            -1
        }
    } else if b.len() == 0 {
        1
    } else if a[0] < b[0] {
        -1
    } else if a[0] > b[0] {
        1
    } else {
        text_order(a.drop_first(), b.drop_first())
    }
}

/// Precedence of two pre-release identifiers: numeric ones numerically,
/// alphanumeric ones lexically, and numeric below alphanumeric.
pub open spec fn id_order(a: PreModel, b: PreModel) -> int {
    match (a, b) {
        (PreModel::Numeric(x), PreModel::Numeric(y)) => three_way(x, y),
        (PreModel::Alpha(x), PreModel::Alpha(y)) => text_order(x, y),
        (PreModel::Numeric(_), PreModel::Alpha(_)) => -1,
        (PreModel::Alpha(_), PreModel::Numeric(_)) => 1,
    }
}

/// Precedence of two identifier lists: the first identifier that differs
/// decides; when all shared ones are equal, the longer list is higher.
pub open spec fn ids_order(a: Seq<PreModel>, b: Seq<PreModel>) -> int
    decreases a.len(),
{
    if a.len() == 0 || b.len() == 0 {
        if a.len() < b.len() {
            -1
        } else if a.len() == b.len() {
            0
        } else {
            1
        }
    } else if id_order(a[0], b[0]) != 0 {
        id_order(a[0], b[0])
    } else {
        ids_order(a.drop_first(), b.drop_first())
    }
}

/// SemVer 2.0.0 §11 precedence of `a` against `b`, as -1, 0 or 1: core
/// numbers first, then a version with pre-release identifiers is lower
/// than one without, then the identifier lists.
pub open spec fn precedence(a: SemVerModel, b: SemVerModel) -> int {
    if three_way(a.major, b.major) != 0 {
        three_way(a.major, b.major)
    } else if three_way(a.minor, b.minor) != 0 {
        three_way(a.minor, b.minor)
    } else if three_way(a.patch, b.patch) != 0 {
        three_way(a.patch, b.patch)
    } else if a.pre_release.len() == 0 && b.pre_release.len() == 0 {
        0
    } else if a.pre_release.len() == 0 {
        1
    } else if b.pre_release.len() == 0 {
        -1
    } else {
        ids_order(a.pre_release, b.pre_release)
    }
}

/// The `Ordering` that a -1/0/1 result stands for.
pub open spec fn to_ordering(c: int) -> Ordering {
    if c < 0 {
        Ordering::Less
    } else if c == 0 {
        Ordering::Equal
    } else {
        Ordering::Greater
    }
}

fn order_u64(a: u64, b: u64) -> (r: Ordering)
    ensures
        r == to_ordering(three_way(a, b)),
{
    if a < b {
        Ordering::Less
    } else if a == b {
        Ordering::Equal
    } else {
        Ordering::Greater
    }
}

/// Lexicographic comparison of two strings.
fn order_text(a: &String, b: &String) -> (r: Ordering)
    ensures
        r == to_ordering(text_order(a@, b@)),
{
    let x = chars_of(a.as_str());
    let y = chars_of(b.as_str());
    let mut i: usize = 0;
    let ghost mut k: int = 0;
    assert(x@.skip(0) =~= x@);
    assert(y@.skip(0) =~= y@);
    while i < x.len() && i < y.len()
        invariant
            k == i,
            i <= x.len(),
            i <= y.len(),
            x@ == a@,
            y@ == b@,
            text_order(a@, b@) == text_order(x@.skip(k), y@.skip(k)),
        decreases x.len() - i,
    {
        assert(x@.skip(k).drop_first() =~= x@.skip(k + 1));
        assert(y@.skip(k).drop_first() =~= y@.skip(k + 1));
        if x[i] < y[i] {
            return Ordering::Less;
        }
        if x[i] > y[i] {
            return Ordering::Greater;
        }
        i = i + 1;
        proof {
            k = k + 1;
        }
    }
    if i < y.len() {
        Ordering::Less
    } else if i < x.len() {
        Ordering::Greater
    } else {
        Ordering::Equal
    }
}

impl PreReleaseIdentifier {
    fn cmp_identifier(&self, other: &Self) -> (r: Ordering)
        ensures
            r == to_ordering(id_order(self@, other@)),
    {
        match (self, other) {
            (PreReleaseIdentifier::Numeric(a), PreReleaseIdentifier::Numeric(b)) => order_u64(
                *a,
                *b,
            ),
            (PreReleaseIdentifier::Alpha(a), PreReleaseIdentifier::Alpha(b)) => order_text(a, b),
            // Numeric identifiers always have lower precedence than alphanumeric ones.
            (PreReleaseIdentifier::Numeric(_), PreReleaseIdentifier::Alpha(_)) => Ordering::Less,
            (PreReleaseIdentifier::Alpha(_), PreReleaseIdentifier::Numeric(_)) => Ordering::Greater,
        }
    }
}

fn compare_pre_release(a: &Vec<PreReleaseIdentifier>, b: &Vec<PreReleaseIdentifier>) -> (r:
    Ordering)
    ensures
        r == to_ordering(
            ids_order(
                a@.map_values(|p: PreReleaseIdentifier| p@),
                b@.map_values(|p: PreReleaseIdentifier| p@),
            ),
        ),
{
    let ghost x = a@.map_values(|p: PreReleaseIdentifier| p@);
    let ghost y = b@.map_values(|p: PreReleaseIdentifier| p@);
    let mut i: usize = 0;
    let ghost mut k: int = 0;
    assert(x.skip(0) =~= x);
    assert(y.skip(0) =~= y);
    while i < a.len() && i < b.len()
        invariant
            k == i,
            i <= a.len(),
            i <= b.len(),
            x == a@.map_values(|p: PreReleaseIdentifier| p@),
            y == b@.map_values(|p: PreReleaseIdentifier| p@),
            ids_order(x, y) == ids_order(x.skip(k), y.skip(k)),
        decreases a.len() - i,
    {
        assert(x.skip(k).drop_first() =~= x.skip(k + 1));
        assert(y.skip(k).drop_first() =~= y.skip(k + 1));
        assert(x.skip(k)[0] == a@[k]@);
        assert(y.skip(k)[0] == b@[k]@);
        let ord = a[i].cmp_identifier(&b[i]);
        match ord {
            Ordering::Equal => {},
            _ => {
                return ord;
            },
        }
        i = i + 1;
        proof {
            k = k + 1;
        }
    }
    // All shared identifiers are equal: the longer list has higher precedence.
    if a.len() < b.len() {
        Ordering::Less
    } else if a.len() == b.len() {
        Ordering::Equal
    } else {
        Ordering::Greater
    }
}

/// SemVer 2.0.0 §11 precedence: core version numerically, then
/// pre-release (a version *with* pre-release identifiers has *lower*
/// precedence than the same core version with none).
pub fn compare(a: &SemVer, b: &SemVer) -> (r: Ordering)
    ensures
        r == to_ordering(precedence(a@, b@)),
{
    match order_u64(a.major, b.major) {
        Ordering::Equal => {},
        o => {
            return o;
        },
    }
    match order_u64(a.minor, b.minor) {
        Ordering::Equal => {},
        o => {
            return o;
        },
    }
    match order_u64(a.patch, b.patch) {
        Ordering::Equal => {},
        o => {
            return o;
        },
    }
    let a_empty = a.pre_release.len() == 0;
    let b_empty = b.pre_release.len() == 0;
    if a_empty && b_empty {
        Ordering::Equal
    } else if a_empty {
        Ordering::Greater
    } else if b_empty {
        Ordering::Less
    } else {
        compare_pre_release(&a.pre_release, &b.pre_release)
    }
}

pub(crate) proof fn lemma_text_order_antisymmetric(a: Seq<char>, b: Seq<char>)
    ensures
        text_order(a, b) == -text_order(b, a),
        -1 <= text_order(a, b) <= 1,
    decreases a.len(),
{
    if a.len() > 0 && b.len() > 0 && a[0] == b[0] {
        lemma_text_order_antisymmetric(a.drop_first(), b.drop_first());
    }
}

pub(crate) proof fn lemma_text_order_zero(a: Seq<char>, b: Seq<char>)
    ensures
        (text_order(a, b) == 0) == (a == b),
    decreases a.len(),
{
    if a.len() > 0 && b.len() > 0 && a[0] == b[0] {
        lemma_text_order_zero(a.drop_first(), b.drop_first());
        if a.drop_first() == b.drop_first() {
            assert(a =~= b) by {
                assert forall|i: int| 0 <= i < a.len() implies a[i] == b[i] by {
                    if i > 0 {
                        assert(a[i] == a.drop_first()[i - 1]);
                        assert(b[i] == b.drop_first()[i - 1]);
                    }
                }
            }
        }
        if a == b {
            assert(a.drop_first() =~= b.drop_first());
        }
    } else if a.len() == 0 && b.len() == 0 {
        assert(a =~= b);
    }
}

proof fn lemma_text_order_transitive(a: Seq<char>, b: Seq<char>, c: Seq<char>)
    requires
        text_order(a, b) < 0,
        text_order(b, c) < 0,
    ensures
        text_order(a, c) < 0,
    decreases a.len(),
{
    if a.len() > 0 && b.len() > 0 && c.len() > 0 && a[0] == b[0] && b[0] == c[0] {
        lemma_text_order_transitive(a.drop_first(), b.drop_first(), c.drop_first());
    }
}

proof fn lemma_id_order(a: PreModel, b: PreModel)
    ensures
        id_order(a, b) == -id_order(b, a),
        -1 <= id_order(a, b) <= 1,
        (id_order(a, b) == 0) == (a == b),
{
    match (a, b) {
        (PreModel::Alpha(x), PreModel::Alpha(y)) => {
            lemma_text_order_antisymmetric(x, y);
            lemma_text_order_zero(x, y);
        },
        _ => {},
    }
}

proof fn lemma_id_order_transitive(a: PreModel, b: PreModel, c: PreModel)
    requires
        id_order(a, b) < 0,
        id_order(b, c) < 0,
    ensures
        id_order(a, c) < 0,
{
    match (a, b, c) {
        (PreModel::Alpha(x), PreModel::Alpha(y), PreModel::Alpha(z)) => {
            lemma_text_order_transitive(x, y, z);
        },
        _ => {},
    }
}

proof fn lemma_ids_order(a: Seq<PreModel>, b: Seq<PreModel>)
    ensures
        ids_order(a, b) == -ids_order(b, a),
        -1 <= ids_order(a, b) <= 1,
        (ids_order(a, b) == 0) == (a == b),
    decreases a.len(),
{
    if a.len() > 0 && b.len() > 0 {
        lemma_id_order(a[0], b[0]);
        lemma_id_order(b[0], a[0]);
        if id_order(a[0], b[0]) == 0 {
            lemma_ids_order(a.drop_first(), b.drop_first());
            if a.drop_first() == b.drop_first() {
                assert(a =~= b) by {
                    assert forall|i: int| 0 <= i < a.len() implies a[i] == b[i] by {
                        if i > 0 {
                            assert(a[i] == a.drop_first()[i - 1]);
                            assert(b[i] == b.drop_first()[i - 1]);
                        }
                    }
                }
            }
            if a == b {
                assert(a.drop_first() =~= b.drop_first());
            }
        }
    } else if a.len() == 0 && b.len() == 0 {
        assert(a =~= b);
    }
}

proof fn lemma_ids_order_transitive(a: Seq<PreModel>, b: Seq<PreModel>, c: Seq<PreModel>)
    requires
        ids_order(a, b) < 0,
        ids_order(b, c) < 0,
    ensures
        ids_order(a, c) < 0,
    decreases a.len(),
{
    if a.len() > 0 && b.len() > 0 && c.len() > 0 {
        lemma_id_order(a[0], b[0]);
        lemma_id_order(b[0], c[0]);
        lemma_id_order(a[0], c[0]);
        if id_order(a[0], b[0]) == 0 && id_order(b[0], c[0]) == 0 {
            lemma_ids_order_transitive(a.drop_first(), b.drop_first(), c.drop_first());
        } else if id_order(a[0], b[0]) < 0 && id_order(b[0], c[0]) < 0 {
            lemma_id_order_transitive(a[0], b[0], c[0]);
        }
    }
}

/// Precedence is antisymmetric: comparing `b` with `a` gives the opposite
/// of comparing `a` with `b`, and every result is -1, 0 or 1.
pub proof fn lemma_precedence_antisymmetric(a: SemVerModel, b: SemVerModel)
    ensures
        precedence(a, b) == -precedence(b, a),
        -1 <= precedence(a, b) <= 1,
{
    lemma_ids_order(a.pre_release, b.pre_release);
}

/// Two versions have equal precedence exactly when they are the same
/// version (build metadata is never part of a version).
pub proof fn lemma_precedence_equal(a: SemVerModel, b: SemVerModel)
    ensures
        (precedence(a, b) == 0) == (a == b),
{
    lemma_ids_order(a.pre_release, b.pre_release);
}

/// Precedence is transitive: below-below is below.
pub proof fn lemma_precedence_transitive(a: SemVerModel, b: SemVerModel, c: SemVerModel)
    requires
        precedence(a, b) < 0,
        precedence(b, c) < 0,
    ensures
        precedence(a, c) < 0,
{
    lemma_ids_order(a.pre_release, b.pre_release);
    lemma_ids_order(b.pre_release, c.pre_release);
    lemma_ids_order(a.pre_release, c.pre_release);
    if a.major == b.major && b.major == c.major && a.minor == b.minor && b.minor == c.minor
        && a.patch == b.patch && b.patch == c.patch && a.pre_release.len() > 0
        && b.pre_release.len() > 0 && c.pre_release.len() > 0 {
        lemma_ids_order_transitive(a.pre_release, b.pre_release, c.pre_release);
    }
}

/// A release has higher precedence than any pre-release of the same
/// core version.
pub proof fn lemma_release_outranks_its_pre_release(a: SemVerModel, b: SemVerModel)
    requires
        a.major == b.major,
        a.minor == b.minor,
        a.patch == b.patch,
        a.pre_release.len() == 0,
        b.pre_release.len() > 0,
    ensures
        precedence(a, b) == 1,
{
}

/// `+` and everything after it never change what a version parses as,
/// when the text before it holds no `+`.
pub proof fn lemma_build_metadata_is_dropped(s: Seq<char>, m: Seq<char>)
    requires
        forall|i: int| 0 <= i < s.len() ==> s[i] != '+',
    ensures
        parse_spec(s + seq!['+'] + m) == parse_spec(s),
{
    let x = s + seq!['+'] + m;
    let w = without_v(s);
    if s.len() > 0 && s[0] == 'v' {
        assert(x[0] == 'v');
        assert(x.drop_first() =~= s.drop_first() + seq!['+'] + m);
    } else if s.len() > 0 {
        assert(x[0] == s[0]);
    } else {
        assert(x[0] == '+');
    }
    assert(without_v(x) =~= w + seq!['+'] + m);
    assert forall|i: int| 0 <= i < w.len() implies w[i] != '+' by {
        if w.len() < s.len() {
            assert(w[i] == s[i + 1]);
        } else {
            assert(w[i] == s[i]);
        }
    }
    let y = w + seq!['+'] + m;
    crate::text::lemma_find_char(y, '+');
    assert(y[w.len() as int] == '+');
    let r = find_char(y, '+');
    if r >= 0 && r < w.len() {
        assert(y[r] == w[r]);
    }
    assert(r == w.len());
    assert(y.take(r) =~= w);
    crate::text::lemma_find_char(w, '+');
    assert(without_build(w) == w);
}

/// One leading `v` never changes what a version parses as.
pub proof fn lemma_leading_v_is_dropped(s: Seq<char>)
    requires
        !(s.len() > 0 && s[0] == 'v'),
    ensures
        parse_spec(seq!['v'] + s) == parse_spec(s),
{
    assert((seq!['v'] + s).drop_first() =~= s);
}

/// `a.b.c` written in decimal.
pub open spec fn plain_core(a: u64, b: u64, c: u64) -> Seq<char> {
    decimal(a as nat) + seq!['.'] + decimal(b as nat) + seq!['.'] + decimal(c as nat)
}

/// `a.b.c` in decimal is made of digits and dots, starts with a digit,
/// and splits at its dots into three core numbers worth `a`, `b`, `c`.
proof fn lemma_plain_core(a: u64, b: u64, c: u64)
    ensures
        plain_core(a, b, c).len() > 0,
        is_digit(plain_core(a, b, c)[0]),
        forall|i: int|
            0 <= i < plain_core(a, b, c).len() ==> is_digit(#[trigger] plain_core(a, b, c)[i])
                || plain_core(a, b, c)[i] == '.',
        split_char(plain_core(a, b, c), '.') == seq![decimal(a as nat), decimal(b as nat), decimal(c as nat)],
        core_number(decimal(a as nat)) == Some(a),
        core_number(decimal(b as nat)) == Some(b),
        core_number(decimal(c as nat)) == Some(c),
{
    let da = decimal(a as nat);
    let db = decimal(b as nat);
    let dc = decimal(c as nat);
    lemma_decimal_digits(a as nat);
    lemma_decimal_digits(b as nat);
    lemma_decimal_digits(c as nat);
    let x = plain_core(a, b, c);
    assert forall|i: int| 0 <= i < x.len() implies is_digit(#[trigger] x[i]) || x[i] == '.' by {
        if i < da.len() {
            assert(x[i] == da[i]);
        } else if i == da.len() {
        } else if i < da.len() + 1 + db.len() {
            assert(x[i] == db[i - da.len() - 1]);
        } else if i == da.len() + 1 + db.len() {
        } else {
            assert(x[i] == dc[i - da.len() - 2 - db.len()]);
        }
    }
    assert(x[0] == da[0]);
    assert forall|i: int| 0 <= i < da.len() implies da[i] != '.' by {
        assert(is_digit(da[i]));
    }
    assert forall|i: int| 0 <= i < db.len() implies db[i] != '.' by {
        assert(is_digit(db[i]));
    }
    assert forall|i: int| 0 <= i < dc.len() implies dc[i] != '.' by {
        assert(is_digit(dc[i]));
    }
    let e = Seq::<char>::empty();
    lemma_split_append(e, da, '.');
    assert(e + da =~= da);
    assert(split_char(da, '.') =~= seq![da]);
    let a1 = da + seq!['.'];
    assert(a1.drop_last() =~= da);
    assert(split_char(a1, '.') =~= seq![da, e]);
    lemma_split_append(a1, db, '.');
    let a2 = a1 + db;
    assert(split_char(a2, '.') =~= seq![da, db]);
    let a3 = a2 + seq!['.'];
    assert(a3.drop_last() =~= a2);
    assert(split_char(a3, '.') =~= seq![da, db, e]);
    lemma_split_append(a3, dc, '.');
    assert(a3 + dc =~= x);
    assert(split_char(x, '.') =~= seq![da, db, dc]);
}

/// `a.b.c`, written in decimal, parses as the release `a.b.c`.
pub proof fn lemma_plain_version_reads_back(a: u64, b: u64, c: u64)
    ensures
        parse_spec(
            decimal(a as nat) + seq!['.'] + decimal(b as nat) + seq!['.'] + decimal(c as nat),
        ) == Some(SemVerModel { major: a, minor: b, patch: c, pre_release: Seq::empty() }),
{
    lemma_plain_core(a, b, c);
    let x = plain_core(a, b, c);
    assert(without_v(x) == x);
    crate::text::lemma_find_char(x, '+');
    if find_char(x, '+') >= 0 {
        assert(x[find_char(x, '+')] == '+');
    }
    assert(without_build(x) == x);
    crate::text::lemma_find_char(x, '-');
    if find_char(x, '-') >= 0 {
        assert(x[find_char(x, '-')] == '-');
    }
    assert(core_part(x) == x);
    assert(pre_part(x) == Some(Seq::<PreModel>::empty()));
}

/// `a.b.c-id`, for one identifier `id` that SemVer allows (ASCII letters
/// of either case, digits and hyphens, at least one, and no leading zero
/// when all digits), parses as `a.b.c` with that one identifier, which
/// reads as text when any character of it is not a digit.
pub proof fn lemma_pre_release_reads_back(a: u64, b: u64, c: u64, id: Seq<char>)
    requires
        id.len() > 0,
        forall|i: int|
            0 <= i < id.len() ==> ('0' <= #[trigger] id[i] && id[i] <= '9') || ('a' <= id[i] && id[i]
                <= 'z') || ('A' <= id[i] && id[i] <= 'Z') || id[i] == '-',
        (forall|i: int| 0 <= i < id.len() ==> '0' <= #[trigger] id[i] && id[i] <= '9') ==> (id.len()
            == 1 || id[0] != '0'),
    ensures
        parse_spec(plain_core(a, b, c) + seq!['-'] + id) is Some,
        parse_spec(plain_core(a, b, c) + seq!['-'] + id)->0.major == a,
        parse_spec(plain_core(a, b, c) + seq!['-'] + id)->0.minor == b,
        parse_spec(plain_core(a, b, c) + seq!['-'] + id)->0.patch == c,
        parse_spec(plain_core(a, b, c) + seq!['-'] + id)->0.pre_release.len() == 1,
        (exists|i: int| 0 <= i < id.len() && !('0' <= #[trigger] id[i] && id[i] <= '9')) ==> parse_spec(
            plain_core(a, b, c) + seq!['-'] + id,
        )->0.pre_release == seq![PreModel::Alpha(id)],
{
    lemma_identifier_reads_back(a, b, c, id);
    let x = plain_core(a, b, c);
    let y = x + seq!['-'] + id;
    if exists|i: int| 0 <= i < id.len() && !('0' <= #[trigger] id[i] && id[i] <= '9') {
        let i = choose|i: int| 0 <= i < id.len() && !('0' <= #[trigger] id[i] && id[i] <= '9');
        assert(!is_digit(id[i]));
        assert(!all_digits(id));
    }
}

/// `a.b.c-n`, for a number `n` written in decimal, parses as `a.b.c`
/// with the one numeric identifier `n`.
pub proof fn lemma_numeric_pre_release_reads_back(a: u64, b: u64, c: u64, n: u64)
    ensures
        parse_spec(plain_core(a, b, c) + seq!['-'] + decimal(n as nat)) == Some(
            SemVerModel { major: a, minor: b, patch: c, pre_release: seq![PreModel::Numeric(n)] },
        ),
{
    let id = decimal(n as nat);
    lemma_decimal_digits(n as nat);
    assert forall|i: int| 0 <= i < id.len() implies ('0' <= #[trigger] id[i] && id[i] <= '9') by {
        assert(is_digit(id[i]));
    }
    lemma_identifier_reads_back(a, b, c, id);
    let y = plain_core(a, b, c) + seq!['-'] + id;
    assert(parse_spec(y)->0.pre_release =~= seq![PreModel::Numeric(n)]);
}

/// What `a.b.c-id` parses as, for an identifier `id` that SemVer allows.
proof fn lemma_identifier_reads_back(a: u64, b: u64, c: u64, id: Seq<char>)
    requires
        id.len() > 0,
        forall|i: int|
            0 <= i < id.len() ==> ('0' <= #[trigger] id[i] && id[i] <= '9') || ('a' <= id[i] && id[i]
                <= 'z') || ('A' <= id[i] && id[i] <= 'Z') || id[i] == '-',
        (forall|i: int| 0 <= i < id.len() ==> '0' <= #[trigger] id[i] && id[i] <= '9') ==> (id.len()
            == 1 || id[0] != '0'),
    ensures
        parse_spec(plain_core(a, b, c) + seq!['-'] + id) == Some(
            SemVerModel { major: a, minor: b, patch: c, pre_release: seq![pre_id_spec(id)] },
        ),
{
    lemma_plain_core(a, b, c);
    let x = plain_core(a, b, c);
    let y = x + seq!['-'] + id;
    assert(y[0] == x[0]);
    assert(without_v(y) == y);
    assert forall|i: int| 0 <= i < y.len() implies y[i] != '+' by {
        if i < x.len() {
            assert(y[i] == x[i]);
        } else if i > x.len() {
            assert(y[i] == id[i - x.len() - 1]);
        }
    }
    crate::text::lemma_find_char(y, '+');
    if find_char(y, '+') >= 0 {
        assert(y[find_char(y, '+')] == '+');
    }
    assert(without_build(y) == y);
    crate::text::lemma_find_char(y, '-');
    assert(y[x.len() as int] == '-');
    let d = find_char(y, '-');
    if d < x.len() {
        assert(y[d] == x[d]);
    }
    assert(d == x.len());
    assert(y.take(d) =~= x);
    assert(core_part(y) == x);
    assert(y.subrange(d + 1, y.len() as int) =~= id);
    assert forall|i: int| 0 <= i < id.len() implies id[i] != '.' by {
        assert(('0' <= id[i] && id[i] <= '9') || ('a' <= id[i] && id[i] <= 'z') || ('A' <= id[i]
            && id[i] <= 'Z') || id[i] == '-');
    }
    let e = Seq::<char>::empty();
    lemma_split_append(e, id, '.');
    assert(e + id =~= id);
    assert(split_char(id, '.') =~= seq![id]);
    assert forall|i: int| 0 <= i < id.len() implies is_ident_char(#[trigger] id[i]) by {
        assert(('0' <= id[i] && id[i] <= '9') || ('a' <= id[i] && id[i] <= 'z') || ('A' <= id[i]
            && id[i] <= 'Z') || id[i] == '-');
    }
    if all_digits(id) {
        assert forall|i: int| 0 <= i < id.len() implies '0' <= #[trigger] id[i] && id[i] <= '9' by {
            assert(is_digit(id[i]));
        }
    }
    assert(pre_id_valid(id));
    let ids = split_char(id, '.');
    assert(forall|k: int| 0 <= k < ids.len() ==> pre_id_valid(#[trigger] ids[k]));
    assert(pre_part(y) == Some(seq![pre_id_spec(id)])) by {
        assert(ids.map_values(|p: Seq<char>| pre_id_spec(p)) =~= seq![pre_id_spec(id)]);
    }
}

/// Precedence compares the core numbers first, in the order major,
/// minor, patch: the first of them that differs decides, whatever the
/// pre-releases are.
pub proof fn lemma_precedence_core_order(a: SemVerModel, b: SemVerModel)
    ensures
        a.major > b.major ==> precedence(a, b) == 1,
        a.major < b.major ==> precedence(a, b) == -1,
        a.major == b.major && a.minor > b.minor ==> precedence(a, b) == 1,
        a.major == b.major && a.minor < b.minor ==> precedence(a, b) == -1,
        a.major == b.major && a.minor == b.minor && a.patch > b.patch ==> precedence(a, b) == 1,
        a.major == b.major && a.minor == b.minor && a.patch < b.patch ==> precedence(a, b) == -1,
{
}

/// Every identifier is level with itself.
proof fn lemma_id_order_reflexive(x: PreModel)
    ensures
        id_order(x, x) == 0,
{
    match x {
        PreModel::Alpha(t) => lemma_text_order_zero(t, t),
        PreModel::Numeric(_) => {},
    }
}

/// Identifier lists that agree on their first `k` identifiers are ordered
/// by what follows.
proof fn lemma_ids_order_skip(a: Seq<PreModel>, b: Seq<PreModel>, k: int)
    requires
        0 <= k <= a.len(),
        k <= b.len(),
        forall|j: int| 0 <= j < k ==> a[j] == b[j],
    ensures
        ids_order(a, b) == ids_order(a.skip(k), b.skip(k)),
    decreases k,
{
    if k == 0 {
        assert(a.skip(0) =~= a);
        assert(b.skip(0) =~= b);
    } else {
        assert(a[0] == b[0]);
        lemma_id_order_reflexive(a[0]);
        let a1 = a.drop_first();
        let b1 = b.drop_first();
        assert forall|j: int| 0 <= j < k - 1 implies a1[j] == b1[j] by {
            assert(a[j + 1] == b[j + 1]);
        }
        lemma_ids_order_skip(a1, b1, k - 1);
        assert(a1.skip(k - 1) =~= a.skip(k));
        assert(b1.skip(k - 1) =~= b.skip(k));
    }
}

/// Between two pre-releases of the same core version, the first
/// identifiers that differ decide: a numeric one is below an alphanumeric
/// one, numeric ones go by value and alphanumeric ones by text; when one
/// list runs out first, it is the lower.
pub proof fn lemma_pre_release_order(a: SemVerModel, b: SemVerModel, k: int)
    requires
        a.major == b.major,
        a.minor == b.minor,
        a.patch == b.patch,
        a.pre_release.len() > 0,
        b.pre_release.len() > 0,
        0 <= k <= a.pre_release.len(),
        k <= b.pre_release.len(),
        forall|j: int| 0 <= j < k ==> a.pre_release[j] == b.pre_release[j],
    ensures
        k == a.pre_release.len() && k < b.pre_release.len() ==> precedence(a, b) == -1,
        k < a.pre_release.len() && k < b.pre_release.len() && a.pre_release[k] is Numeric
            && b.pre_release[k] is Alpha ==> precedence(a, b) == -1,
        k < a.pre_release.len() && k < b.pre_release.len() && a.pre_release[k] is Numeric
            && b.pre_release[k] is Numeric && a.pre_release[k]->Numeric_0
            < b.pre_release[k]->Numeric_0 ==> precedence(a, b) == -1,
        k < a.pre_release.len() && k < b.pre_release.len() && a.pre_release[k] is Alpha
            && b.pre_release[k] is Alpha && text_order(
            a.pre_release[k]->Alpha_0,
            b.pre_release[k]->Alpha_0,
        ) < 0 ==> precedence(a, b) == -1,
{
    lemma_ids_order_skip(a.pre_release, b.pre_release, k);
    let x = a.pre_release.skip(k);
    let y = b.pre_release.skip(k);
    if k < a.pre_release.len() && k < b.pre_release.len() {
        assert(x[0] == a.pre_release[k]);
        assert(y[0] == b.pre_release[k]);
        if a.pre_release[k] is Alpha && b.pre_release[k] is Alpha {
            lemma_text_order_antisymmetric(a.pre_release[k]->Alpha_0, b.pre_release[k]->Alpha_0);
        }
    }
}

} // verus!

