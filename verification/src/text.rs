//! Character-level building blocks shared by the parsers: whitespace
//! trimming, prefix tests, searching, splitting, decimal numbers, and
//! assembling `String`s. Every text is modelled as its `Seq<char>`.

use vstd::prelude::*;

verus! {

/// The Unicode `White_Space` property, which is what `char::is_whitespace`
/// (and so `str::trim`, `str::trim_start`, `str::trim_end`) tests for.
pub open spec fn is_ws(c: char) -> bool {
    ||| ('\u{9}' <= c && c <= '\u{d}')
    ||| c == ' '
    ||| c == '\u{85}'
    ||| c == '\u{a0}'
    ||| c == '\u{1680}'
    ||| ('\u{2000}' <= c && c <= '\u{200a}')
    ||| c == '\u{2028}'
    ||| c == '\u{2029}'
    ||| c == '\u{202f}'
    ||| c == '\u{205f}'
    ||| c == '\u{3000}'
}

/// Whether `c` is Unicode whitespace.
pub fn is_whitespace(c: char) -> (b: bool)
    ensures
        b == is_ws(c),
{
    ('\u{9}' <= c && c <= '\u{d}') || c == ' ' || c == '\u{85}' || c == '\u{a0}' || c == '\u{1680}'
        || ('\u{2000}' <= c && c <= '\u{200a}') || c == '\u{2028}' || c == '\u{2029}' || c
        == '\u{202f}' || c == '\u{205f}' || c == '\u{3000}'
}

/// `s` with its trailing whitespace removed.
pub open spec fn trim_end(s: Seq<char>) -> Seq<char>
    decreases s.len(),
{
    if s.len() > 0 && is_ws(s.last()) {
        trim_end(s.drop_last())
    } else {
        s
    }
}

/// `s` with its leading whitespace removed.
pub open spec fn trim_start(s: Seq<char>) -> Seq<char>
    decreases s.len(),
{
    if s.len() > 0 && is_ws(s[0]) {
        trim_start(s.drop_first())
    } else {
        s
    }
}

/// `s` with whitespace removed at both ends.
pub open spec fn trim(s: Seq<char>) -> Seq<char> {
    trim_end(trim_start(s))
}

/// Whether `s` starts with `p`.
pub open spec fn has_prefix(s: Seq<char>, p: Seq<char>) -> bool {
    p.len() <= s.len() && s.subrange(0, p.len() as int) == p
}

/// Index of the first `c` in `s`, or -1 when there is none.
pub open spec fn find_char(s: Seq<char>, c: char) -> int
    decreases s.len(),
{
    if s.len() == 0 {
        -1
    } else if s[0] == c {
        0
    } else {
        let r = find_char(s.drop_first(), c);
        if r < 0 {
            -1
        } else {
            r + 1
        }
    }
}

/// Index of the first occurrence of `p` in `s`, or -1 when there is none.
pub open spec fn find_seq(s: Seq<char>, p: Seq<char>) -> int
    decreases s.len(),
{
    if has_prefix(s, p) {
        0
    } else if s.len() == 0 {
        -1
    } else {
        let r = find_seq(s.drop_first(), p);
        if r < 0 {
            -1
        } else {
            r + 1
        }
    }
}

/// The pieces of `s` between occurrences of `c` (as `str::split` yields
/// them): never empty, one more piece than there are `c`s.
pub open spec fn split_char(s: Seq<char>, c: char) -> Seq<Seq<char>>
    decreases s.len(),
{
    if s.len() == 0 {
        seq![Seq::<char>::empty()]
    } else {
        let p = split_char(s.drop_last(), c);
        if s.last() == c {
            p.push(Seq::<char>::empty())
        } else {
            p.update(p.len() - 1, p.last().push(s.last()))
        }
    }
}

pub open spec fn is_digit(c: char) -> bool {
    '0' <= c && c <= '9'
}

pub open spec fn all_digits(s: Seq<char>) -> bool {
    forall|i: int| 0 <= i < s.len() ==> is_digit(#[trigger] s[i])
}

pub open spec fn digit_value(c: char) -> nat {
    (c as int - '0' as int) as nat
}

/// The number that the decimal digits `s` spell.
pub open spec fn digits_value(s: Seq<char>) -> nat
    decreases s.len(),
{
    if s.len() == 0 {
        0
    } else {
        digits_value(s.drop_last()) * 10 + digit_value(s.last())
    }
}

/// The number that `s` spells when it is a non-empty run of ASCII digits
/// (no sign, nothing else); `None` for any other text.
pub open spec fn digits_number(s: Seq<char>) -> Option<nat> {
    if s.len() > 0 && all_digits(s) {
        Some(digits_value(s))
    } else {
        None
    }
}

/// The number that `s` spells as a `u64`: `None` unless `s` is a
/// non-empty run of ASCII digits whose value fits.
pub open spec fn digits_u64(s: Seq<char>) -> Option<u64> {
    match digits_number(s) {
        Some(v) => if v <= u64::MAX {
            Some(v as u64)
        } else {
            None
        },
        None => None,
    }
}

pub open spec fn digit_char(d: nat) -> char {
    ('0' as nat + d) as char
}

/// The decimal representation of `n`, as `Display` writes it.
pub open spec fn decimal(n: nat) -> Seq<char>
    decreases n,
{
    if n < 10 {
        seq![digit_char(n)]
    } else {
        decimal(n / 10).push(digit_char(n % 10))
    }
}

/// Appends one character to a `String`.
#[verifier::external_body]
pub(crate) fn push_char(s: &mut String, c: char)
    ensures
        final(s)@ == old(s)@.push(c),
{
    s.push(c)
}

/// The characters of `s`, in order.
pub fn chars_of(s: &str) -> (v: Vec<char>)
    ensures
        v@ == s@,
{
    let mut v: Vec<char> = Vec::new();
    for c in it: s.chars()
        invariant
            v@ == it.seq().take(it.index() as int),
    {
        v.push(c);
    }
    v
}

/// The end of `v[start..end]` once trailing whitespace is removed.
pub fn trim_end_at(v: &Vec<char>, start: usize, end: usize) -> (e: usize)
    requires
        start <= end <= v.len(),
    ensures
        start <= e <= end,
        v@.subrange(start as int, e as int) == trim_end(v@.subrange(start as int, end as int)),
{
    let mut e = end;
    while e > start && is_whitespace(v[e - 1])
        invariant
            start <= e <= end <= v.len(),
            trim_end(v@.subrange(start as int, e as int)) == trim_end(
                v@.subrange(start as int, end as int),
            ),
        decreases e,
    {
        assert(v@.subrange(start as int, e as int).drop_last() =~= v@.subrange(
            start as int,
            e - 1,
        ));
        e = e - 1;
    }
    e
}

/// The start of `v[start..end]` once leading whitespace is removed.
pub fn trim_start_at(v: &Vec<char>, start: usize, end: usize) -> (b: usize)
    requires
        start <= end <= v.len(),
    ensures
        start <= b <= end,
        v@.subrange(b as int, end as int) == trim_start(v@.subrange(start as int, end as int)),
{
    let mut b = start;
    while b < end && is_whitespace(v[b])
        invariant
            start <= b <= end <= v.len(),
            trim_start(v@.subrange(b as int, end as int)) == trim_start(
                v@.subrange(start as int, end as int),
            ),
        decreases end - b,
    {
        assert(v@.subrange(b as int, end as int).drop_first() =~= v@.subrange(
            b + 1,
            end as int,
        ));
        b = b + 1;
    }
    b
}

/// Whether `v[start..end]` starts with `p`.
pub fn has_prefix_at(v: &Vec<char>, start: usize, end: usize, p: &[char]) -> (r: bool)
    requires
        start <= end <= v.len(),
    ensures
        r == has_prefix(v@.subrange(start as int, end as int), p@),
{
    let ghost s = v@.subrange(start as int, end as int);
    if p.len() > end - start {
        return false;
    }
    let mut i: usize = 0;
    while i < p.len()
        invariant
            i <= p.len() <= end - start,
            start <= end <= v.len(),
            s == v@.subrange(start as int, end as int),
            forall|j: int| 0 <= j < i ==> s[j] == p@[j],
        decreases p.len() - i,
    {
        if v[start + i] != p[i] {
            assert(s.subrange(0, p@.len() as int)[i as int] != p@[i as int]);
            return false;
        }
        i = i + 1;
    }
    assert(s.subrange(0, p@.len() as int) =~= p@);
    true
}

/// `find_char` is the first position holding `c`, or -1 when none does.
pub proof fn lemma_find_char(s: Seq<char>, c: char)
    ensures
        -1 <= find_char(s, c) < s.len(),
        find_char(s, c) >= 0 ==> s[find_char(s, c)] == c,
        forall|j: int| 0 <= j < s.len() && (find_char(s, c) < 0 || j < find_char(s, c)) ==> s[j]
            != c,
    decreases s.len(),
{
    if s.len() > 0 && s[0] != c {
        lemma_find_char(s.drop_first(), c);
        assert forall|j: int|
            0 <= j < s.len() && (find_char(s, c) < 0 || j < find_char(s, c)) implies s[j] != c by {
            if j > 0 {
                assert(s[j] == s.drop_first()[j - 1]);
            }
        }
    }
}

/// The last position in `s` holding `c`, or -1 when none does.
pub open spec fn rfind_char(s: Seq<char>, c: char) -> int
    decreases s.len(),
{
    if s.len() == 0 {
        -1
    } else if s.last() == c {
        s.len() - 1
    } else {
        rfind_char(s.drop_last(), c)
    }
}

/// `rfind_char` is the last position holding `c`, or -1 when none does.
pub proof fn lemma_rfind_char(s: Seq<char>, c: char)
    ensures
        -1 <= rfind_char(s, c) < s.len(),
        rfind_char(s, c) >= 0 ==> s[rfind_char(s, c)] == c,
        forall|j: int| rfind_char(s, c) < j < s.len() && 0 <= j ==> s[j] != c,
    decreases s.len(),
{
    if s.len() > 0 && s.last() != c {
        lemma_rfind_char(s.drop_last(), c);
        assert forall|j: int| rfind_char(s, c) < j < s.len() && 0 <= j implies s[j] != c by {
            if j < s.len() - 1 {
                assert(s[j] == s.drop_last()[j]);
            }
        }
    }
}

/// The last position in `v[start..end]` holding `c`, counted from `start`.
pub fn rfind_char_at(v: &Vec<char>, start: usize, end: usize, c: char) -> (r: Option<usize>)
    requires
        start <= end <= v.len(),
    ensures
        match r {
            Some(i) => i < end - start && i == rfind_char(v@.subrange(start as int, end as int), c),
            None => rfind_char(v@.subrange(start as int, end as int), c) == -1,
        },
{
    let ghost s = v@.subrange(start as int, end as int);
    let mut i = end;
    while i > start
        invariant
            start <= i <= end <= v.len(),
            s == v@.subrange(start as int, end as int),
            forall|j: int| i - start <= j < s.len() ==> s[j] != c,
        decreases i - start,
    {
        if v[i - 1] == c {
            let ghost k = i - 1 - start;
            assert(s[k] == c);
            assert(rfind_char(s, c) == k) by {
                lemma_rfind_char(s, c);
                let r = rfind_char(s, c);
                if r > k {
                    assert(s[r] != c);
                } else if r < k {
                    assert(s[k] != c);
                }
            }
            return Some(i - 1 - start);
        }
        assert(s[i - 1 - start] != c);
        i = i - 1;
    }
    proof {
        lemma_rfind_char(s, c);
        if rfind_char(s, c) >= 0 {
            assert(s[rfind_char(s, c)] == c);
        }
    }
    None
}

/// `find_seq` is the first position where `p` starts, or -1 when none does.
pub proof fn lemma_find_seq(s: Seq<char>, p: Seq<char>)
    ensures
        -1 <= find_seq(s, p) <= s.len(),
        find_seq(s, p) >= 0 ==> has_prefix(s.subrange(find_seq(s, p), s.len() as int), p),
        forall|j: int|
            0 <= j <= s.len() && (find_seq(s, p) < 0 || j < find_seq(s, p)) ==> !has_prefix(
                #[trigger] s.subrange(j, s.len() as int),
                p,
            ),
    decreases s.len(),
{
    assert(s.subrange(0, s.len() as int) =~= s);
    if !has_prefix(s, p) && s.len() > 0 {
        let t = s.drop_first();
        lemma_find_seq(t, p);
        if find_seq(s, p) >= 0 {
            assert(s.subrange(find_seq(s, p), s.len() as int) =~= t.subrange(
                find_seq(t, p),
                t.len() as int,
            ));
        }
        assert forall|j: int|
            0 <= j <= s.len() && (find_seq(s, p) < 0 || j < find_seq(s, p)) implies !has_prefix(
            #[trigger] s.subrange(j, s.len() as int),
            p,
        ) by {
            if j > 0 {
                assert(s.subrange(j, s.len() as int) =~= t.subrange(j - 1, t.len() as int));
            }
        }
    }
}

/// The first position in `v[start..end]` holding `c`, counted from `start`.
pub fn find_char_at(v: &Vec<char>, start: usize, end: usize, c: char) -> (r: Option<usize>)
    requires
        start <= end <= v.len(),
    ensures
        match r {
            Some(i) => i < end - start && i == find_char(v@.subrange(start as int, end as int), c),
            None => find_char(v@.subrange(start as int, end as int), c) == -1,
        },
{
    let ghost s = v@.subrange(start as int, end as int);
    proof {
        lemma_find_char(s, c);
    }
    let mut i: usize = start;
    while i < end
        invariant
            start <= i <= end <= v.len(),
            s == v@.subrange(start as int, end as int),
            -1 <= find_char(s, c) < s.len(),
            find_char(s, c) >= 0 ==> s[find_char(s, c)] == c,
            forall|j: int| 0 <= j < s.len() && (find_char(s, c) < 0 || j < find_char(s, c)) ==> s[j]
                != c,
            forall|j: int| 0 <= j < i - start ==> s[j] != c,
        decreases end - i,
    {
        if v[i] == c {
            assert(s[i - start] == c);
            return Some(i - start);
        }
        i = i + 1;
    }
    None
}

/// The first position in `v[start..end]` where `p` starts, counted from `start`.
pub fn find_seq_at(v: &Vec<char>, start: usize, end: usize, p: &[char]) -> (r: Option<usize>)
    requires
        start <= end <= v.len(),
    ensures
        match r {
            Some(i) => i <= end - start && i == find_seq(v@.subrange(start as int, end as int), p@),
            None => find_seq(v@.subrange(start as int, end as int), p@) == -1,
        },
{
    let ghost s = v@.subrange(start as int, end as int);
    proof {
        lemma_find_seq(s, p@);
    }
    let mut i: usize = start;
    while i <= end
        invariant
            start <= i <= end + 1,
            end <= v.len(),
            s == v@.subrange(start as int, end as int),
            -1 <= find_seq(s, p@) <= s.len(),
            find_seq(s, p@) >= 0 ==> has_prefix(s.subrange(find_seq(s, p@), s.len() as int), p@),
            forall|j: int|
                0 <= j <= s.len() && (find_seq(s, p@) < 0 || j < find_seq(s, p@)) ==> !has_prefix(
                    #[trigger] s.subrange(j, s.len() as int),
                    p@,
                ),
            forall|j: int|
                0 <= j < i - start ==> !has_prefix(#[trigger] s.subrange(j, s.len() as int), p@),
        decreases end + 1 - i,
    {
        if has_prefix_at(v, i, end, p) {
            assert(v@.subrange(i as int, end as int) =~= s.subrange(i - start, s.len() as int));
            return Some(i - start);
        }
        assert(v@.subrange(i as int, end as int) =~= s.subrange(i - start, s.len() as int));
        if i == end {
            return None;
        }
        i = i + 1;
    }
    None
}

/// A `String` holding `v[start..end]`.
pub fn substring(v: &Vec<char>, start: usize, end: usize) -> (r: String)
    requires
        start <= end <= v.len(),
    ensures
        r@ == v@.subrange(start as int, end as int),
{
    let mut r = String::new();
    let mut i = start;
    while i < end
        invariant
            start <= i <= end <= v.len(),
            r@ == v@.subrange(start as int, i as int),
        decreases end - i,
    {
        push_char(&mut r, v[i]);
        assert(v@.subrange(start as int, i + 1) =~= v@.subrange(start as int, i as int).push(
            v@[i as int],
        ));
        i = i + 1;
    }
    r
}

/// A prefix of a digit string never spells a larger number.
pub proof fn lemma_digits_value_prefix(t: Seq<char>, k: int)
    requires
        0 <= k <= t.len(),
    ensures
        digits_value(t.take(k)) <= digits_value(t),
    decreases t.len(),
{
    if k < t.len() {
        assert(t.drop_last().take(k) =~= t.take(k));
        lemma_digits_value_prefix(t.drop_last(), k);
    } else {
        assert(t.take(k) =~= t);
    }
}

/// The number that the digits `v[start..end]` spell, when they are all
/// ASCII digits, at least one, and the value fits in a `u64`.
pub fn digits_u64_at(v: &Vec<char>, start: usize, end: usize) -> (r: Option<u64>)
    requires
        start <= end <= v.len(),
    ensures
        r == digits_u64(v@.subrange(start as int, end as int)),
{
    let ghost d = v@.subrange(start as int, end as int);
    if start == end {
        return None;
    }
    let mut acc: u64 = 0;
    let mut i = start;
    while i < end
        invariant
            start <= i <= end <= v.len(),
            d == v@.subrange(start as int, end as int),
            d.len() > 0,
            all_digits(d.take(i - start)),
            acc == digits_value(d.take(i - start)),
        decreases end - i,
    {
        let c = v[i];
        let ghost k = i - start;
        assert(d[k] == c);
        if !('0' <= c && c <= '9') {
            assert(!all_digits(d));
            return None;
        }
        let dv = (c as u32 - '0' as u32) as u64;
        assert(d.take(k + 1).drop_last() =~= d.take(k));
        assert(d.take(k + 1).last() == c);
        assert(all_digits(d.take(k + 1))) by {
            assert forall|j: int| 0 <= j < k + 1 implies is_digit(#[trigger] d.take(k + 1)[j]) by {
                if j < k {
                    assert(d.take(k + 1)[j] == d.take(k)[j]);
                }
            }
        }
        match acc.checked_mul(10) {
            Some(m) => match m.checked_add(dv) {
                Some(n) => {
                    acc = n;
                },
                None => {
                    proof {
                        if all_digits(d) {
                            lemma_digits_value_prefix(d, k + 1);
                        }
                    }
                    return None;
                },
            },
            None => {
                proof {
                    if all_digits(d) {
                        lemma_digits_value_prefix(d, k + 1);
                    }
                }
                return None;
            },
        }
        i = i + 1;
    }
    assert(d.take(end - start) =~= d);
    Some(acc)
}

/// The decimal representation of `n` is a non-empty run of digits that
/// spells `n`, with no leading zero unless it is `0` itself.
pub proof fn lemma_decimal_digits(n: nat)
    ensures
        decimal(n).len() > 0,
        all_digits(decimal(n)),
        digits_value(decimal(n)) == n,
        decimal(n).len() == 1 || decimal(n)[0] != '0',
        n >= 10 ==> decimal(n).len() >= 2,
    decreases n,
{
    let d = decimal(n);
    let k = n % 10;
    assert(digit_char(k) as int == '0' as int + k);
    assert(digit_value(digit_char(k)) == k);
    if n < 10 {
        assert(d.drop_last() =~= Seq::<char>::empty());
        assert(k == n);
        assert(d.last() == digit_char(n));
        assert(digits_value(d) == digits_value(d.drop_last()) * 10 + digit_value(d.last()));
        assert(digits_value(Seq::<char>::empty()) == 0);
    } else {
        lemma_decimal_digits(n / 10);
        let p = decimal(n / 10);
        assert(d.drop_last() =~= p);
        assert(d[0] == p[0]);
        assert forall|i: int| 0 <= i < d.len() implies is_digit(#[trigger] d[i]) by {
            if i < p.len() {
                assert(d[i] == p[i]);
            }
        }
        assert(digits_value(d) == digits_value(p) * 10 + k);
        vstd::arithmetic::div_mod::lemma_fundamental_div_mod(n as int, 10);
        assert(digits_value(p) == n / 10);
        assert((n / 10) * 10 + k == n);
        if n / 10 < 10 {
            let h = n / 10;
            assert(h >= 1);
            assert(digit_char(h) as int == '0' as int + h);
            assert(p[0] == digit_char(h));
        } else {
            assert(p.len() > 1);
        }
    }
}

/// Appends the decimal representation of `n` to `out`.
pub fn push_decimal(out: &mut String, n: u64)
    ensures
        final(out)@ == old(out)@ + decimal(n as nat),
    decreases n,
{
    if n >= 10 {
        push_decimal(out, n / 10);
    }
    let d = n % 10;
    let c = char_of_digit(d);
    push_char(out, c);
    assert(old(out)@ + decimal(n as nat) =~= (if n >= 10 {
        old(out)@ + decimal((n / 10) as nat)
    } else {
        old(out)@
    }).push(digit_char(d as nat)));
}

/// The ASCII digit for `d < 10`.
fn char_of_digit(d: u64) -> (c: char)
    requires
        d < 10,
    ensures
        c == digit_char(d as nat),
{
    if d == 0 { '0' }
    else if d == 1 { '1' }
    else if d == 2 { '2' }
    else if d == 3 { '3' }
    else if d == 4 { '4' }
    else if d == 5 { '5' }
    else if d == 6 { '6' }
    else if d == 7 { '7' }
    else if d == 8 { '8' }
    else { '9' }
}

/// `split_char` always yields at least one piece.
pub proof fn lemma_split_char_len(s: Seq<char>, c: char)
    ensures
        split_char(s, c).len() >= 1,
    decreases s.len(),
{
    if s.len() > 0 {
        lemma_split_char_len(s.drop_last(), c);
    }
}

/// The pieces of `v[start..end]` between occurrences of `c`, as ranges of `v`.
pub fn split_ranges(v: &Vec<char>, start: usize, end: usize, c: char) -> (r: Vec<(usize, usize)>)
    requires
        start <= end <= v.len(),
    ensures
        r.len() == split_char(v@.subrange(start as int, end as int), c).len(),
        forall|k: int|
            0 <= k < r.len() ==> start <= (#[trigger] r@[k]).0 <= r@[k].1 <= end && v@.subrange(
                r@[k].0 as int,
                r@[k].1 as int,
            ) == split_char(v@.subrange(start as int, end as int), c)[k],
{
    let ghost s = v@.subrange(start as int, end as int);
    let mut r: Vec<(usize, usize)> = Vec::new();
    let mut piece_start = start;
    let mut i = start;
    assert(s.take(0) =~= Seq::<char>::empty());
    while i < end
        invariant
            start <= piece_start <= i <= end <= v.len(),
            s == v@.subrange(start as int, end as int),
            r.len() + 1 == split_char(s.take(i - start), c).len(),
            forall|k: int|
                0 <= k < r.len() ==> start <= (#[trigger] r@[k]).0 <= r@[k].1 <= end
                    && v@.subrange(r@[k].0 as int, r@[k].1 as int) == split_char(
                    s.take(i - start),
                    c,
                )[k],
            v@.subrange(piece_start as int, i as int) == split_char(s.take(i - start), c).last(),
        decreases end - i,
    {
        let ghost t = s.take(i - start);
        let ghost t1 = s.take(i + 1 - start);
        assert(t1.drop_last() =~= t);
        assert(t1.last() == v@[i as int]);
        proof {
            lemma_split_char_len(t, c);
        }
        if v[i] == c {
            r.push((piece_start, i));
            piece_start = i + 1;
            assert(v@.subrange(piece_start as int, i + 1) =~= Seq::<char>::empty());
        } else {
            assert(v@.subrange(piece_start as int, i + 1) =~= v@.subrange(
                piece_start as int,
                i as int,
            ).push(v@[i as int]));
        }
        i = i + 1;
    }
    r.push((piece_start, end));
    assert(s.take(end - start) =~= s);
    r
}

/// Whether `s` holds no line feed.
pub open spec fn no_newline(s: Seq<char>) -> bool {
    forall|i: int| 0 <= i < s.len() ==> s[i] != '\n'
}

/// The text made of `lines`, each followed by a line feed.
pub open spec fn joined(lines: Seq<Seq<char>>) -> Seq<char>
    decreases lines.len(),
{
    if lines.len() == 0 {
        Seq::empty()
    } else {
        joined(lines.drop_last()) + lines.last() + seq!['\n']
    }
}

/// Joining two runs of lines is joining each and concatenating.
pub proof fn lemma_joined_append(a: Seq<Seq<char>>, b: Seq<Seq<char>>)
    ensures
        joined(a + b) == joined(a) + joined(b),
    decreases b.len(),
{
    if b.len() == 0 {
        assert(a + b =~= a);
        assert(joined(a) + joined(b) =~= joined(a));
    } else {
        assert((a + b).drop_last() =~= a + b.drop_last());
        lemma_joined_append(a, b.drop_last());
        assert(joined(a + b) =~= joined(a) + joined(b));
    }
}

/// Splitting `s + l`, where `l` holds no `c`, extends the last piece of
/// `s` by `l`.
pub proof fn lemma_split_append(s: Seq<char>, l: Seq<char>, c: char)
    requires
        forall|i: int| 0 <= i < l.len() ==> l[i] != c,
    ensures
        split_char(s + l, c) == split_char(s, c).update(
            split_char(s, c).len() - 1,
            split_char(s, c).last() + l,
        ),
    decreases l.len(),
{
    lemma_split_char_len(s, c);
    let p = split_char(s, c);
    if l.len() == 0 {
        assert(s + l =~= s);
        assert(p.update(p.len() - 1, p.last() + l) =~= p);
    } else {
        assert((s + l).drop_last() =~= s + l.drop_last());
        assert((s + l).last() == l.last());
        assert(l[l.len() - 1] != c);
        assert(forall|i: int| 0 <= i < l.drop_last().len() ==> l.drop_last()[i] != c) by {
            assert forall|i: int| 0 <= i < l.drop_last().len() implies l.drop_last()[i] != c by {
                assert(l.drop_last()[i] == l[i]);
            }
        }
        lemma_split_append(s, l.drop_last(), c);
        let q = split_char(s + l.drop_last(), c);
        assert(q == p.update(p.len() - 1, p.last() + l.drop_last()));
        assert(q.len() == p.len());
        assert(q.last() == p.last() + l.drop_last());
        assert(split_char(s + l, c) == q.update(q.len() - 1, q.last().push(l.last())));
        assert(p.last() + l.drop_last() + seq![l.last()] =~= p.last() + l);
        assert(q.last().push(l.last()) =~= p.last() + l);
        assert(split_char(s + l, c) =~= p.update(p.len() - 1, p.last() + l));
    }
}

/// Splitting joined lines at line feeds gives the lines back, and an
/// empty piece after the last line feed.
pub proof fn lemma_split_joined(ls: Seq<Seq<char>>)
    requires
        forall|k: int| 0 <= k < ls.len() ==> no_newline(#[trigger] ls[k]),
    ensures
        split_char(joined(ls), '\n') == ls.push(Seq::<char>::empty()),
    decreases ls.len(),
{
    if ls.len() == 0 {
        assert(split_char(joined(ls), '\n') =~= ls.push(Seq::<char>::empty()));
    } else {
        let rest = ls.drop_last();
        let l = ls.last();
        assert forall|k: int| 0 <= k < rest.len() implies no_newline(#[trigger] rest[k]) by {
            assert(rest[k] == ls[k]);
        }
        assert(no_newline(ls[ls.len() - 1]));
        lemma_split_joined(rest);
        let j = joined(rest);
        lemma_split_append(j, l, '\n');
        let t = j + l + seq!['\n'];
        assert(t.drop_last() =~= j + l);
        assert(t.last() == '\n');
        assert(split_char(j + l, '\n') =~= ls);
        assert(split_char(joined(ls), '\n') =~= ls.push(Seq::<char>::empty()));
    }
}

/// `trim_end` keeps a prefix of its argument and never ends in whitespace.
pub proof fn lemma_trim_end_shape(s: Seq<char>)
    ensures
        trim_end(s).len() <= s.len(),
        trim_end(s) == s.take(trim_end(s).len() as int),
        trim_end(s).len() == 0 || !is_ws(trim_end(s).last()),
        s.len() > 0 && !is_ws(s[0]) ==> trim_end(s).len() > 0,
    decreases s.len(),
{
    if s.len() > 0 && is_ws(s.last()) {
        lemma_trim_end_shape(s.drop_last());
        let t = trim_end(s.drop_last());
        assert(s.drop_last().take(t.len() as int) =~= s.take(t.len() as int));
        if s.len() > 1 {
            assert(s.drop_last()[0] == s[0]);
        }
    } else {
        assert(s.take(s.len() as int) =~= s);
    }
}

/// `trim_end` removes everything it can at once.
pub proof fn lemma_trim_end_idempotent(s: Seq<char>)
    ensures
        trim_end(trim_end(s)) == trim_end(s),
{
    lemma_trim_end_shape(s);
}

/// Leading whitespace of `y` followed by one more character.
proof fn lemma_trim_start_push(y: Seq<char>, c: char)
    ensures
        trim_start(y.push(c)) == (if trim_start(y).len() > 0 {
            trim_start(y).push(c)
        } else {
            trim_start(seq![c])
        }),
    decreases y.len(),
{
    if y.len() == 0 {
        assert(y.push(c) =~= seq![c]);
    } else if is_ws(y[0]) {
        assert(y.push(c)[0] == y[0]);
        assert(y.push(c).drop_first() =~= y.drop_first().push(c));
        lemma_trim_start_push(y.drop_first(), c);
    } else {
        assert(y.push(c)[0] == y[0]);
    }
}

/// Trimming both ends does not depend on which end goes first.
pub proof fn lemma_trim_commutes(s: Seq<char>)
    ensures
        trim_start(trim_end(s)) == trim_end(trim_start(s)),
    decreases s.len(),
{
    if s.len() > 0 {
        let y = s.drop_last();
        let c = s.last();
        assert(s =~= y.push(c));
        lemma_trim_start_push(y, c);
        if is_ws(c) {
            lemma_trim_commutes(y);
            assert(trim_end(s) == trim_end(y));
            if trim_start(y).len() > 0 {
                assert(trim_start(y).push(c).drop_last() =~= trim_start(y));
                assert(trim_end(trim_start(s)) == trim_end(trim_start(y)));
            } else {
                assert(seq![c].drop_first() =~= Seq::<char>::empty());
                assert(trim_start(seq![c]) == trim_start(Seq::<char>::empty()));
                assert(trim_start(s).len() == 0);
                assert(trim_end(trim_start(y)) == trim_start(y));
            }
        } else {
            assert(trim_end(s) == s);
            if trim_start(y).len() == 0 {
                assert(trim_start(seq![c]) == seq![c]);
            }
            let t = trim_start(s);
            assert(t.len() > 0 && t.last() == c);
            assert(trim_end(t) == t);
        }
    }
}

/// Trimming a text after a leading space trims the text itself, however
/// much whitespace surrounds it.
pub proof fn lemma_trim_after_space(d: Seq<char>)
    ensures
        trim(trim_end(seq![' '] + d)) == trim(d),
{
    let x = seq![' '] + d;
    assert(x.drop_first() =~= d);
    assert(trim_start(x) == trim_start(d));
    lemma_trim_commutes(x);
    lemma_trim_end_idempotent(trim_start(d));
}

/// Trailing whitespace after a text that does not end in whitespace is
/// all that `trim_end` removes from the whole.
pub proof fn lemma_trim_end_concat(p: Seq<char>, r: Seq<char>)
    requires
        p.len() > 0,
        !is_ws(p.last()),
    ensures
        trim_end(p + r) == p + trim_end(r),
    decreases r.len(),
{
    if r.len() == 0 {
        assert(p + r =~= p);
        assert(p + trim_end(r) =~= p);
    } else {
        assert((p + r).last() == r.last());
        assert((p + r).drop_last() =~= p + r.drop_last());
        lemma_trim_end_concat(p, r.drop_last());
    }
}

/// Joining one more line appends it and a line feed.
pub proof fn lemma_joined_push(ls: Seq<Seq<char>>, x: Seq<char>)
    ensures
        joined(ls.push(x)) == joined(ls) + x + seq!['\n'],
{
    assert(ls.push(x).drop_last() =~= ls);
}

/// Appends `line` and a line feed to `out`.
pub fn push_line(out: &mut String, line: &str)
    ensures
        final(out)@ == old(out)@ + line@ + seq!['\n'],
{
    out.append(line);
    out.append("\n");
    proof {
        reveal_strlit("\n");
    }
    assert(final(out)@ =~= old(out)@ + line@ + seq!['\n']);
}

/// The ASCII whitespace characters (space, tab, line feed, vertical tab,
/// form feed, carriage return) are whitespace, and no printable ASCII
/// character other than the space is.
pub proof fn lemma_ascii_whitespace(c: char)
    ensures
        c == ' ' || c == '\t' || c == '\n' || c == '\u{b}' || c == '\u{c}' || c == '\r' ==> is_ws(c),
        '!' <= c && c <= '~' ==> !is_ws(c),
{
}

} // verus!
