//! Reading the tag listing that `git for-each-ref` prints with the format
//! `%(refname:short)|%(creatordate:short)`, one tag per line.

use vstd::prelude::*;

use crate::generate::pairs_view;
use crate::text::{chars_of, rfind_char, rfind_char_at, split_char, split_ranges, substring};

verus! {

/// A line without one trailing `\r`.
pub open spec fn without_cr(l: Seq<char>) -> Seq<char> {
    if l.len() > 0 && l.last() == '\r' {
        l.drop_last()
    } else {
        l
    }
}

/// The lines of `s` as `str::lines` yields them: split at `\n` (a `\r`
/// before it goes too), without the empty piece after a final `\n`.
pub open spec fn text_lines(s: Seq<char>) -> Seq<Seq<char>> {
    let p = split_char(s, '\n');
    let complete = p.drop_last().map_values(|l: Seq<char>| without_cr(l));
    if p.last().len() == 0 {
        complete
    } else {
        complete.push(p.last())
    }
}

/// The (tag, date) pairs of `lines`: each line holding a `|` is split at
/// its last one (a date never holds a `|`, while a tag name may), and
/// lines without a `|` are skipped.
pub open spec fn listing_pairs(lines: Seq<Seq<char>>) -> Seq<(Seq<char>, Seq<char>)>
    decreases lines.len(),
{
    if lines.len() == 0 {
        Seq::empty()
    } else {
        let l = lines.last();
        let b = rfind_char(l, '|');
        listing_pairs(lines.drop_last()) + if b >= 0 {
            seq![(l.take(b), l.skip(b + 1))]
        } else {
            Seq::<(Seq<char>, Seq<char>)>::empty()
        }
    }
}

/// Reads `git for-each-ref` output (`tag|date` per line) into
/// (tag, date) pairs, in the order git printed them.
pub fn parse_tag_listing(text: &str) -> (r: Vec<(String, String)>)
    ensures
        pairs_view(r@) == listing_pairs(text_lines(text@)),
{
    let v = chars_of(text);
    let ghost s = text@;
    let pieces = split_ranges(&v, 0, v.len(), '\n');
    assert(v@.subrange(0, v.len() as int) =~= s);
    let ghost p = split_char(s, '\n');
    let ghost ls = text_lines(s);
    proof {
        crate::text::lemma_split_char_len(s, '\n');
    }
    let last = pieces.len() - 1;
    let count = if pieces[last].0 < pieces[last].1 {
        pieces.len()
    } else {
        last
    };
    assert(ls.len() == count);
    let mut out: Vec<(String, String)> = Vec::new();
    let mut k: usize = 0;
    while k < count
        invariant
            k <= count <= pieces.len(),
            last + 1 == pieces.len(),
            count == ls.len(),
            v@ == s,
            p == split_char(s, '\n'),
            ls == text_lines(s),
            pieces.len() == p.len(),
            forall|j: int|
                0 <= j < pieces.len() ==> 0 <= (#[trigger] pieces@[j]).0 <= pieces@[j].1 <= v.len()
                    && v@.subrange(pieces@[j].0 as int, pieces@[j].1 as int) == p[j],
            pairs_view(out@) == listing_pairs(ls.take(k as int)),
        decreases count - k,
    {
        let (a, b0) = pieces[k];
        let mut b = b0;
        if k < last && a < b && v[b - 1] == '\r' {
            b = b - 1;
        }
        assert(v@.subrange(a as int, b as int) == ls[k as int]) by {
            if k < last && b < b0 {
                assert(v@.subrange(a as int, b0 as int).drop_last() =~= v@.subrange(
                    a as int,
                    b0 - 1,
                ));
            }
        }
        let ghost l = ls[k as int];
        assert(ls.take(k + 1).drop_last() =~= ls.take(k as int));
        let ghost before = out@;
        match rfind_char_at(&v, a, b, '|') {
            Some(i) => {
                assert(l.take(i as int) =~= v@.subrange(a as int, a + i));
                assert(l.skip(i + 1) =~= v@.subrange(a + i + 1, b as int));
                let tag = substring(&v, a, a + i);
                let date = substring(&v, a + i + 1, b);
                out.push((tag, date));
                assert(pairs_view(out@) =~= pairs_view(before).push((tag@, date@)));
            },
            None => {},
        }
        k = k + 1;
    }
    assert(ls.take(count as int) =~= ls);
    out
}

/// A listed line is split at its last `|`: the date is what follows it,
/// and the tag is all before it, `|`s included; a line without `|` is
/// skipped.
pub proof fn lemma_listing_line(ls: Seq<Seq<char>>, t: Seq<char>, d: Seq<char>, l: Seq<char>)
    requires
        forall|i: int| 0 <= i < d.len() ==> d[i] != '|',
        forall|i: int| 0 <= i < l.len() ==> l[i] != '|',
    ensures
        listing_pairs(ls.push(t + seq!['|'] + d)) == listing_pairs(ls).push((t, d)),
        listing_pairs(ls.push(l)) == listing_pairs(ls),
{
    let x = t + seq!['|'] + d;
    assert(ls.push(x).drop_last() =~= ls);
    assert(ls.push(l).drop_last() =~= ls);
    crate::text::lemma_rfind_char(x, '|');
    let r = rfind_char(x, '|');
    assert(x[t.len() as int] == '|');
    if r > t.len() {
        assert(x[r] == d[r - t.len() - 1]);
    }
    assert(r == t.len());
    assert(x.take(r) =~= t);
    assert(x.skip(r + 1) =~= d);
    crate::text::lemma_rfind_char(l, '|');
    if rfind_char(l, '|') >= 0 {
        assert(l[rfind_char(l, '|')] == '|');
    }
}

} // verus!
