//! Skeleton generation: given (tag, date) pairs, emits a bare Keep a
//! Changelog structure with empty `### Changed` stubs, the version/date
//! scaffolding a human then fills in by hand.

use vstd::prelude::*;

use crate::semver::{self, SemVer, SemVerModel, precedence};
use crate::text::{joined, lemma_joined_push, push_line};

verus! {

/// A (tag, date) pair as text.
pub open spec fn pair_view(p: (String, String)) -> (Seq<char>, Seq<char>) {
    (p.0@, p.1@)
}

pub open spec fn pairs_view(v: Seq<(String, String)>) -> Seq<(Seq<char>, Seq<char>)> {
    v.map_values(|p: (String, String)| pair_view(p))
}

/// The version a tag names, if it is one.
pub open spec fn tag_key(t: (Seq<char>, Seq<char>)) -> Option<SemVerModel> {
    semver::parse_spec(t.0)
}

/// Newest-first order of tag keys, as -1, 0 or 1: versions by descending
/// precedence, and every version before every tag that is not one.
pub open spec fn key_order(a: Option<SemVerModel>, b: Option<SemVerModel>) -> int {
    match (a, b) {
        (Some(x), Some(y)) => precedence(y, x),
        (Some(_), None) => -1,
        (None, Some(_)) => 1,
        (None, None) => 0,
    }
}

/// Whether input positions `a` then `b` are in the right order for a
/// stable sort: a lower key first, and equal keys in input order.
pub open spec fn in_order(keys: Seq<Option<SemVerModel>>, a: int, b: int) -> bool {
    key_order(keys[a], keys[b]) < 0 || (key_order(keys[a], keys[b]) == 0 && a < b)
}

/// `out` is `tags` rearranged by the permutation `perm` (`out[k]` is
/// `tags[perm[k]]`) so that newer versions come first, tags that are not
/// versions come after all versions, and ties keep their input order.
pub open spec fn stably_sorted(
    tags: Seq<(Seq<char>, Seq<char>)>,
    out: Seq<(Seq<char>, Seq<char>)>,
    perm: Seq<int>,
) -> bool {
    let keys = tags.map_values(|t: (Seq<char>, Seq<char>)| tag_key(t));
    &&& perm.len() == tags.len()
    &&& out.len() == tags.len()
    &&& forall|k: int| 0 <= k < perm.len() ==> 0 <= #[trigger] perm[k] < tags.len() && out[k] == tags[perm[k]]
    &&& forall|k: int, l: int| 0 <= k < l < perm.len() ==> #[trigger] perm[k] != #[trigger] perm[l]
    &&& forall|k: int, l: int|
        #![trigger perm[k], perm[l]]
        0 <= k < l < perm.len() ==> in_order(keys, perm[k], perm[l])
}

/// The order of tag keys is antisymmetric, with results -1, 0 or 1.
pub proof fn lemma_key_order_antisymmetric(a: Option<SemVerModel>, b: Option<SemVerModel>)
    ensures
        key_order(a, b) == -key_order(b, a),
        -1 <= key_order(a, b) <= 1,
        (key_order(a, b) == 0) == (a == b),
{
    match (a, b) {
        (Some(x), Some(y)) => {
            semver::lemma_precedence_antisymmetric(y, x);
            semver::lemma_precedence_equal(y, x);
        },
        _ => {},
    }
}

/// The order of tag keys is transitive.
pub proof fn lemma_key_order_transitive(
    a: Option<SemVerModel>,
    b: Option<SemVerModel>,
    c: Option<SemVerModel>,
)
    requires
        key_order(a, b) < 0,
        key_order(b, c) < 0,
    ensures
        key_order(a, c) < 0,
{
    match (a, b, c) {
        (Some(x), Some(y), Some(z)) => {
            semver::lemma_precedence_transitive(z, y, x);
        },
        _ => {},
    }
}

pub open spec fn key_of(o: Option<SemVer>) -> Option<SemVerModel> {
    match o {
        Some(v) => Some(v@),
        None => None,
    }
}

/// `key_order` of two parsed tags.
fn order_keys(a: &Option<SemVer>, b: &Option<SemVer>) -> (r: i8)
    ensures
        r == key_order(key_of(*a), key_of(*b)),
{
    match (a, b) {
        (Some(x), Some(y)) => {
            proof {
                semver::lemma_precedence_antisymmetric(y@, x@);
            }
            match semver::compare(y, x) {
                std::cmp::Ordering::Less => -1,
                std::cmp::Ordering::Equal => 0,
                std::cmp::Ordering::Greater => 1,
            }
        },
        (Some(_), None) => -1,
        (None, Some(_)) => 1,
        (None, None) => 0,
    }
}

/// Order tag keys as "not after": at or below, transitively.
proof fn lemma_key_order_le_transitive(
    a: Option<SemVerModel>,
    b: Option<SemVerModel>,
    c: Option<SemVerModel>,
)
    requires
        key_order(a, b) <= 0,
        key_order(b, c) <= 0,
    ensures
        key_order(a, c) <= 0,
{
    lemma_key_order_antisymmetric(a, b);
    lemma_key_order_antisymmetric(b, c);
    lemma_key_order_antisymmetric(a, c);
    if key_order(a, b) < 0 && key_order(b, c) < 0 {
        lemma_key_order_transitive(a, b, c);
    }
}

pub open spec fn positions(ord: Seq<usize>) -> Seq<int> {
    ord.map_values(|x: usize| x as int)
}

/// `ord` lists distinct positions below `n`, stably sorted by `keys`.
pub open spec fn sorted_positions(keys: Seq<Option<SemVerModel>>, ord: Seq<int>, n: int) -> bool {
    &&& forall|k: int| 0 <= k < ord.len() ==> 0 <= #[trigger] ord[k] < n
    &&& forall|k: int, l: int| 0 <= k < l < ord.len() ==> #[trigger] ord[k] != #[trigger] ord[l]
    &&& forall|k: int, l: int|
        #![trigger ord[k], ord[l]]
        0 <= k < l < ord.len() ==> in_order(keys, ord[k], ord[l])
}

/// Inserting the next position `i` before exactly the positions whose
/// keys come after its own keeps the list stably sorted.
proof fn lemma_insert_sorted(keys: Seq<Option<SemVerModel>>, ord: Seq<int>, p: int, i: int)
    requires
        0 <= i < keys.len(),
        ord.len() == i,
        sorted_positions(keys, ord, i),
        0 <= p <= ord.len(),
        forall|q: int| p <= q < ord.len() ==> key_order(keys[#[trigger] ord[q]], keys[i]) > 0,
        p == 0 || key_order(keys[ord[p - 1]], keys[i]) <= 0,
    ensures
        sorted_positions(keys, ord.insert(p, i), i + 1),
{
    let x = keys[i];
    let new = ord.insert(p, i);
    assert forall|k: int| 0 <= k < p implies key_order(keys[#[trigger] ord[k]], x) <= 0 by {
        if k < p - 1 {
            assert(in_order(keys, ord[k], ord[p - 1]));
            lemma_key_order_le_transitive(keys[ord[k]], keys[ord[p - 1]], x);
        }
    }
    assert forall|k: int| 0 <= k < new.len() implies 0 <= #[trigger] new[k] < i + 1 by {
        if k < p {
            assert(new[k] == ord[k]);
        } else if k > p {
            assert(new[k] == ord[k - 1]);
        }
    }
    assert forall|k: int, l: int| 0 <= k < l < new.len() implies #[trigger] new[k] != #[trigger] new[l] by {
        if k != p && l != p {
            let k1 = if k < p { k } else { k - 1 };
            let l1 = if l < p { l } else { l - 1 };
            assert(new[k] == ord[k1]);
            assert(new[l] == ord[l1]);
        } else if k == p {
            assert(new[l] == ord[l - 1]);
        } else {
            assert(new[k] == ord[k]);
        }
    }
    assert forall|k: int, l: int|
        #![trigger new[k], new[l]]
        0 <= k < l < new.len() implies in_order(keys, new[k], new[l]) by {
        if k != p && l != p {
            let k1 = if k < p { k } else { k - 1 };
            let l1 = if l < p { l } else { l - 1 };
            assert(new[k] == ord[k1]);
            assert(new[l] == ord[l1]);
            assert(in_order(keys, ord[k1], ord[l1]));
        } else if k == p {
            assert(new[l] == ord[l - 1]);
            assert(key_order(keys[ord[l - 1]], x) > 0);
            lemma_key_order_antisymmetric(keys[ord[l - 1]], x);
        } else {
            assert(new[k] == ord[k]);
            assert(key_order(keys[ord[k]], x) <= 0);
        }
    }
}

/// The keys by which `tags` are ordered.
pub open spec fn tag_keys(tags: Seq<(Seq<char>, Seq<char>)>) -> Seq<Option<SemVerModel>> {
    tags.map_values(|t: (Seq<char>, Seq<char>)| tag_key(t))
}

/// Where position `i` goes among the sorted positions `ord`, scanning
/// back from `p`: after the last one whose key does not come after its
/// own.
spec fn insert_point(keys: Seq<Option<SemVerModel>>, ord: Seq<int>, i: int, p: int) -> int
    decreases p,
{
    if p > 0 && key_order(keys[ord[p - 1]], keys[i]) > 0 {
        insert_point(keys, ord, i, p - 1)
    } else {
        p
    }
}

proof fn lemma_insert_point(keys: Seq<Option<SemVerModel>>, ord: Seq<int>, i: int, p: int)
    requires
        0 <= p <= ord.len(),
    ensures
        0 <= insert_point(keys, ord, i, p) <= p,
        forall|q: int|
            insert_point(keys, ord, i, p) <= q < p ==> key_order(keys[#[trigger] ord[q]], keys[i]) > 0,
        insert_point(keys, ord, i, p) == 0 || key_order(
            keys[ord[insert_point(keys, ord, i, p) - 1]],
            keys[i],
        ) <= 0,
    decreases p,
{
    if p > 0 && key_order(keys[ord[p - 1]], keys[i]) > 0 {
        lemma_insert_point(keys, ord, i, p - 1);
    }
}

/// The first `i` positions, stably sorted by `keys`, one insertion at a
/// time.
spec fn stable_positions(keys: Seq<Option<SemVerModel>>, i: nat) -> Seq<int>
    decreases i,
{
    if i == 0 {
        Seq::empty()
    } else {
        let o = stable_positions(keys, (i - 1) as nat);
        o.insert(insert_point(keys, o, i - 1, o.len() as int), i - 1)
    }
}

proof fn lemma_stable_positions(keys: Seq<Option<SemVerModel>>, i: nat)
    requires
        i <= keys.len(),
    ensures
        stable_positions(keys, i).len() == i,
        sorted_positions(keys, stable_positions(keys, i), i as int),
    decreases i,
{
    if i > 0 {
        let o = stable_positions(keys, (i - 1) as nat);
        lemma_stable_positions(keys, (i - 1) as nat);
        lemma_insert_point(keys, o, i - 1, o.len() as int);
        lemma_insert_sorted(keys, o, insert_point(keys, o, i - 1, o.len() as int), i - 1);
    }
}

/// The newest-first order of `tags`: their stably sorted rearrangement
/// (there is exactly one, see `lemma_newest_first` and
/// `lemma_stable_order_is_unique`).
pub open spec fn newest_first(tags: Seq<(Seq<char>, Seq<char>)>) -> Seq<(Seq<char>, Seq<char>)> {
    choose|out: Seq<(Seq<char>, Seq<char>)>| #[trigger] is_stable_order(tags, out)
}

/// `out` is `tags` stably sorted newest first, by some permutation.
pub open spec fn is_stable_order(
    tags: Seq<(Seq<char>, Seq<char>)>,
    out: Seq<(Seq<char>, Seq<char>)>,
) -> bool {
    exists|perm: Seq<int>| stably_sorted(tags, out, perm)
}

/// Every list of tags has a stably sorted rearrangement, and
/// `newest_first` is one.
pub proof fn lemma_newest_first(tags: Seq<(Seq<char>, Seq<char>)>)
    ensures
        exists|perm: Seq<int>| stably_sorted(tags, newest_first(tags), perm),
{
    let keys = tag_keys(tags);
    let n = tags.len();
    lemma_stable_positions(keys, n);
    let perm = stable_positions(keys, n);
    let out = Seq::new(n, |k: int| tags[perm[k]]);
    assert(tags.map_values(|t: (Seq<char>, Seq<char>)| tag_key(t)) =~= keys);
    assert(stably_sorted(tags, out, perm));
    assert(is_stable_order(tags, out));
    assert(is_stable_order(tags, newest_first(tags)));
}

/// Two stable sorts of the same tags agree: the stably sorted order is
/// unique.
pub proof fn lemma_stable_order_is_unique(
    tags: Seq<(Seq<char>, Seq<char>)>,
    out1: Seq<(Seq<char>, Seq<char>)>,
    perm1: Seq<int>,
    out2: Seq<(Seq<char>, Seq<char>)>,
    perm2: Seq<int>,
)
    requires
        stably_sorted(tags, out1, perm1),
        stably_sorted(tags, out2, perm2),
    ensures
        perm1 == perm2,
        out1 == out2,
{
    lemma_same_positions(tags, out1, perm1, out2, perm2, tags.len() as int);
    assert(perm1 =~= perm2);
    assert forall|k: int| 0 <= k < out1.len() implies out1[k] == out2[k] by {
        assert(perm1[k] == perm2[k]);
        assert(out1[k] == tags[perm1[k]]);
        assert(out2[k] == tags[perm2[k]]);
    }
    assert(out1 =~= out2);
}

proof fn lemma_same_positions(
    tags: Seq<(Seq<char>, Seq<char>)>,
    out1: Seq<(Seq<char>, Seq<char>)>,
    perm1: Seq<int>,
    out2: Seq<(Seq<char>, Seq<char>)>,
    perm2: Seq<int>,
    k: int,
)
    requires
        stably_sorted(tags, out1, perm1),
        stably_sorted(tags, out2, perm2),
        0 <= k <= tags.len(),
    ensures
        forall|j: int| 0 <= j < k ==> perm1[j] == perm2[j],
    decreases k,
{
    if k > 0 {
        let j = k - 1;
        lemma_same_positions(tags, out1, perm1, out2, perm2, j);
        let a = perm1[j];
        let b = perm2[j];
        if a != b {
            let keys = tags.map_values(|t: (Seq<char>, Seq<char>)| tag_key(t));
            let ka = lemma_sorted_keeps_every_tag(tags, out2, perm2, a);
            let kb = lemma_sorted_keeps_every_tag(tags, out1, perm1, b);
            if ka < j {
                assert(perm1[ka] == perm2[ka]);
                assert(perm1[ka] != perm1[j]);
            }
            if kb < j {
                assert(perm1[kb] == perm2[kb]);
                assert(perm2[kb] != perm2[j]);
            }
            assert(ka > j && kb > j);
            assert(in_order(keys, perm2[j], perm2[ka]));
            assert(in_order(keys, perm1[j], perm1[kb]));
            lemma_key_order_antisymmetric(keys[a], keys[b]);
        }
    }
}

/// Sorts `tags` newest-first by parsed semver where possible; tags that
/// don't parse as semver are kept, sorted after all valid ones, in their
/// original relative order (stable sort), so nothing is dropped.
pub fn sort_tags_newest_first(tags: &[(String, String)]) -> (r: Vec<(String, String)>)
    ensures
        exists|perm: Seq<int>| stably_sorted(pairs_view(tags@), pairs_view(r@), perm),
        pairs_view(r@) == newest_first(pairs_view(tags@)),
{
    let n = tags.len();
    let ghost tv = pairs_view(tags@);
    let ghost kv = tv.map_values(|t: (Seq<char>, Seq<char>)| tag_key(t));
    let mut keys: Vec<Option<SemVer>> = Vec::new();
    let mut j: usize = 0;
    while j < n
        invariant
            j <= n,
            n == tags@.len(),
            tv == pairs_view(tags@),
            kv == tv.map_values(|t: (Seq<char>, Seq<char>)| tag_key(t)),
            keys@.len() == j,
            forall|m: int| 0 <= m < j ==> key_of(#[trigger] keys@[m]) == kv[m],
        decreases n - j,
    {
        keys.push(semver::parse(tags[j].0.as_str()));
        j = j + 1;
    }
    let mut order: Vec<usize> = Vec::new();
    let mut i: usize = 0;
    while i < n
        invariant
            i <= n,
            n == tags@.len(),
            kv.len() == n,
            keys@.len() == n,
            forall|m: int| 0 <= m < n ==> key_of(#[trigger] keys@[m]) == kv[m],
            order@.len() == i,
            sorted_positions(kv, positions(order@), i as int),
            forall|m: int| 0 <= m < order@.len() ==> #[trigger] order@[m] < i,
        decreases n - i,
    {
        let mut p = order.len();
        while p > 0 && order_keys(&keys[order[p - 1]], &keys[i]) > 0
            invariant
                p <= order@.len(),
                order@.len() == i,
                i < n,
                keys@.len() == n,
                kv.len() == n,
                sorted_positions(kv, positions(order@), i as int),
                forall|m: int| 0 <= m < order@.len() ==> #[trigger] order@[m] < i,
                forall|m: int| 0 <= m < n ==> key_of(#[trigger] keys@[m]) == kv[m],
                forall|q: int|
                    p <= q < order@.len() ==> key_order(kv[#[trigger] order@[q] as int], kv[i as int])
                        > 0,
            decreases p,
        {
            p = p - 1;
        }
        proof {
            assert forall|q: int| p <= q < order@.len() implies key_order(
                kv[#[trigger] positions(order@)[q]],
                kv[i as int],
            ) > 0 by {
                assert(positions(order@)[q] == order@[q] as int);
            }
            lemma_insert_sorted(kv, positions(order@), p as int, i as int);
        }
        let ghost before = positions(order@);
        order.insert(p, i);
        assert(positions(order@) =~= before.insert(p as int, i as int));
        assert forall|m: int| 0 <= m < order@.len() implies #[trigger] order@[m] < i + 1 by {
            assert(positions(order@)[m] == order@[m] as int);
        }
        i = i + 1;
    }
    let mut out: Vec<(String, String)> = Vec::new();
    let mut k: usize = 0;
    while k < n
        invariant
            k <= n,
            n == tags@.len(),
            tv == pairs_view(tags@),
            order@.len() == n,
            sorted_positions(kv, positions(order@), n as int),
            forall|m: int| 0 <= m < order@.len() ==> #[trigger] order@[m] < n,
            out@.len() == k,
            forall|m: int| 0 <= m < k ==> pair_view(#[trigger] out@[m]) == tv[order@[m] as int],
        decreases n - k,
    {
        let t = &tags[order[k]];
        out.push((t.0.clone(), t.1.clone()));
        k = k + 1;
    }
    let ghost perm = positions(order@);
    assert(stably_sorted(tv, pairs_view(out@), perm));
    proof {
        lemma_newest_first(tv);
        let p2 = choose|p2: Seq<int>| stably_sorted(tv, newest_first(tv), p2);
        lemma_stable_order_is_unique(tv, pairs_view(out@), perm, newest_first(tv), p2);
    }
    out
}

/// The fixed start of a scaffold: title, preamble and `[Unreleased]`.
pub open spec fn head_lines() -> Seq<Seq<char>> {
    seq![
        "# Changelog"@,
        Seq::empty(),
        "All notable changes to this project will be documented in this file."@,
        Seq::empty(),
        "The format is based on [Keep a Changelog](https://keepachangelog.com/en/1.1.0/),"@,
        "and this project adheres to [Semantic Versioning](https://semver.org/spec/v2.0.0.html)."@,
        Seq::empty(),
        "## [Unreleased]"@,
        Seq::empty(),
    ]
}

/// The heading of the section of one (tag, date) pair.
pub open spec fn section_heading(t: (Seq<char>, Seq<char>)) -> Seq<char> {
    "## ["@ + t.0 + "] - "@ + t.1
}

/// The section stub of one tag: its heading and an empty `### Changed`.
pub open spec fn section_lines(t: (Seq<char>, Seq<char>)) -> Seq<Seq<char>> {
    seq![section_heading(t), Seq::empty(), "### Changed"@, "- "@, Seq::empty()]
}

/// The section stubs of `tags`, in order.
pub open spec fn sections_lines(tags: Seq<(Seq<char>, Seq<char>)>) -> Seq<Seq<char>>
    decreases tags.len(),
{
    if tags.len() == 0 {
        Seq::empty()
    } else {
        sections_lines(tags.drop_last()) + section_lines(tags.last())
    }
}

/// The lines of the scaffold of `tags` taken in the order given.
pub open spec fn scaffold_lines(tags: Seq<(Seq<char>, Seq<char>)>) -> Seq<Seq<char>> {
    head_lines() + sections_lines(tags)
}

/// A Keep a Changelog skeleton: the fixed head, then one empty
/// `### Changed` stub per tag, in the order `sort_tags_newest_first`
/// gives; every line ends in `\n`.
pub fn scaffold(tags: &[(String, String)]) -> (out: String)
    ensures
        out@ == joined(scaffold_lines(newest_first(pairs_view(tags@)))),
{
    let sorted = sort_tags_newest_first(tags);
    let ghost sv = pairs_view(sorted@);
    let mut out = String::new();
    let ghost mut ls: Seq<Seq<char>> = Seq::empty();
    proof {
        reveal_strlit("");
    }
    assert(""@ =~= Seq::<char>::empty());
    push_line(&mut out, "# Changelog");
    proof { lemma_joined_push(ls, "# Changelog"@); ls = ls.push("# Changelog"@); }
    push_line(&mut out, "");
    proof { lemma_joined_push(ls, ""@); ls = ls.push(""@); }
    push_line(&mut out, "All notable changes to this project will be documented in this file.");
    proof {
        lemma_joined_push(ls, "All notable changes to this project will be documented in this file."@);
        ls = ls.push("All notable changes to this project will be documented in this file."@);
    }
    push_line(&mut out, "");
    proof { lemma_joined_push(ls, ""@); ls = ls.push(""@); }
    push_line(
        &mut out,
        "The format is based on [Keep a Changelog](https://keepachangelog.com/en/1.1.0/),",
    );
    proof {
        lemma_joined_push(ls, "The format is based on [Keep a Changelog](https://keepachangelog.com/en/1.1.0/),"@);
        ls = ls.push("The format is based on [Keep a Changelog](https://keepachangelog.com/en/1.1.0/),"@);
    }
    push_line(
        &mut out,
        "and this project adheres to [Semantic Versioning](https://semver.org/spec/v2.0.0.html).",
    );
    proof {
        lemma_joined_push(ls, "and this project adheres to [Semantic Versioning](https://semver.org/spec/v2.0.0.html)."@);
        ls = ls.push("and this project adheres to [Semantic Versioning](https://semver.org/spec/v2.0.0.html)."@);
    }
    push_line(&mut out, "");
    proof { lemma_joined_push(ls, ""@); ls = ls.push(""@); }
    push_line(&mut out, "## [Unreleased]");
    proof { lemma_joined_push(ls, "## [Unreleased]"@); ls = ls.push("## [Unreleased]"@); }
    push_line(&mut out, "");
    proof { lemma_joined_push(ls, ""@); ls = ls.push(""@); }
    assert(ls =~= head_lines());
    let mut k: usize = 0;
    assert(sv.take(0) =~= Seq::<(Seq<char>, Seq<char>)>::empty());
    assert(ls =~= scaffold_lines(sv.take(0)));
    while k < sorted.len()
        invariant
            k <= sorted.len(),
            sv == pairs_view(sorted@),
            ls == scaffold_lines(sv.take(k as int)),
            out@ == joined(ls),
        decreases sorted.len() - k,
    {
        proof {
            reveal_strlit("");
        }
        assert(""@ =~= Seq::<char>::empty());
        let ghost before = ls;
        let mut heading = String::from_str("## [");
        heading.append(sorted[k].0.as_str());
        heading.append("] - ");
        heading.append(sorted[k].1.as_str());
        assert(heading@ == section_heading(sv[k as int]));
        push_line(&mut out, heading.as_str());
        proof { lemma_joined_push(ls, heading@); ls = ls.push(heading@); }
        push_line(&mut out, "");
        proof { lemma_joined_push(ls, ""@); ls = ls.push(""@); }
        push_line(&mut out, "### Changed");
        proof { lemma_joined_push(ls, "### Changed"@); ls = ls.push("### Changed"@); }
        push_line(&mut out, "- ");
        proof { lemma_joined_push(ls, "- "@); ls = ls.push("- "@); }
        push_line(&mut out, "");
        proof { lemma_joined_push(ls, ""@); ls = ls.push(""@); }
        assert(sv.take(k + 1).drop_last() =~= sv.take(k as int));
        assert(sv.take(k + 1).last() == sv[k as int]);
        assert(section_lines(sv[k as int]) =~= seq![heading@, ""@, "### Changed"@, "- "@, ""@]);
        assert(sections_lines(sv.take(k + 1)) =~= sections_lines(sv.take(k as int)) + section_lines(sv[k as int]));
        assert(ls =~= before + section_lines(sv[k as int]));
        assert(ls =~= scaffold_lines(sv.take(k + 1)));
        k = k + 1;
    }
    assert(sv.take(sorted.len() as int) =~= sv);
    out
}

/// Nothing is dropped: every input position is used by the permutation,
/// so every input tag appears in the sorted output.
pub proof fn lemma_sorted_keeps_every_tag(
    tags: Seq<(Seq<char>, Seq<char>)>,
    out: Seq<(Seq<char>, Seq<char>)>,
    perm: Seq<int>,
    i: int,
) -> (k: int)
    requires
        stably_sorted(tags, out, perm),
        0 <= i < tags.len(),
    ensures
        0 <= k < out.len(),
        perm[k] == i,
        out[k] == tags[i],
{
    let k = lemma_position_reached(perm, tags.len() as int, i);
    assert(0 <= perm[k] < tags.len() && out[k] == tags[perm[k]]);
    k
}

/// Newest first: a tag that names a version never follows one that does
/// not, and of two versions the earlier one never has lower precedence.
pub proof fn lemma_sorted_newest_first(
    tags: Seq<(Seq<char>, Seq<char>)>,
    out: Seq<(Seq<char>, Seq<char>)>,
    perm: Seq<int>,
    k: int,
    l: int,
)
    requires
        stably_sorted(tags, out, perm),
        0 <= k < l < out.len(),
        tag_key(out[l]) is Some,
    ensures
        tag_key(out[k]) is Some,
        precedence(tag_key(out[l])->0, tag_key(out[k])->0) <= 0,
{
    let keys = tags.map_values(|t: (Seq<char>, Seq<char>)| tag_key(t));
    assert(in_order(keys, perm[k], perm[l]));
    assert(keys[perm[k]] == tag_key(out[k]));
    assert(keys[perm[l]] == tag_key(out[l]));
}

/// Sorting twice changes nothing: the newest-first order of a
/// newest-first list is that list.
pub proof fn lemma_sort_is_idempotent(tags: Seq<(Seq<char>, Seq<char>)>)
    ensures
        newest_first(newest_first(tags)) == newest_first(tags),
{
    lemma_newest_first(tags);
    let once = newest_first(tags);
    let perm = choose|perm: Seq<int>| stably_sorted(tags, once, perm);
    let keys = tag_keys(tags);
    let okeys = tag_keys(once);
    let id = Seq::new(once.len(), |k: int| k);
    assert forall|k: int, l: int| 0 <= k < l < id.len() implies in_order(okeys, id[k], id[l]) by {
        assert(in_order(keys, perm[k], perm[l]));
        assert(okeys[k] == keys[perm[k]]);
        assert(okeys[l] == keys[perm[l]]);
    }
    assert(once.map_values(|t: (Seq<char>, Seq<char>)| tag_key(t)) =~= okeys);
    assert(stably_sorted(once, once, id));
    lemma_newest_first(once);
    let p2 = choose|p2: Seq<int>| stably_sorted(once, newest_first(once), p2);
    lemma_stable_order_is_unique(once, once, id, newest_first(once), p2);
}

/// `p` is `tags` rearranged by the permutation `sigma`.
pub open spec fn rearranged(
    tags: Seq<(Seq<char>, Seq<char>)>,
    p: Seq<(Seq<char>, Seq<char>)>,
    sigma: Seq<int>,
) -> bool {
    &&& sigma.len() == tags.len()
    &&& p.len() == tags.len()
    &&& forall|k: int| 0 <= k < sigma.len() ==> 0 <= #[trigger] sigma[k] < tags.len() && p[k] == tags[sigma[k]]
    &&& forall|k: int, l: int| 0 <= k < l < sigma.len() ==> #[trigger] sigma[k] != #[trigger] sigma[l]
}

/// A permutation of `0..n` reaches every position.
proof fn lemma_position_reached(sigma: Seq<int>, n: int, i: int) -> (j: int)
    requires
        sigma.len() == n,
        forall|k: int| 0 <= k < n ==> 0 <= #[trigger] sigma[k] < n,
        forall|k: int, l: int| 0 <= k < l < n ==> #[trigger] sigma[k] != #[trigger] sigma[l],
        0 <= i < n,
    ensures
        0 <= j < n,
        sigma[j] == i,
{
    assert(sigma.no_duplicates()) by {
        assert forall|a: int, b: int|
            0 <= a < sigma.len() && 0 <= b < sigma.len() && a != b implies sigma[a] != sigma[b] by {
            if a < b {
                assert(sigma[a] != sigma[b]);
            } else {
                assert(sigma[b] != sigma[a]);
            }
        }
    }
    sigma.unique_seq_to_set();
    vstd::set_lib::lemma_int_range(0, n);
    let range = vstd::set_lib::set_int_range(0, n);
    assert(sigma.to_set().subset_of(range)) by {
        assert forall|x: int| sigma.to_set().contains(x) implies range.contains(x) by {
            let k = choose|k: int| 0 <= k < sigma.len() && sigma[k] == x;
            assert(0 <= sigma[k] < n);
        }
    }
    vstd::set_lib::lemma_subset_equality(sigma.to_set(), range);
    assert(range.contains(i));
    assert(sigma.to_set().contains(i));
    choose|j: int| 0 <= j < sigma.len() && sigma[j] == i
}

/// Tags that all name versions, no two the same version.
pub open spec fn distinct_versions(tags: Seq<(Seq<char>, Seq<char>)>) -> bool {
    &&& forall|k: int| 0 <= k < tags.len() ==> tag_key(#[trigger] tags[k]) is Some
    &&& forall|k: int, l: int|
        0 <= k < l < tags.len() ==> tag_key(#[trigger] tags[k]) != tag_key(#[trigger] tags[l])
}

/// When every tag names its own version, the newest-first order, and so
/// the scaffold, does not depend on the order the tags come in.
pub proof fn lemma_order_of_distinct_versions_is_fixed(
    tags: Seq<(Seq<char>, Seq<char>)>,
    p: Seq<(Seq<char>, Seq<char>)>,
    sigma: Seq<int>,
)
    requires
        distinct_versions(tags),
        rearranged(tags, p, sigma),
    ensures
        newest_first(p) == newest_first(tags),
        scaffold_lines(newest_first(p)) == scaffold_lines(newest_first(tags)),
{
    lemma_newest_first(tags);
    let out = newest_first(tags);
    let perm = choose|perm: Seq<int>| stably_sorted(tags, out, perm);
    let n = tags.len();
    let keys = tag_keys(tags);
    let pkeys = tag_keys(p);
    let rho = Seq::new(n, |k: int| choose|j: int| 0 <= j < n && #[trigger] sigma[j] == perm[k]);
    assert forall|k: int| 0 <= k < n implies 0 <= #[trigger] rho[k] < n && sigma[rho[k]] == perm[k] by {
        assert(0 <= perm[k] < n);
        let j = lemma_position_reached(sigma, n as int, perm[k]);
        assert(0 <= j < n && sigma[j] == perm[k]);
    }
    assert forall|k: int| 0 <= k < n implies out[k] == p[#[trigger] rho[k]] by {
        assert(sigma[rho[k]] == perm[k]);
    }
    assert forall|k: int, l: int| 0 <= k < l < n implies #[trigger] rho[k] != #[trigger] rho[l] by {
        assert(perm[k] != perm[l]);
        assert(sigma[rho[k]] == perm[k]);
        assert(sigma[rho[l]] == perm[l]);
    }
    assert forall|k: int, l: int| #![trigger rho[k], rho[l]] 0 <= k < l < n implies in_order(pkeys, rho[k], rho[l]) by {
        assert(in_order(keys, perm[k], perm[l]));
        assert(sigma[rho[k]] == perm[k]);
        assert(sigma[rho[l]] == perm[l]);
        assert(pkeys[rho[k]] == keys[perm[k]]);
        assert(pkeys[rho[l]] == keys[perm[l]]);
        assert(perm[k] != perm[l]);
        if perm[k] < perm[l] {
            assert(tag_key(tags[perm[k]]) != tag_key(tags[perm[l]]));
        } else {
            assert(tag_key(tags[perm[l]]) != tag_key(tags[perm[k]]));
        }
        lemma_key_order_antisymmetric(keys[perm[k]], keys[perm[l]]);
    }
    assert(p.map_values(|t: (Seq<char>, Seq<char>)| tag_key(t)) =~= pkeys);
    assert(stably_sorted(p, out, rho));
    lemma_newest_first(p);
    let p2 = choose|p2: Seq<int>| stably_sorted(p, newest_first(p), p2);
    lemma_stable_order_is_unique(p, out, rho, newest_first(p), p2);
}

} // verus!
