//! Text primitives shared by the matcher, the grouper and the reader:
//! substring tests, the ordering of strings and sorted, duplicate-free
//! lists of strings.
use vstd::prelude::*;

verus! {

/// `needle` occurs somewhere in `hay` as a contiguous block.
pub open spec fn is_substring(needle: Seq<char>, hay: Seq<char>) -> bool {
    exists|i: int|
        0 <= i && i + needle.len() <= hay.len() && #[trigger] hay.subrange(i, i + needle.len())
            == needle
}

/// Lexicographic order on character sequences, characters compared by code point.
pub open spec fn char_seq_lt(a: Seq<char>, b: Seq<char>) -> bool
    decreases a.len(),
{
    if a.len() == 0 {
        b.len() > 0
    } else if b.len() == 0 {
        false
    } else if a[0] != b[0] {
        (a[0] as int) < (b[0] as int)
    } else {
        char_seq_lt(a.drop_first(), b.drop_first())
    }
}

/// The views of a sequence of strings.
pub open spec fn strs_view(v: Seq<String>) -> Seq<Seq<char>> {
    v.map_values(|s: String| s@)
}

/// Every element is strictly below the next ones: sorted, no element twice.
pub open spec fn strictly_sorted(s: Seq<Seq<char>>) -> bool {
    forall|i: int, j: int| 0 <= i < j < s.len() ==> char_seq_lt(#[trigger] s[i], #[trigger] s[j])
}

pub proof fn lemma_lt_irreflexive(a: Seq<char>)
    ensures
        !char_seq_lt(a, a),
    decreases a.len(),
{
    if a.len() > 0 {
        lemma_lt_irreflexive(a.drop_first());
    }
}

pub proof fn lemma_lt_transitive(a: Seq<char>, b: Seq<char>, c: Seq<char>)
    requires
        char_seq_lt(a, b),
        char_seq_lt(b, c),
    ensures
        char_seq_lt(a, c),
    decreases a.len(),
{
    if a.len() > 0 && b.len() > 0 && c.len() > 0 {
        if a[0] == b[0] && b[0] == c[0] {
            lemma_lt_transitive(a.drop_first(), b.drop_first(), c.drop_first());
        }
    }
}

pub proof fn lemma_lt_total(a: Seq<char>, b: Seq<char>)
    requires
        a != b,
    ensures
        char_seq_lt(a, b) || char_seq_lt(b, a),
    decreases a.len(),
{
    if a.len() > 0 && b.len() > 0 && a[0] == b[0] {
        if a.drop_first() == b.drop_first() {
            assert(a =~= seq![a[0]] + a.drop_first());
            assert(b =~= seq![b[0]] + b.drop_first());
        }
        lemma_lt_total(a.drop_first(), b.drop_first());
    } else if a.len() > 0 && b.len() > 0 {
        assert(a[0] as int != b[0] as int);
    } else if a.len() == 0 && b.len() == 0 {
        assert(a =~= b);
    }
}

pub proof fn lemma_lt_asymmetric(a: Seq<char>, b: Seq<char>)
    requires
        char_seq_lt(a, b),
    ensures
        !char_seq_lt(b, a),
{
    if char_seq_lt(b, a) {
        lemma_lt_transitive(a, b, a);
        lemma_lt_irreflexive(a);
    }
}

/// Whether `hay` contains `needle` (`str::contains` with a string pattern).
#[verifier::external_body]
pub(crate) fn str_contains(hay: &str, needle: &str) -> (found: bool)
    ensures
        found == is_substring(needle@, hay@),
{
    hay.contains(needle)
}

/// `s` ends with `suffix`.
pub open spec fn ends_with(s: Seq<char>, suffix: Seq<char>) -> bool {
    suffix.len() <= s.len() && s.subrange(s.len() - suffix.len(), s.len() as int) == suffix
}

/// Whether `s` ends with `suffix` (`str::ends_with` with a string pattern).
#[verifier::external_body]
pub(crate) fn str_ends_with(s: &str, suffix: &str) -> (b: bool)
    ensures
        b == ends_with(s@, suffix@),
{
    s.ends_with(suffix)
}

/// Whether `a` orders strictly before `b` (`PartialOrd::lt` of `str`).
#[verifier::external_body]
pub(crate) fn str_lt(a: &str, b: &str) -> (less: bool)
    ensures
        less == char_seq_lt(a@, b@),
{
    a < b
}

/// Whether two strings are equal (`PartialEq::eq` of `str`).
#[verifier::external_body]
pub(crate) fn str_eq(a: &str, b: &str) -> (same: bool)
    ensures
        same == (a@ == b@),
{
    a == b
}

/// Inserts `s` at its place in a strictly sorted list, unless it is already there.
pub fn insert_sorted_unique(v: &mut Vec<String>, s: String)
    requires
        strictly_sorted(strs_view(old(v)@)),
    ensures
        strictly_sorted(strs_view(final(v)@)),
        strs_view(final(v)@).to_set() == strs_view(old(v)@).to_set().insert(s@),
{
    let ghost old_v = strs_view(v@);
    let mut i: usize = 0;
    while i < v.len() && str_lt(v[i].as_str(), s.as_str())
        invariant
            0 <= i <= v.len(),
            strs_view(v@) == old_v,
            strictly_sorted(old_v),
            forall|k: int| 0 <= k < i ==> char_seq_lt(#[trigger] old_v[k], s@),
        decreases v.len() - i,
    {
        i = i + 1;
    }
    if i < v.len() && v[i] == s {
        assert(strs_view(v@).to_set() =~= old_v.to_set().insert(s@)) by {
            assert(old_v[i as int] == s@);
        }
        return;
    }
    proof {
        if i < v.len() {
            assert(!char_seq_lt(old_v[i as int], s@));
            assert(old_v[i as int] != s@);
            lemma_lt_total(old_v[i as int], s@);
        }
    }
    let ghost sv = s@;
    v.insert(i, s);
    let ghost new_v = strs_view(v@);
    assert(new_v =~= old_v.insert(i as int, sv));
    assert forall|a: int, b: int| 0 <= a < b < new_v.len() implies char_seq_lt(
        #[trigger] new_v[a],
        #[trigger] new_v[b],
    ) by {
        if b < i {
            assert(new_v[a] == old_v[a] && new_v[b] == old_v[b]);
        } else if a < i && b == i {
            assert(new_v[a] == old_v[a] && new_v[b] == sv);
        } else if a < i && b > i {
            assert(new_v[a] == old_v[a] && new_v[b] == old_v[b - 1]);
        } else if a == i {
            assert(new_v[a] == sv && new_v[b] == old_v[b - 1]);
            if b - 1 > i {
                lemma_lt_transitive(sv, old_v[i as int], old_v[b - 1]);
            }
        } else {
            assert(new_v[a] == old_v[a - 1] && new_v[b] == old_v[b - 1]);
        }
    }
    assert(new_v.to_set() =~= old_v.to_set().insert(sv)) by {
        assert forall|x: Seq<char>| new_v.to_set().contains(x) implies old_v.to_set().insert(
            sv,
        ).contains(x) by {
            let k = choose|k: int| 0 <= k < new_v.len() && new_v[k] == x;
            if k < i {
                assert(old_v[k] == x);
            } else if k > i {
                assert(old_v[k - 1] == x);
            }
        }
        assert forall|x: Seq<char>| old_v.to_set().insert(sv).contains(x) implies new_v.to_set().contains(
            x,
        ) by {
            if x == sv {
                assert(new_v[i as int] == x);
            } else {
                let k = choose|k: int| 0 <= k < old_v.len() && old_v[k] == x;
                if k < i {
                    assert(new_v[k] == x);
                } else {
                    assert(new_v[k + 1] == x);
                }
            }
        }
    }
}

/// The strings of `v`, sorted and with each one kept once.
pub fn sorted_unique(v: Vec<String>) -> (out: Vec<String>)
    ensures
        strictly_sorted(strs_view(out@)),
        strs_view(out@).to_set() == strs_view(v@).to_set(),
{
    let mut out: Vec<String> = Vec::new();
    let mut rest = v;
    let ghost all = strs_view(rest@);
    // consume from the back so that no element is cloned
    while rest.len() > 0
        invariant
            strictly_sorted(strs_view(out@)),
            strs_view(rest@) == all.take(rest@.len() as int),
            rest@.len() <= all.len(),
            strs_view(out@).to_set() == all.skip(rest@.len() as int).to_set(),
        decreases rest.len(),
    {
        let ghost before = strs_view(rest@);
        let s = rest.pop().unwrap();
        let ghost k = rest@.len() as int;
        proof {
            assert(before[k] == s@);
            assert(all[k] == s@);
            let cur = all.skip(k);
            let tail = all.skip(k + 1);
            assert(cur =~= seq![s@] + tail);
            assert(cur.to_set() =~= tail.to_set().insert(s@)) by {
                assert forall|x: Seq<char>| cur.to_set().contains(x) implies tail.to_set().insert(
                    s@,
                ).contains(x) by {
                    let j = choose|j: int| 0 <= j < cur.len() && cur[j] == x;
                    if j > 0 {
                        assert(tail[j - 1] == x);
                    }
                }
                assert forall|x: Seq<char>| tail.to_set().insert(s@).contains(x) implies cur.to_set().contains(
                    x,
                ) by {
                    if x == s@ {
                        assert(cur[0] == x);
                    } else {
                        let j = choose|j: int| 0 <= j < tail.len() && tail[j] == x;
                        assert(cur[j + 1] == x);
                    }
                }
            }
            assert(strs_view(rest@) =~= all.take(k));
        }
        insert_sorted_unique(&mut out, s);
    }
    assert(all.skip(0) =~= all);
    out
}

/// A strictly sorted sequence has no element twice.
pub proof fn lemma_strictly_sorted_no_duplicates(s: Seq<Seq<char>>)
    requires
        strictly_sorted(s),
    ensures
        s.no_duplicates(),
{
    assert forall|i: int, j: int| 0 <= i < s.len() && 0 <= j < s.len() && i != j implies s[i]
        != s[j] by {
        if i < j {
            assert(char_seq_lt(s[i], s[j]));
            if s[i] == s[j] {
                lemma_lt_irreflexive(s[i]);
            }
        } else {
            assert(char_seq_lt(s[j], s[i]));
            if s[i] == s[j] {
                lemma_lt_irreflexive(s[i]);
            }
        }
    }
}

/// Two strictly sorted sequences with the same elements are equal: a set has
/// one sorted listing.
pub proof fn lemma_strictly_sorted_unique(a: Seq<Seq<char>>, b: Seq<Seq<char>>)
    requires
        strictly_sorted(a),
        strictly_sorted(b),
        a.to_set() == b.to_set(),
    ensures
        a == b,
{
    lemma_strictly_sorted_no_duplicates(a);
    lemma_strictly_sorted_no_duplicates(b);
    a.unique_seq_to_set();
    b.unique_seq_to_set();
    if a.len() > 0 {
        lemma_sorted_prefix_equal(a, b, a.len() - 1);
    }
    assert(a =~= b);
}

proof fn lemma_sorted_one_side(a: Seq<Seq<char>>, b: Seq<Seq<char>>, k: int)
    requires
        strictly_sorted(a),
        strictly_sorted(b),
        a.no_duplicates(),
        a.to_set() == b.to_set(),
        0 <= k < a.len(),
        a.len() == b.len(),
        forall|e: int| 0 <= e < k ==> a[e] == b[e],
    ensures
        !char_seq_lt(a[k], b[k]),
{
    if !char_seq_lt(a[k], b[k]) {
        return;
    }
    assert(a.to_set().contains(a[k]));
    assert(b.to_set().contains(a[k]));
    let m = choose|m: int| 0 <= m < b.len() && b[m] == a[k];
    if m < k {
        assert(a[m] == a[k]);
    } else if m == k {
        lemma_lt_irreflexive(a[k]);
    } else {
        assert(char_seq_lt(b[k], b[m]));
        lemma_lt_asymmetric(a[k], b[k]);
    }
}

proof fn lemma_sorted_prefix_equal(a: Seq<Seq<char>>, b: Seq<Seq<char>>, k: int)
    requires
        strictly_sorted(a),
        strictly_sorted(b),
        a.no_duplicates(),
        b.no_duplicates(),
        a.to_set() == b.to_set(),
        a.len() == b.len(),
        0 <= k < a.len(),
    ensures
        forall|e: int| 0 <= e <= k ==> a[e] == b[e],
    decreases k,
{
    if k > 0 {
        lemma_sorted_prefix_equal(a, b, k - 1);
    }
    if a[k] != b[k] {
        lemma_lt_total(a[k], b[k]);
        lemma_sorted_one_side(a, b, k);
        lemma_sorted_one_side(b, a, k);
    }
}

} // verus!
