//! Small text builders for reports: decimal numbers, repeated characters, and
//! the sorted listing of a set of strings.
use vstd::prelude::*;
use crate::text::{char_seq_lt, strictly_sorted, lemma_strictly_sorted_unique, lemma_lt_total, lemma_lt_transitive};

verus! {

/// `String::push`. Claims: the character is appended.
#[verifier::external_body]
pub(crate) fn string_push(s: &mut String, c: char)
    ensures
        final(s)@ == old(s)@.push(c),
{
    s.push(c);
}

/// The character of a decimal digit.
pub open spec fn digit(d: nat) -> char {
    if d == 0 {
        '0'
    } else if d == 1 {
        '1'
    } else if d == 2 {
        '2'
    } else if d == 3 {
        '3'
    } else if d == 4 {
        '4'
    } else if d == 5 {
        '5'
    } else if d == 6 {
        '6'
    } else if d == 7 {
        '7'
    } else if d == 8 {
        '8'
    } else {
        '9'
    }
}

/// The decimal text of a number, without leading zeros.
pub open spec fn decimal(n: nat) -> Seq<char>
    decreases n,
{
    if n < 10 {
        seq![digit(n)]
    } else {
        decimal(n / 10).push(digit(n % 10))
    }
}

/// `n` copies of `c`.
pub open spec fn repeat(c: char, n: nat) -> Seq<char> {
    Seq::new(n, |i: int| c)
}

/// The strictly sorted listing of a set of strings.
pub open spec fn sorted_listing(s: Set<Seq<char>>) -> Seq<Seq<char>> {
    choose|l: Seq<Seq<char>>| strictly_sorted(l) && l.to_set() == s
}

/// A strictly sorted sequence is the sorted listing of its elements.
pub proof fn lemma_sorted_listing(l: Seq<Seq<char>>)
    requires
        strictly_sorted(l),
    ensures
        sorted_listing(l.to_set()) == l,
{
    let c = sorted_listing(l.to_set());
    assert(strictly_sorted(c) && c.to_set() == l.to_set());
    lemma_strictly_sorted_unique(c, l);
}

/// `l` with `x` put at its place in the order, unless it is already there.
pub open spec fn insert_sorted(l: Seq<Seq<char>>, x: Seq<char>) -> Seq<Seq<char>>
    decreases l.len(),
{
    if l.len() == 0 {
        seq![x]
    } else if char_seq_lt(x, l[0]) {
        seq![x] + l
    } else if x == l[0] {
        l
    } else {
        seq![l[0]] + insert_sorted(l.drop_first(), x)
    }
}

proof fn lemma_insert_sorted(l: Seq<Seq<char>>, x: Seq<char>)
    requires
        strictly_sorted(l),
    ensures
        strictly_sorted(insert_sorted(l, x)),
        insert_sorted(l, x).to_set() == l.to_set().insert(x),
    decreases l.len(),
{
    if l.len() == 0 {
        assert(seq![x].to_set() =~= l.to_set().insert(x)) by {
            assert(seq![x][0] == x);
        }
    } else if char_seq_lt(x, l[0]) {
        let r = seq![x] + l;
        assert forall|i: int, j: int| 0 <= i < j < r.len() implies char_seq_lt(#[trigger] r[i], #[trigger] r[j]) by {
            if i == 0 {
                assert(r[j] == l[j - 1]);
                if j > 1 {
                    lemma_lt_transitive(x, l[0], l[j - 1]);
                }
            } else {
                assert(r[i] == l[i - 1] && r[j] == l[j - 1]);
            }
        }
        assert forall|y: Seq<char>| r.to_set().contains(y) <==> l.to_set().insert(x).contains(y) by {
            if r.to_set().contains(y) {
                let k = choose|k: int| 0 <= k < r.len() && r[k] == y;
                if k > 0 {
                    assert(l[k - 1] == y);
                }
            }
            if l.to_set().insert(x).contains(y) {
                if y == x {
                    assert(r[0] == y);
                } else {
                    let k = choose|k: int| 0 <= k < l.len() && l[k] == y;
                    assert(r[k + 1] == y);
                }
            }
        }
        assert(r.to_set() =~= l.to_set().insert(x));
    } else if x == l[0] {
        assert(l.to_set().contains(x));
        assert(l.to_set().insert(x) =~= l.to_set());
    } else {
        lemma_lt_total(x, l[0]);
        let t = l.drop_first();
        assert forall|i: int, j: int| 0 <= i < j < t.len() implies char_seq_lt(#[trigger] t[i], #[trigger] t[j]) by {
            assert(t[i] == l[i + 1] && t[j] == l[j + 1]);
        }
        lemma_insert_sorted(t, x);
        let rest = insert_sorted(t, x);
        let r = seq![l[0]] + rest;
        assert forall|i: int, j: int| 0 <= i < j < r.len() implies char_seq_lt(#[trigger] r[i], #[trigger] r[j]) by {
            if i == 0 {
                assert(r[j] == rest[j - 1]);
                assert(rest.to_set().contains(rest[j - 1]));
                if rest[j - 1] != x {
                    let k = choose|k: int| 0 <= k < t.len() && t[k] == rest[j - 1];
                    assert(l[k + 1] == rest[j - 1]);
                }
            } else {
                assert(r[i] == rest[i - 1] && r[j] == rest[j - 1]);
            }
        }
        assert forall|y: Seq<char>| r.to_set().contains(y) <==> l.to_set().insert(x).contains(y) by {
            if r.to_set().contains(y) {
                let k = choose|k: int| 0 <= k < r.len() && r[k] == y;
                if k > 0 {
                    assert(rest[k - 1] == y);
                    assert(rest.to_set().contains(y));
                    if y != x {
                        let m = choose|m: int| 0 <= m < t.len() && t[m] == y;
                        assert(l[m + 1] == y);
                    }
                } else {
                    assert(l[0] == y);
                }
            }
            if l.to_set().insert(x).contains(y) {
                if y == l[0] {
                    assert(r[0] == y);
                } else {
                    if y != x {
                        let m = choose|m: int| 0 <= m < l.len() && l[m] == y;
                        assert(m > 0);
                        assert(t[m - 1] == y);
                    }
                    assert(t.to_set().insert(x).contains(y));
                    assert(rest.to_set().contains(y));
                    let k = choose|k: int| 0 <= k < rest.len() && rest[k] == y;
                    assert(r[k + 1] == y);
                }
            }
        }
        assert(r.to_set() =~= l.to_set().insert(x));
    }
}

/// Every finite set of strings has a sorted listing.
pub proof fn lemma_sorted_listing_exists(s: Set<Seq<char>>)
    requires
        s.finite(),
    ensures
        strictly_sorted(sorted_listing(s)),
        sorted_listing(s).to_set() == s,
    decreases s.len(),
{
    if s.len() == 0 {
        let l = Seq::<Seq<char>>::empty();
        assert(s =~= Set::<Seq<char>>::empty()) by {
            if exists|y: Seq<char>| s.contains(y) {
                let y = choose|y: Seq<char>| s.contains(y);
                assert(s.remove(y).len() + 1 == s.len());
            }
        }
        assert(l.to_set() =~= s);
        assert(strictly_sorted(l) && l.to_set() == s);
    } else {
        let x = s.choose();
        assert(s.contains(x));
        lemma_sorted_listing_exists(s.remove(x));
        let l = sorted_listing(s.remove(x));
        lemma_insert_sorted(l, x);
        let r = insert_sorted(l, x);
        assert(s.remove(x).insert(x) =~= s);
        assert(strictly_sorted(r) && r.to_set() == s);
    }
}

fn digit_char(d: usize) -> (c: char)
    requires
        d < 10,
    ensures
        c == digit(d as nat),
{
    if d == 0 {
        '0'
    } else if d == 1 {
        '1'
    } else if d == 2 {
        '2'
    } else if d == 3 {
        '3'
    } else if d == 4 {
        '4'
    } else if d == 5 {
        '5'
    } else if d == 6 {
        '6'
    } else if d == 7 {
        '7'
    } else if d == 8 {
        '8'
    } else {
        '9'
    }
}

/// Appends the decimal text of `n`.
pub fn push_decimal(s: &mut String, n: usize)
    ensures
        final(s)@ == old(s)@ + decimal(n as nat),
    decreases n,
{
    if n >= 10 {
        push_decimal(s, n / 10);
    }
    string_push(s, digit_char(n % 10));
    proof {
        if n >= 10 {
            assert(old(s)@ + decimal(n as nat) =~= old(s)@ + decimal((n / 10) as nat) + seq![digit((n % 10) as nat)]);
        } else {
            assert(old(s)@ + decimal(n as nat) =~= old(s)@.push(digit((n % 10) as nat)));
        }
    }
}

/// Appends `n` copies of `c`.
pub fn push_repeat(s: &mut String, c: char, n: usize)
    ensures
        final(s)@ == old(s)@ + repeat(c, n as nat),
{
    let mut i: usize = 0;
    while i < n
        invariant
            0 <= i <= n,
            s@ == old(s)@ + repeat(c, i as nat),
        decreases n - i,
    {
        string_push(s, c);
        assert(old(s)@ + repeat(c, (i + 1) as nat) =~= (old(s)@ + repeat(c, i as nat)).push(c));
        i = i + 1;
    }
}

} // verus!
