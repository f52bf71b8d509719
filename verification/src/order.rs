//! A strict lexicographic order on strings, and sorted, duplicate-free
//! vectors of strings.
//!
//! Every list this crate returns is sorted in this order with duplicates
//! collapsed, so that logically identical inputs produce identical output
//! regardless of the order in which their elements were encountered.

use vstd::prelude::*;
use vstd::string::*;

verus! {

/// Strict lexicographic order on character sequences, comparing characters
/// by code point.
pub open spec fn lex_lt(a: Seq<char>, b: Seq<char>) -> bool
    decreases a.len(),
{
    if b.len() == 0 {
        false
    } else if a.len() == 0 {
        true
    } else if a[0] != b[0] {
        (a[0] as int) < (b[0] as int)
    } else {
        lex_lt(a.drop_first(), b.drop_first())
    }
}

pub proof fn lemma_lex_lt_irrefl(a: Seq<char>)
    ensures
        !lex_lt(a, a),
    decreases a.len(),
{
    if a.len() > 0 {
        lemma_lex_lt_irrefl(a.drop_first());
    }
}

/// The order is total: two sequences are ordered one way or the other, or
/// they are equal.
pub proof fn lemma_lex_lt_total(a: Seq<char>, b: Seq<char>)
    ensures
        lex_lt(a, b) || lex_lt(b, a) || a == b,
    decreases a.len(),
{
    if b.len() == 0 {
        if a.len() == 0 {
            assert(a =~= b);
        }
    } else if a.len() == 0 {
    } else if a[0] == b[0] {
        lemma_lex_lt_total(a.drop_first(), b.drop_first());
        if a.drop_first() == b.drop_first() {
            assert(a.drop_first().len() == a.len() - 1);
            assert(b.drop_first().len() == b.len() - 1);
            assert(a.len() == b.len());
            assert forall|i: int| 0 <= i < a.len() implies a[i] == b[i] by {
                if i > 0 {
                    assert(a[i] == a.drop_first()[i - 1]);
                    assert(b[i] == b.drop_first()[i - 1]);
                }
            }
            assert(a =~= b);
        }
    }
}

pub proof fn lemma_lex_lt_trans(a: Seq<char>, b: Seq<char>, c: Seq<char>)
    requires
        lex_lt(a, b),
        lex_lt(b, c),
    ensures
        lex_lt(a, c),
    decreases a.len(),
{
    if a.len() == 0 {
    } else if a[0] == b[0] && b[0] == c[0] {
        lemma_lex_lt_trans(a.drop_first(), b.drop_first(), c.drop_first());
    }
}

/// Decides the strict lexicographic order on the characters of two strings.
pub fn lex_lt_exec(a: &str, b: &str) -> (r: bool)
    ensures
        r == lex_lt(a@, b@),
{
    let alen = a.unicode_len();
    let blen = b.unicode_len();
    let mut i: usize = 0;
    proof {
        assert(a@.skip(0) =~= a@);
        assert(b@.skip(0) =~= b@);
    }
    while i < alen && i < blen
        invariant
            i <= alen,
            i <= blen,
            alen == a@.len(),
            blen == b@.len(),
            lex_lt(a@, b@) == lex_lt(a@.skip(i as int), b@.skip(i as int)),
        decreases alen - i,
    {
        let ac = a.get_char(i);
        let bc = b.get_char(i);
        proof {
            assert(a@.skip(i as int)[0] == a@[i as int]);
            assert(b@.skip(i as int)[0] == b@[i as int]);
        }
        if ac != bc {
            return (ac as u32) < (bc as u32);
        }
        proof {
            assert(a@.skip(i as int).drop_first() =~= a@.skip(i as int + 1));
            assert(b@.skip(i as int).drop_first() =~= b@.skip(i as int + 1));
        }
        i = i + 1;
    }
    proof {
        assert(a@.skip(i as int).len() == alen - i);
        assert(b@.skip(i as int).len() == blen - i);
    }
    alen < blen
}

/// The elements are strictly increasing: sorted, with no duplicates.
pub open spec fn sorted_strict(s: Seq<String>) -> bool {
    forall|i: int, j: int| 0 <= i < j < s.len() ==> lex_lt(#[trigger] s[i]@, #[trigger] s[j]@)
}

/// The set of character sequences held by a sequence of strings.
pub open spec fn view_set(s: Seq<String>) -> Set<Seq<char>> {
    Set::new(|x: Seq<char>| exists|i: int| 0 <= i < s.len() && #[trigger] s[i]@ == x)
}

/// Inserts a string into a strictly sorted vector, keeping it sorted and
/// dropping the insertion when an equal string is already present.
pub fn insert_sorted_dedup(v: &mut Vec<String>, x: String)
    requires
        sorted_strict(old(v)@),
    ensures
        sorted_strict(final(v)@),
        view_set(final(v)@) == view_set(old(v)@).insert(x@),
{
    let mut k: usize = 0;
    while k < v.len() && lex_lt_exec(v[k].as_str(), x.as_str())
        invariant
            k <= v.len(),
            v@ == old(v)@,
            forall|i: int| 0 <= i < k ==> lex_lt(#[trigger] v@[i]@, x@),
        decreases v.len() - k,
    {
        k = k + 1;
    }
    if k < v.len() {
        let dup = !lex_lt_exec(x.as_str(), v[k].as_str());
        if dup {
            proof {
                lemma_lex_lt_total(x@, v@[k as int]@);
                assert(v@[k as int]@ == x@);
                assert(view_set(v@).contains(x@));
                assert(view_set(v@).insert(x@) =~= view_set(v@));
            }
            return;
        }
    }
    proof {
        old(v)@.insert_ensures(k as int, x);
    }
    v.insert(k, x);
    proof {
        let s0 = old(v)@;
        let s1 = v@;
        let ki = k as int;
        assert forall|i: int, j: int| 0 <= i < j < s1.len() implies lex_lt(s1[i]@, s1[j]@) by {
            if j < ki {
                assert(s1[i] == s0[i]);
                assert(s1[j] == s0[j]);
            } else if i < ki && j == ki {
                assert(s1[i] == s0[i]);
            } else if i < ki && j > ki {
                assert(s1[i] == s0[i]);
                assert(s1[j] == s0[j - 1]);
                if j - 1 == ki {
                    lemma_lex_lt_trans(s1[i]@, x@, s1[j]@);
                } else {
                    lemma_lex_lt_trans(s1[i]@, x@, s0[ki]@);
                    lemma_lex_lt_trans(s1[i]@, s0[ki]@, s1[j]@);
                }
            } else if i == ki {
                assert(s1[i]@ == x@);
                assert(s1[j] == s0[j - 1]);
                if j - 1 == ki {
                    assert(lex_lt(x@, s0[ki]@));
                } else {
                    lemma_lex_lt_trans(x@, s0[ki]@, s0[j - 1]@);
                }
            } else {
                assert(s1[i] == s0[i - 1]);
                assert(s1[j] == s0[j - 1]);
            }
        }
        assert forall|y: Seq<char>| view_set(s1).contains(y) implies view_set(s0).insert(
            x@,
        ).contains(y) by {
            let i = choose|i: int| 0 <= i < s1.len() && s1[i]@ == y;
            if i < ki {
                assert(s0[i]@ == y);
            } else if i == ki {
                assert(y == x@);
            } else {
                assert(s0[i - 1]@ == y);
            }
        }
        assert forall|y: Seq<char>| view_set(s0).insert(x@).contains(y) implies view_set(
            s1,
        ).contains(y) by {
            if y == x@ {
                assert(s1[ki]@ == y);
            } else {
                let i = choose|i: int| 0 <= i < s0.len() && s0[i]@ == y;
                if i < ki {
                    assert(s1[i]@ == y);
                } else {
                    assert(s1[i + 1]@ == y);
                }
            }
        }
        assert(view_set(s1) =~= view_set(s0).insert(x@));
    }
}

/// Collapses a vector of strings into its sorted, duplicate-free form: the
/// result holds exactly the set of strings of the input, in strictly
/// increasing order.
pub fn as_sorted_vec(v: Vec<String>) -> (r: Vec<String>)
    ensures
        sorted_strict(r@),
        view_set(r@) == view_set(v@),
{
    let mut r: Vec<String> = Vec::new();
    let mut i: usize = 0;
    proof {
        assert(view_set(r@) =~= view_set(v@.take(0)));
    }
    while i < v.len()
        invariant
            i <= v.len(),
            sorted_strict(r@),
            view_set(r@) == view_set(v@.take(i as int)),
        decreases v.len() - i,
    {
        let ghost pre = r@;
        let x = v[i].clone();
        insert_sorted_dedup(&mut r, x);
        proof {
            let t0 = v@.take(i as int);
            let t1 = v@.take(i as int + 1);
            assert forall|y: Seq<char>| view_set(t1).contains(y) implies view_set(t0).insert(
                v@[i as int]@,
            ).contains(y) by {
                let j = choose|j: int| 0 <= j < t1.len() && t1[j]@ == y;
                if j < i as int {
                    assert(t0[j]@ == y);
                } else {
                    assert(t1[j] == v@[i as int]);
                }
            }
            assert forall|y: Seq<char>| view_set(t0).insert(v@[i as int]@).contains(
                y,
            ) implies view_set(t1).contains(y) by {
                if y == v@[i as int]@ {
                    assert(t1[i as int]@ == y);
                } else {
                    let j = choose|j: int| 0 <= j < t0.len() && t0[j]@ == y;
                    assert(t1[j]@ == y);
                }
            }
            assert(view_set(t1) =~= view_set(t0).insert(v@[i as int]@));
        }
        i = i + 1;
    }
    proof {
        assert(v@.take(v@.len() as int) =~= v@);
    }
    r
}

/// A strictly sorted sequence is determined by the set of its elements: two
/// sorted, duplicate-free vectors holding the same strings hold them at the
/// same positions.
pub proof fn lemma_sorted_unique(a: Seq<String>, b: Seq<String>)
    requires
        sorted_strict(a),
        sorted_strict(b),
        view_set(a) == view_set(b),
    ensures
        a.len() == b.len(),
        forall|i: int| 0 <= i < a.len() ==> #[trigger] a[i]@ == b[i]@,
    decreases a.len(),
{
    if a.len() == 0 {
        if b.len() > 0 {
            assert(view_set(b).contains(b[0]@));
            assert(view_set(a).contains(b[0]@));
            assert(false);
        }
    } else {
        assert(view_set(a).contains(a[0]@));
        assert(view_set(b).contains(a[0]@));
        let j = choose|j: int| 0 <= j < b.len() && b[j]@ == a[0]@;
        assert(view_set(b).contains(b[0]@));
        assert(view_set(a).contains(b[0]@));
        let i = choose|i: int| 0 <= i < a.len() && a[i]@ == b[0]@;
        if j > 0 {
            assert(lex_lt(b[0]@, b[j]@));
            if i > 0 {
                assert(lex_lt(a[0]@, a[i]@));
                lemma_lex_lt_trans(b[0]@, a[0]@, a[i]@);
                lemma_lex_lt_irrefl(b[0]@);
            } else {
                lemma_lex_lt_irrefl(a[0]@);
            }
            assert(false);
        }
        assert(a[0]@ == b[0]@);
        let at = a.drop_first();
        let bt = b.drop_first();
        assert forall|y: Seq<char>| view_set(at).contains(y) implies view_set(bt).contains(y) by {
            lemma_tail_membership(a, b, y);
        }
        assert forall|y: Seq<char>| view_set(bt).contains(y) implies view_set(at).contains(y) by {
            lemma_tail_membership(b, a, y);
        }
        assert(view_set(at) =~= view_set(bt));
        lemma_sorted_unique(at, bt);
        assert forall|i2: int| 0 <= i2 < a.len() implies #[trigger] a[i2]@ == b[i2]@ by {
            if i2 > 0 {
                assert(at[i2 - 1]@ == bt[i2 - 1]@);
                assert(a[i2] == at[i2 - 1]);
                assert(b[i2] == bt[i2 - 1]);
            }
        }
    }
}

/// A member of the tail of one sorted sequence is a member of the tail of
/// the other, given equal element sets and equal, minimal first elements.
proof fn lemma_tail_membership(a: Seq<String>, b: Seq<String>, y: Seq<char>)
    requires
        sorted_strict(a),
        sorted_strict(b),
        view_set(a) == view_set(b),
        a.len() > 0,
        b.len() > 0,
        a[0]@ == b[0]@,
        view_set(a.drop_first()).contains(y),
    ensures
        view_set(b.drop_first()).contains(y),
{
    let at = a.drop_first();
    let i = choose|i: int| 0 <= i < at.len() && at[i]@ == y;
    assert(a[i + 1]@ == y);
    assert(lex_lt(a[0]@, a[i + 1]@));
    assert(view_set(a).contains(y));
    assert(view_set(b).contains(y));
    let j = choose|j: int| 0 <= j < b.len() && b[j]@ == y;
    if j == 0 {
        lemma_lex_lt_irrefl(a[0]@);
        assert(false);
    }
    assert(b.drop_first()[j - 1]@ == y);
}

} // verus!
