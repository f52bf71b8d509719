//! Character-level text operations: splitting on a separator, prefix tests,
//! repeated prefix stripping, and whitespace trimming.
//!
//! Each executable function is proved against a recursive specification
//! over the character sequence of its input; the parsers build on these
//! specifications alone.

use vstd::prelude::*;
use vstd::string::*;

verus! {

/// Index of the first occurrence of `c` in `s`, or `s.len()` when absent.
pub open spec fn first_occ(s: Seq<char>, c: char) -> int
    decreases s.len(),
{
    if s.len() == 0 {
        0
    } else if s[0] == c {
        0
    } else {
        1 + first_occ(s.drop_first(), c)
    }
}

pub proof fn lemma_first_occ(s: Seq<char>, c: char)
    ensures
        0 <= first_occ(s, c) <= s.len(),
        forall|k: int| 0 <= k < first_occ(s, c) ==> s[k] != c,
        first_occ(s, c) < s.len() ==> s[first_occ(s, c)] == c,
    decreases s.len(),
{
    if s.len() > 0 && s[0] != c {
        lemma_first_occ(s.drop_first(), c);
        let n = first_occ(s, c);
        assert forall|k: int| 0 <= k < n implies s[k] != c by {
            if k > 0 {
                assert(s[k] == s.drop_first()[k - 1]);
            }
        }
        if n < s.len() {
            assert(s[n] == s.drop_first()[n - 1]);
        }
    }
}

/// The index characterized by "no occurrence before it, an occurrence (or
/// the end) at it" is exactly `first_occ`.
pub proof fn lemma_first_occ_is(s: Seq<char>, c: char, n: int)
    requires
        0 <= n <= s.len(),
        forall|k: int| 0 <= k < n ==> s[k] != c,
        n < s.len() ==> s[n] == c,
    ensures
        first_occ(s, c) == n,
{
    lemma_first_occ(s, c);
    let m = first_occ(s, c);
    if m < n {
        assert(s[m] == c);
        assert(false);
    }
    if m > n {
        assert(s[n] != c);
        assert(false);
    }
}

/// The segments of `s` between occurrences of `c`, in order: what the
/// standard single-character `split` yields. Always at least one segment;
/// consecutive separators yield empty segments.
pub open spec fn split_char(s: Seq<char>, c: char) -> Seq<Seq<char>>
    decreases s.len(),
    via split_char_decreases
{
    let n = first_occ(s, c);
    if n == s.len() {
        seq![s]
    } else {
        seq![s.take(n)] + split_char(s.skip(n + 1), c)
    }
}

#[via_fn]
proof fn split_char_decreases(s: Seq<char>, c: char) {
    lemma_first_occ(s, c);
}

/// `p` is a prefix of `s`.
pub open spec fn is_prefix(p: Seq<char>, s: Seq<char>) -> bool {
    p.len() <= s.len() && s.take(p.len() as int) == p
}

/// The white-space characters recognized by trimming: the Unicode
/// `White_Space` set.
pub open spec fn is_space_char(c: char) -> bool {
    c == ' ' || c == '\t' || c == '\n' || c == '\r' || c == '\u{b}' || c == '\u{c}' || c
        == '\u{85}' || c == '\u{a0}' || c == '\u{1680}' || (0x2000 <= c as int && c as int
        <= 0x200a) || c == '\u{2028}' || c == '\u{2029}' || c == '\u{202f}' || c == '\u{205f}' || c
        == '\u{3000}'
}

pub open spec fn trim_start(s: Seq<char>) -> Seq<char>
    decreases s.len(),
{
    if s.len() > 0 && is_space_char(s[0]) {
        trim_start(s.drop_first())
    } else {
        s
    }
}

pub open spec fn trim_end(s: Seq<char>) -> Seq<char>
    decreases s.len(),
{
    if s.len() > 0 && is_space_char(s.last()) {
        trim_end(s.drop_last())
    } else {
        s
    }
}

/// `s` with white space removed from both ends.
pub open spec fn trim(s: Seq<char>) -> Seq<char> {
    trim_end(trim_start(s))
}

/// Decides equality of the character sequences of two strings.
pub fn str_eq(a: &str, b: &str) -> (r: bool)
    ensures
        r == (a@ == b@),
{
    let sa = String::from_str(a);
    let sb = String::from_str(b);
    sa == sb
}

/// Decides whether `p` is a prefix of `s`.
pub fn is_prefix_exec(p: &str, s: &str) -> (r: bool)
    ensures
        r == is_prefix(p@, s@),
{
    let plen = p.unicode_len();
    let slen = s.unicode_len();
    if plen > slen {
        return false;
    }
    let mut i: usize = 0;
    while i < plen
        invariant
            i <= plen,
            plen <= slen,
            plen == p@.len(),
            slen == s@.len(),
            forall|k: int| 0 <= k < i ==> s@[k] == p@[k],
        decreases plen - i,
    {
        let sc = s.get_char(i);
        let pc = p.get_char(i);
        if sc != pc {
            proof {
                if is_prefix(p@, s@) {
                    assert(s@.take(plen as int)[i as int] == s@[i as int]);
                    assert(false);
                }
            }
            return false;
        }
        i = i + 1;
    }
    proof {
        assert(s@.take(plen as int) =~= p@);
    }
    true
}

/// The suffix of `s` from character position `n`: `s` with an `n`-character
/// prefix removed once.
pub fn suffix_from(s: &str, n: usize) -> (r: String)
    requires
        n as int <= s@.len(),
    ensures
        r@ == s@.skip(n as int),
{
    let len = s.unicode_len();
    let r = String::from_str(s.substring_char(n, len));
    proof {
        assert(r@ =~= s@.skip(n as int));
    }
    r
}

/// Splits `s` on every occurrence of `c`, yielding the segments in order.
pub fn split_char_exec(s: &str, c: char) -> (r: Vec<String>)
    ensures
        r@.len() == split_char(s@, c).len(),
        forall|i: int| 0 <= i < r@.len() ==> #[trigger] r@[i]@ == split_char(s@, c)[i],
{
    let ghost total = split_char(s@, c);
    let len = s.unicode_len();
    let mut r: Vec<String> = Vec::new();
    let mut start: usize = 0;
    let mut more = true;
    proof {
        assert(s@.skip(0) =~= s@);
        assert(r@.map_values(|t: String| t@) =~= Seq::<Seq<char>>::empty());
        assert(total =~= r@.map_values(|t: String| t@) + split_char(s@.skip(0), c));
    }
    while more
        invariant
            len == s@.len(),
            forall|i: int| 0 <= i < r@.len() ==> #[trigger] r@[i]@ == total[i],
            more ==> start <= len && total =~= r@.map_values(|t: String| t@) + split_char(
                s@.skip(start as int),
                c,
            ),
            more ==> total.len() == r@.len() + split_char(s@.skip(start as int), c).len(),
            !more ==> r@.len() == total.len(),
        decreases len - start + (if more { 1int } else { 0int }),
    {
        let ghost tail = split_char(s@.skip(start as int), c);
        let mut j: usize = start;
        while j < len && s.get_char(j) != c
            invariant
                start <= j <= len,
                len == s@.len(),
                forall|k: int| start <= k < j ==> s@[k] != c,
            decreases len - j,
        {
            j = j + 1;
        }
        proof {
            let t = s@.skip(start as int);
            assert forall|k: int| 0 <= k < j - start implies t[k] != c by {
                assert(t[k] == s@[k + start]);
            }
            if (j as int) < len {
                assert(t[j - start] == s@[j as int]);
            }
            lemma_first_occ_is(t, c, j - start);
        }
        let tok = String::from_str(s.substring_char(start, j));
        proof {
            let t = s@.skip(start as int);
            if j == len {
                assert(tok@ =~= t);
                assert(tail =~= seq![t]);
            } else {
                assert(tok@ =~= t.take(j - start));
                assert(t.skip(j - start + 1) =~= s@.skip(j as int + 1));
                assert(tail == seq![t.take(j - start)] + split_char(t.skip(j - start + 1), c));
            }
        }
        let ghost rpre = r@;
        r.push(tok);
        proof {
            assert(r@ =~= rpre.push(tok));
            assert(r@[rpre.len() as int]@ == tail[0]);
            assert(total[rpre.len() as int] == tail[0]);
        }
        if j == len {
            more = false;
            proof {
                assert(tail.len() == 1);
            }
        } else {
            start = j + 1;
            proof {
                let t0 = s@.skip(j as int + 1);
                assert(tail == seq![tok@] + split_char(t0, c));
                assert(r@.map_values(|t: String| t@) =~= rpre.map_values(|t: String| t@) + seq![
                    tok@,
                ]);
                assert(total =~= r@.map_values(|t: String| t@) + split_char(t0, c));
            }
        }
    }
    r
}

/// Finds the index of the first occurrence of `c` in `s`, or the length of
/// `s` when absent.
pub fn first_occ_exec(s: &str, c: char) -> (j: usize)
    ensures
        j as int == first_occ(s@, c),
        j <= s@.len(),
{
    let len = s.unicode_len();
    let mut j: usize = 0;
    while j < len && s.get_char(j) != c
        invariant
            j <= len,
            len == s@.len(),
            forall|k: int| 0 <= k < j ==> s@[k] != c,
        decreases len - j,
    {
        j = j + 1;
    }
    proof {
        lemma_first_occ_is(s@, c, j as int);
    }
    j
}

/// Removes white space from both ends of `s`.
pub fn trim_exec(s: &str) -> (r: String)
    ensures
        r@ == trim(s@),
{
    let len = s.unicode_len();
    let mut a: usize = 0;
    proof {
        assert(s@.skip(0) =~= s@);
    }
    while a < len && is_space(s.get_char(a))
        invariant
            a <= len,
            len == s@.len(),
            trim_start(s@) == trim_start(s@.skip(a as int)),
        decreases len - a,
    {
        proof {
            assert(s@.skip(a as int)[0] == s@[a as int]);
            assert(s@.skip(a as int).drop_first() =~= s@.skip(a as int + 1));
        }
        a = a + 1;
    }
    proof {
        let t = s@.skip(a as int);
        if a < len {
            assert(t[0] == s@[a as int]);
        }
        assert(trim_start(s@) == t);
    }
    let mut b: usize = len;
    proof {
        let t = s@.skip(a as int);
        assert(t.take(b - a as int) =~= t);
    }
    while b > a && is_space(s.get_char(b - 1))
        invariant
            a <= b <= len,
            len == s@.len(),
            trim_start(s@) == s@.skip(a as int),
            trim_end(s@.skip(a as int)) == trim_end(s@.skip(a as int).take(b - a as int)),
        decreases b,
    {
        proof {
            let t = s@.skip(a as int);
            let u = t.take(b - a as int);
            assert(u.last() == t[b - a - 1]);
            assert(t[b - a - 1] == s@[b - 1]);
            assert(u.drop_last() =~= t.take(b - 1 - a as int));
        }
        b = b - 1;
    }
    proof {
        let t = s@.skip(a as int);
        let u = t.take(b - a as int);
        if b > a {
            assert(u.last() == t[b - a - 1]);
            assert(t[b - a - 1] == s@[b - 1]);
        }
        assert(trim_end(u) == u);
        assert(u =~= s@.subrange(a as int, b as int));
    }
    String::from_str(s.substring_char(a, b))
}

/// Decides membership in the white-space set that trimming removes.
pub fn is_space(c: char) -> (r: bool)
    ensures
        r == is_space_char(c),
{
    let u = c as u32;
    u == 0x20 || u == 0x9 || u == 0xa || u == 0xd || u == 0xb || u == 0xc || u == 0x85 || u == 0xa0
        || u == 0x1680 || (0x2000 <= u && u <= 0x200a) || u == 0x2028 || u == 0x2029 || u == 0x202f
        || u == 0x205f || u == 0x3000
}

} // verus!
