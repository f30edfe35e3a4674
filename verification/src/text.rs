//! Character-level string utilities: equality, lexicographic order,
//! substring search, and dot-separated label handling for host names.

use vstd::prelude::*;
use vstd::string::StrSliceExecFns;

verus! {

/// True when `a` equals `b`, character for character.
pub fn str_eq(a: &str, b: &str) -> (r: bool)
    ensures
        r == (a@ == b@),
{
    let alen = a.unicode_len();
    let blen = b.unicode_len();
    if alen != blen {
        return false;
    }
    let mut i: usize = 0;
    while i < alen
        invariant
            i <= alen,
            alen == a@.len(),
            blen == b@.len(),
            alen == blen,
            forall|j: int| 0 <= j < i ==> a@[j] == b@[j],
        decreases alen - i,
    {
        if a.get_char(i) != b.get_char(i) {
            return false;
        }
        i += 1;
    }
    proof {
        assert(a@ =~= b@);
    }
    true
}

/// Strict lexicographic order on character sequences, by code point.
pub open spec fn lex_lt(a: Seq<char>, b: Seq<char>) -> bool
    decreases a.len(),
{
    if b.len() == 0 {
        false
    } else if a.len() == 0 {
        true
    } else if a[0] < b[0] {
        true
    } else if b[0] < a[0] {
        false
    } else {
        lex_lt(a.skip(1), b.skip(1))
    }
}

/// Comparing two sequences that agree on a common prefix reduces to
/// comparing what follows the prefix.
pub proof fn lemma_lex_lt_common_prefix(a: Seq<char>, b: Seq<char>, i: int)
    requires
        0 <= i <= a.len(),
        i <= b.len(),
        forall|j: int| 0 <= j < i ==> a[j] == b[j],
    ensures
        lex_lt(a, b) == lex_lt(a.skip(i), b.skip(i)),
    decreases i,
{
    if i > 0 {
        lemma_lex_lt_common_prefix(a.skip(1), b.skip(1), i - 1);
        assert(a.skip(1).skip(i - 1) =~= a.skip(i));
        assert(b.skip(1).skip(i - 1) =~= b.skip(i));
    } else {
        assert(a.skip(0) =~= a);
        assert(b.skip(0) =~= b);
    }
}

/// No sequence is lexicographically below itself.
pub proof fn lemma_lex_lt_irreflexive(a: Seq<char>)
    ensures
        !lex_lt(a, a),
    decreases a.len(),
{
    if a.len() > 0 {
        lemma_lex_lt_irreflexive(a.skip(1));
    }
}

/// At most one direction of the strict order holds.
pub proof fn lemma_lex_lt_asymmetric(a: Seq<char>, b: Seq<char>)
    ensures
        !(lex_lt(a, b) && lex_lt(b, a)),
    decreases a.len(),
{
    if a.len() > 0 && b.len() > 0 && !(a[0] < b[0]) && !(b[0] < a[0]) {
        lemma_lex_lt_asymmetric(a.skip(1), b.skip(1));
    }
}

/// Two sequences are equal or strictly ordered one way.
pub proof fn lemma_lex_lt_trichotomy(a: Seq<char>, b: Seq<char>)
    ensures
        lex_lt(a, b) || lex_lt(b, a) || a == b,
    decreases a.len(),
{
    if a.len() > 0 && b.len() > 0 && !(a[0] < b[0]) && !(b[0] < a[0]) {
        lemma_lex_lt_trichotomy(a.skip(1), b.skip(1));
        if a.skip(1) == b.skip(1) {
            assert(a.len() == b.len());
            assert forall|j: int| 0 <= j < a.len() implies a[j] == b[j] by {
                if j >= 1 {
                    assert(a[j] == a.skip(1)[j - 1]);
                    assert(b[j] == b.skip(1)[j - 1]);
                }
            }
            assert(a =~= b);
        }
    } else if a.len() == 0 && b.len() == 0 {
        assert(a =~= b);
    }
}

/// The strict order is transitive.
pub proof fn lemma_lex_lt_transitive(a: Seq<char>, b: Seq<char>, c: Seq<char>)
    requires
        lex_lt(a, b),
        lex_lt(b, c),
    ensures
        lex_lt(a, c),
    decreases a.len(),
{
    if a.len() > 0 && b.len() > 0 && c.len() > 0 && !(a[0] < b[0]) && !(b[0] < a[0]) && !(b[0]
        < c[0]) && !(c[0] < b[0]) {
        lemma_lex_lt_transitive(a.skip(1), b.skip(1), c.skip(1));
    }
}

/// True when `a` comes strictly before `b` in lexicographic order.
pub fn str_lt(a: &str, b: &str) -> (r: bool)
    ensures
        r == lex_lt(a@, b@),
{
    let alen = a.unicode_len();
    let blen = b.unicode_len();
    let n = if alen < blen {
        alen
    } else {
        blen
    };
    let mut i: usize = 0;
    while i < n
        invariant
            i <= n,
            alen == a@.len(),
            blen == b@.len(),
            n == if alen < blen {
                alen
            } else {
                blen
            },
            forall|j: int| 0 <= j < i ==> a@[j] == b@[j],
        decreases n - i,
    {
        let ca = a.get_char(i);
        let cb = b.get_char(i);
        if ca < cb {
            proof {
                lemma_lex_lt_common_prefix(a@, b@, i as int);
            }
            return true;
        }
        if cb < ca {
            proof {
                lemma_lex_lt_common_prefix(a@, b@, i as int);
            }
            return false;
        }
        i += 1;
    }
    proof {
        lemma_lex_lt_common_prefix(a@, b@, n as int);
    }
    alen < blen
}

/// `nee` occurs in `hay` starting at position `i`.
pub open spec fn contains_at(hay: Seq<char>, i: int, nee: Seq<char>) -> bool {
    0 <= i && i + nee.len() <= hay.len() && hay.subrange(i, i + nee.len()) == nee
}

/// `nee` occurs somewhere in `hay`.
pub open spec fn contains_seq(hay: Seq<char>, nee: Seq<char>) -> bool {
    exists|i: int| contains_at(hay, i, nee)
}

fn match_at(hay: &str, i: usize, nee: &str, hlen: usize, nlen: usize) -> (r: bool)
    requires
        hlen == hay@.len(),
        nlen == nee@.len(),
        i + nlen <= hlen,
    ensures
        r == contains_at(hay@, i as int, nee@),
{
    let mut j: usize = 0;
    while j < nlen
        invariant
            j <= nlen,
            hlen == hay@.len(),
            nlen == nee@.len(),
            i + nlen <= hlen,
            forall|k: int| 0 <= k < j ==> hay@[i + k] == nee@[k],
        decreases nlen - j,
    {
        if hay.get_char(i + j) != nee.get_char(j) {
            proof {
                assert(!contains_at(hay@, i as int, nee@)) by {
                    if hay@.subrange(i as int, i + nee@.len()) == nee@ {
                        assert(hay@.subrange(i as int, i + nee@.len())[j as int] == hay@[i + j]);
                    }
                }
            }
            return false;
        }
        j += 1;
    }
    proof {
        assert(hay@.subrange(i as int, i + nee@.len()) =~= nee@);
    }
    true
}

/// True when `nee` occurs in `hay` as a contiguous substring.
pub fn str_contains(hay: &str, nee: &str) -> (r: bool)
    ensures
        r == contains_seq(hay@, nee@),
{
    let hlen = hay.unicode_len();
    let nlen = nee.unicode_len();
    if nlen > hlen {
        return false;
    }
    if nlen == 0 {
        proof {
            assert(hay@.subrange(0, 0) =~= nee@);
            assert(contains_at(hay@, 0, nee@));
        }
        return true;
    }
    let mut i: usize = 0;
    while i <= hlen - nlen
        invariant
            0 < nlen <= hlen,
            hlen == hay@.len(),
            nlen == nee@.len(),
            i <= hlen - nlen + 1,
            forall|k: int| 0 <= k < i ==> !contains_at(hay@, k, nee@),
        decreases hlen - nlen - i + 1,
    {
        if match_at(hay, i, nee, hlen, nlen) {
            return true;
        }
        i += 1;
    }
    false
}

/// The number of `'.'` characters in `s`.
pub open spec fn dot_count(s: Seq<char>) -> nat
    decreases s.len(),
{
    if s.len() == 0 {
        0
    } else {
        dot_count(s.drop_last()) + if s.last() == '.' {
            1nat
        } else {
            0nat
        }
    }
}

/// The number of dot-separated labels in `s` (one more than its dots).
pub open spec fn label_count(s: Seq<char>) -> nat {
    dot_count(s) + 1
}

/// Counts the dots of `s`, so that callers can count its labels.
pub fn count_dots(s: &str) -> (r: usize)
    ensures
        r == dot_count(s@),
{
    let len = s.unicode_len();
    let mut i: usize = 0;
    let mut cnt: usize = 0;
    proof {
        assert(s@.take(0) =~= Seq::<char>::empty());
    }
    while i < len
        invariant
            i <= len,
            len == s@.len(),
            cnt == dot_count(s@.take(i as int)),
            cnt <= i,
        decreases len - i,
    {
        proof {
            assert(s@.take(i + 1).drop_last() =~= s@.take(i as int));
            assert(s@.take(i + 1).last() == s@[i as int]);
        }
        if s.get_char(i) == '.' {
            cnt += 1;
        }
        i += 1;
    }
    proof {
        assert(s@.take(len as int) =~= s@);
    }
    cnt
}

/// The index of the first `'.'` in `s`, or `s.len()` if there is none.
pub open spec fn first_dot(s: Seq<char>) -> int
    decreases s.len(),
{
    if s.len() == 0 {
        0
    } else if s[0] == '.' {
        0
    } else {
        1 + first_dot(s.skip(1))
    }
}

pub proof fn lemma_first_dot_bounds(s: Seq<char>)
    ensures
        0 <= first_dot(s) <= s.len(),
        forall|j: int| 0 <= j < first_dot(s) ==> s[j] != '.',
        first_dot(s) < s.len() ==> s[first_dot(s)] == '.',
        dot_count(s) > 0 ==> first_dot(s) < s.len(),
    decreases s.len(),
{
    if s.len() > 0 && s[0] != '.' {
        lemma_first_dot_bounds(s.skip(1));
        assert forall|j: int| 0 <= j < first_dot(s) implies s[j] != '.' by {
            if j >= 1 {
                assert(s[j] == s.skip(1)[j - 1]);
                assert(s.skip(1)[j - 1] != '.');
            }
        }
        if first_dot(s) < s.len() {
            assert(s[first_dot(s)] == s.skip(1)[first_dot(s) - 1]);
        }
        if dot_count(s) > 0 {
            lemma_dot_count_skip_first(s);
        }
    }
}

/// Dots counted from the front: the first character plus the rest.
pub proof fn lemma_dot_count_skip_first(s: Seq<char>)
    requires
        s.len() > 0,
    ensures
        dot_count(s) == dot_count(s.skip(1)) + if s[0] == '.' {
            1nat
        } else {
            0nat
        },
    decreases s.len(),
{
    if s.len() == 1 {
        assert(s.drop_last() =~= s.skip(1));
    } else {
        lemma_dot_count_skip_first(s.drop_last());
        assert(s.drop_last().skip(1) =~= s.skip(1).drop_last());
        assert(s.skip(1).last() == s.last());
        assert(s.drop_last()[0] == s[0]);
    }
}

/// What remains of `s` after its leftmost dot-separated label and the
/// dot that follows that label are removed.
pub open spec fn strip_label(s: Seq<char>) -> Seq<char> {
    s.subrange(first_dot(s) + 1, s.len() as int)
}

/// Stripping a label removes the leftmost dot, and with it one label.
pub proof fn lemma_strip_label_dot_count(s: Seq<char>)
    requires
        dot_count(s) > 0,
    ensures
        strip_label(s).len() < s.len(),
        dot_count(strip_label(s)) == dot_count(s) - 1,
    decreases s.len(),
{
    lemma_first_dot_bounds(s);
    if s[0] == '.' {
        lemma_dot_count_skip_first(s);
        assert(strip_label(s) =~= s.skip(1));
    } else {
        lemma_dot_count_skip_first(s);
        lemma_strip_label_dot_count(s.skip(1));
        assert(strip_label(s) =~= strip_label(s.skip(1)));
    }
}

/// Removes the leftmost label of `host`, returning what follows the
/// first dot.
pub fn strip_first_label(host: &str) -> (r: String)
    requires
        dot_count(host@) > 0,
    ensures
        r@ == strip_label(host@),
{
    let len = host.unicode_len();
    let mut i: usize = 0;
    proof {
        lemma_first_dot_bounds(host@);
    }
    while i < len
        invariant
            i <= len,
            len == host@.len(),
            forall|j: int| 0 <= j < i ==> host@[j] != '.',
            0 <= first_dot(host@) <= host@.len(),
            first_dot(host@) < host@.len() ==> host@[first_dot(host@)] == '.',
            first_dot(host@) < host@.len(),
        decreases len - i,
    {
        if host.get_char(i) == '.' {
            proof {
                lemma_first_dot_at(host@, i as int);
            }
            let rest = host.substring_char(i + 1, len);
            return rest.to_owned();
        }
        i += 1;
    }
    proof {
        assert(false);
    }
    String::new()
}

/// A dot at `i` with none before it is the first dot.
pub proof fn lemma_first_dot_at(s: Seq<char>, i: int)
    requires
        0 <= i < s.len(),
        s[i] == '.',
        forall|j: int| 0 <= j < i ==> s[j] != '.',
    ensures
        first_dot(s) == i,
    decreases i,
{
    if i > 0 {
        assert(forall|j: int| 1 <= j < s.len() ==> s[j] == #[trigger] s.skip(1)[j - 1]);
        lemma_first_dot_at(s.skip(1), i - 1);
    }
}

} // verus!
