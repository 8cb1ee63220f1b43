//! Character-level helpers over `str`, with their specifications.
use vstd::prelude::*;
use vstd::string::StrSliceExecFns;

verus! {

/// Whitespace that surrounds tokens in a type annotation.
pub open spec fn is_space(c: char) -> bool {
    c == ' ' || c == '\t' || c == '\n' || c == '\r'
}

/// Characters that may appear in a bare type or field name.
pub open spec fn is_ident_char(c: char) -> bool {
    ('a' <= c && c <= 'z') || ('A' <= c && c <= 'Z') || ('0' <= c && c <= '9') || c == '_'
        || c == '$' || c == '.'
}

/// A non-empty run of name characters.
pub open spec fn is_ident(t: Seq<char>) -> bool {
    t.len() > 0 && forall|i: int| 0 <= i < t.len() ==> #[trigger] is_ident_char(t[i])
}

/// `c` equals the lower-case ASCII letter or symbol `k`, ignoring the case of `c`.
pub open spec fn ci_eq(c: char, k: char) -> bool {
    c == k || ('A' <= c && c <= 'Z' && (c as u32) + 32 == (k as u32))
}

/// `t` spells the lower-case keyword `k` in any letter case.
pub open spec fn ci_matches(t: Seq<char>, k: Seq<char>) -> bool {
    t.len() == k.len() && forall|i: int| 0 <= i < t.len() ==> #[trigger] ci_eq(t[i], k[i])
}

pub fn space_at(s: &str, i: usize) -> (r: bool)
    requires
        i < s@.len(),
    ensures
        r == is_space(s@[i as int]),
{
    let c = s.get_char(i);
    c == ' ' || c == '\t' || c == '\n' || c == '\r'
}

pub fn ident_char_at(s: &str, i: usize) -> (r: bool)
    requires
        i < s@.len(),
    ensures
        r == is_ident_char(s@[i as int]),
{
    let c = s.get_char(i);
    ('a' <= c && c <= 'z') || ('A' <= c && c <= 'Z') || ('0' <= c && c <= '9') || c == '_'
        || c == '$' || c == '.'
}

/// Whether `s[lo..hi]` is a name.
pub fn ident_range(s: &str, lo: usize, hi: usize) -> (r: bool)
    requires
        lo <= hi <= s@.len(),
    ensures
        r == is_ident(s@.subrange(lo as int, hi as int)),
{
    if lo == hi {
        return false;
    }
    let mut i = lo;
    while i < hi
        invariant
            lo <= i <= hi <= s@.len(),
            forall|j: int| lo <= j < i ==> is_ident_char(s@[j]),
        decreases hi - i,
    {
        if !ident_char_at(s, i) {
            assert(!is_ident_char(s@.subrange(lo as int, hi as int)[i - lo]));
            return false;
        }
        i = i + 1;
    }
    assert forall|j: int| 0 <= j < hi - lo implies #[trigger] is_ident_char(
        s@.subrange(lo as int, hi as int)[j],
    ) by {
        assert(is_ident_char(s@[lo + j]));
    }
    true
}

/// Whether `s[lo..hi]` spells the lower-case keyword `k` in any letter case.
pub fn ci_matches_range(s: &str, lo: usize, hi: usize, k: &str) -> (r: bool)
    requires
        lo <= hi <= s@.len(),
    ensures
        r == ci_matches(s@.subrange(lo as int, hi as int), k@),
{
    let n = k.unicode_len();
    if hi - lo != n {
        return false;
    }
    let mut i: usize = 0;
    while i < n
        invariant
            lo <= hi <= s@.len(),
            hi - lo == n,
            n == k@.len(),
            i <= n,
            forall|j: int| 0 <= j < i ==> ci_eq(s@[lo + j], k@[j]),
        decreases n - i,
    {
        let c = s.get_char(lo + i);
        let d = k.get_char(i);
        if !(c == d || ('A' <= c && c <= 'Z' && (c as u32) + 32 == (d as u32))) {
            assert(!ci_eq(s@.subrange(lo as int, hi as int)[i as int], k@[i as int]));
            return false;
        }
        i = i + 1;
    }
    assert forall|j: int| 0 <= j < n implies #[trigger] ci_eq(
        s@.subrange(lo as int, hi as int)[j],
        k@[j],
    ) by {
        assert(ci_eq(s@[lo + j], k@[j]));
    }
    true
}

/// Whether two strings hold the same characters.
pub fn same_text(s: &str, t: &str) -> (r: bool)
    ensures
        r == (s@ == t@),
{
    let n = s.unicode_len();
    if n != t.unicode_len() {
        return false;
    }
    let mut i: usize = 0;
    while i < n
        invariant
            n == s@.len() == t@.len(),
            i <= n,
            forall|j: int| 0 <= j < i ==> s@[j] == t@[j],
        decreases n - i,
    {
        if s.get_char(i) != t.get_char(i) {
            return false;
        }
        i = i + 1;
    }
    assert(s@ =~= t@);
    true
}

/// Narrows `[lo, hi)` to drop the leading and trailing whitespace.
pub fn trim_range(s: &str, lo: usize, hi: usize) -> (r: (usize, usize))
    requires
        lo <= hi <= s@.len(),
    ensures
        lo <= r.0 <= r.1 <= hi,
        forall|j: int| lo <= j < r.0 ==> is_space(s@[j]),
        forall|j: int| r.1 <= j < hi ==> is_space(s@[j]),
        r.0 < r.1 ==> !is_space(s@[r.0 as int]) && !is_space(s@[r.1 - 1]),
        r.0 == r.1 ==> forall|j: int| lo <= j < hi ==> is_space(s@[j]),
{
    let mut a = lo;
    while a < hi && space_at(s, a)
        invariant
            lo <= a <= hi <= s@.len(),
            forall|j: int| lo <= j < a ==> is_space(s@[j]),
        decreases hi - a,
    {
        a = a + 1;
    }
    let mut b = hi;
    while b > a && space_at(s, b - 1)
        invariant
            lo <= a <= b <= hi <= s@.len(),
            a < hi ==> !is_space(s@[a as int]),
            forall|j: int| b <= j < hi ==> is_space(s@[j]),
        decreases b - a,
    {
        b = b - 1;
    }
    (a, b)
}

} // verus!
