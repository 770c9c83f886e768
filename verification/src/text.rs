//! Character-level helpers over `&str`: whitespace trimming bounds and
//! range/literal comparisons. The normalizer and the calendar parser are
//! specified with these.

use vstd::prelude::*;

verus! {

pub open spec fn is_space(c: char) -> bool {
    c == ' ' || c == '\t' || c == '\r' || c == '\n'
}

pub fn is_space_exec(c: char) -> (r: bool)
    ensures
        r == is_space(c),
{
    c == ' ' || c == '\t' || c == '\r' || c == '\n'
}

/// First index in `[i, end)` holding a non-space character, else `end`.
pub open spec fn skip_spaces(s: Seq<char>, i: int, end: int) -> int
    decreases end - i,
    when i <= end
{
    if i >= end {
        end
    } else if is_space(s[i]) {
        skip_spaces(s, i + 1, end)
    } else {
        i
    }
}

/// One past the last non-space character in `[start, j)`, else `start`.
pub open spec fn rskip_spaces(s: Seq<char>, start: int, j: int) -> int
    decreases j - start,
    when start <= j
{
    if j <= start {
        start
    } else if is_space(s[j - 1]) {
        rskip_spaces(s, start, j - 1)
    } else {
        j
    }
}

/// The input with leading and trailing whitespace removed.
pub open spec fn trim_of(s: Seq<char>) -> Seq<char> {
    let lo = skip_spaces(s, 0, s.len() as int);
    let hi = rskip_spaces(s, lo, s.len() as int);
    s.subrange(lo, hi)
}

/// Bounds of `[start, end)` after dropping spaces on both sides.
pub fn trim_range(s: &str, start: usize, end: usize) -> (r: (usize, usize))
    requires
        start <= end <= s@.len(),
    ensures
        r.0 == skip_spaces(s@, start as int, end as int),
        r.1 == rskip_spaces(s@, r.0 as int, end as int),
        start <= r.0 <= r.1 <= end,
{
    let mut lo = start;
    while lo < end && is_space_exec(s.get_char(lo))
        invariant
            start <= lo <= end <= s@.len(),
            skip_spaces(s@, start as int, end as int) == skip_spaces(s@, lo as int, end as int),
        decreases end - lo,
    {
        lo = lo + 1;
    }
    let mut hi = end;
    while hi > lo && is_space_exec(s.get_char(hi - 1))
        invariant
            lo <= hi <= end <= s@.len(),
            rskip_spaces(s@, lo as int, end as int) == rskip_spaces(s@, lo as int, hi as int),
        decreases hi,
    {
        hi = hi - 1;
    }
    (lo, hi)
}

/// First index in `[i, end)` holding `c`, else `end`.
pub open spec fn find_from(s: Seq<char>, i: int, end: int, c: char) -> int
    decreases end - i,
    when i <= end
{
    if i >= end {
        end
    } else if s[i] == c {
        i
    } else {
        find_from(s, i + 1, end, c)
    }
}

pub proof fn lemma_find_from_bounds(s: Seq<char>, i: int, end: int, c: char)
    requires
        i <= end,
    ensures
        i <= find_from(s, i, end, c) <= end,
    decreases end - i,
{
    if i < end && s[i] != c {
        lemma_find_from_bounds(s, i + 1, end, c);
    }
}

pub fn find_char(s: &str, i: usize, end: usize, c: char) -> (r: usize)
    requires
        i <= end <= s@.len(),
    ensures
        r == find_from(s@, i as int, end as int, c),
        i <= r <= end,
{
    let mut k = i;
    while k < end && s.get_char(k) != c
        invariant
            i <= k <= end <= s@.len(),
            find_from(s@, i as int, end as int, c) == find_from(s@, k as int, end as int, c),
        decreases end - k,
    {
        k = k + 1;
    }
    k
}

/// Whether the characters of `s` in `[lo, hi)` spell exactly `t`.
pub fn str_range_eq(s: &str, lo: usize, hi: usize, t: &str) -> (r: bool)
    requires
        lo <= hi <= s@.len(),
    ensures
        r == (s@.subrange(lo as int, hi as int) == t@),
{
    let n = t.unicode_len();
    if hi - lo != n {
        proof {
            assert(s@.subrange(lo as int, hi as int).len() == hi - lo);
        }
        return false;
    }
    let mut k: usize = 0;
    while k < n
        invariant
            k <= n,
            lo <= hi <= s@.len(),
            hi - lo == n,
            n == t@.len(),
            forall|j: int| 0 <= j < k ==> s@[lo + j] == t@[j],
        decreases n - k,
    {
        if s.get_char(lo + k) != t.get_char(k) {
            proof {
                assert(s@.subrange(lo as int, hi as int)[k as int] != t@[k as int]);
            }
            return false;
        }
        k = k + 1;
    }
    proof {
        assert(s@.subrange(lo as int, hi as int) =~= t@);
    }
    true
}

/// Whether two strings hold the same characters.
pub fn str_eq(a: &str, b: &str) -> (r: bool)
    ensures
        r == (a@ == b@),
{
    let n = a.unicode_len();
    let r = str_range_eq(a, 0, n, b);
    proof {
        assert(a@.subrange(0, a@.len() as int) =~= a@);
    }
    r
}

} // verus!
