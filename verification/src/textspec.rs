//! Character-sequence helpers shared by the block classifier and the layout
//! engine: line splitting, pattern search, and pattern replacement, each with
//! an executable form proved against a recursive specification.

use vstd::prelude::*;

verus! {

/// True when `pat` occurs in `s` starting at index `i`.
pub open spec fn has_pat_at(s: Seq<char>, pat: Seq<char>, i: int) -> bool {
    0 <= i && i + pat.len() <= s.len() && s.subrange(i, i + pat.len()) == pat
}

/// True when `pat` occurs somewhere in `s`.
pub open spec fn contains_pat(s: Seq<char>, pat: Seq<char>) -> bool {
    exists|i: int| has_pat_at(s, pat, i)
}

/// Index of the leftmost occurrence of `pat` in `s`, or `-1` if none.
pub open spec fn find_pat(s: Seq<char>, pat: Seq<char>) -> int
    decreases s.len(),
{
    if pat.len() > s.len() {
        -1
    } else if s.subrange(0, pat.len() as int) == pat {
        0
    } else if s.len() == 0 {
        -1
    } else {
        let r = find_pat(s.drop_first(), pat);
        if r == -1 {
            -1
        } else {
            r + 1
        }
    }
}

/// `find_pat` returns `-1` exactly when `pat` occurs nowhere in `s`, and
/// otherwise returns the least occurrence index.
pub proof fn lemma_find_pat(s: Seq<char>, pat: Seq<char>)
    ensures
        find_pat(s, pat) == -1 ==> !contains_pat(s, pat),
        find_pat(s, pat) != -1 ==> {
            &&& has_pat_at(s, pat, find_pat(s, pat))
            &&& forall|j: int| 0 <= j < find_pat(s, pat) ==> !has_pat_at(s, pat, j)
        },
    decreases s.len(),
{
    if pat.len() > s.len() {
        assert forall|i: int| !has_pat_at(s, pat, i) by {}
    } else if s.subrange(0, pat.len() as int) == pat {
        assert(has_pat_at(s, pat, 0));
    } else if s.len() == 0 {
        assert forall|i: int| !has_pat_at(s, pat, i) by {
            if has_pat_at(s, pat, i) {
                assert(i == 0);
            }
        }
    } else {
        lemma_find_pat(s.drop_first(), pat);
        let t = s.drop_first();
        assert forall|j: int| has_pat_at(s, pat, j) && j >= 1 implies has_pat_at(
            t,
            pat,
            j - 1,
        ) by {
            assert(t.subrange(j - 1, j - 1 + pat.len()) =~= s.subrange(j, j + pat.len()));
        }
        assert forall|j: int| has_pat_at(t, pat, j) implies has_pat_at(s, pat, j + 1) by {
            assert(s.subrange(j + 1, j + 1 + pat.len()) =~= t.subrange(j, j + pat.len()));
        }
        let r = find_pat(t, pat);
        if r == -1 {
            assert forall|i: int| !has_pat_at(s, pat, i) by {
                if has_pat_at(s, pat, i) {
                    if i == 0 {
                        assert(s.subrange(0, pat.len() as int) == pat);
                    } else {
                        assert(has_pat_at(t, pat, i - 1));
                    }
                }
            }
        } else {
            assert(has_pat_at(s, pat, r + 1));
            assert forall|j: int| 0 <= j < r + 1 implies !has_pat_at(s, pat, j) by {
                if j >= 1 && has_pat_at(s, pat, j) {
                    assert(has_pat_at(t, pat, j - 1));
                }
            }
        }
    }
}

/// Replace every occurrence of `pat` in `s`, leftmost first and without
/// overlap, by the single character `c`.
pub open spec fn replace_pat(s: Seq<char>, pat: Seq<char>, c: char) -> Seq<char>
    decreases s.len(),
    when pat.len() > 0
{
    let f = find_pat(s, pat);
    if 0 <= f && f + pat.len() <= s.len() {
        s.subrange(0, f) + seq![c] + replace_pat(s.skip(f + pat.len()), pat, c)
    } else {
        s
    }
}

/// Drop every leading copy of `pat` from `s`.
pub open spec fn strip_prefix_all(s: Seq<char>, pat: Seq<char>) -> Seq<char>
    decreases s.len(),
    when pat.len() > 0
{
    if s.len() >= pat.len() && s.subrange(0, pat.len() as int) == pat {
        strip_prefix_all(s.skip(pat.len() as int), pat)
    } else {
        s
    }
}

/// Drop every trailing copy of `pat` from `s`.
pub open spec fn strip_suffix_all(s: Seq<char>, pat: Seq<char>) -> Seq<char>
    decreases s.len(),
    when pat.len() > 0
{
    if s.len() >= pat.len() && s.subrange(s.len() - pat.len(), s.len() as int) == pat {
        strip_suffix_all(s.take(s.len() - pat.len()), pat)
    } else {
        s
    }
}

/// The line decomposition of raw input text: pieces split at `'\n'`, where a
/// piece directly followed by `'\n'` loses one trailing `'\r'`, and a final
/// empty piece after a trailing `'\n'` is dropped.
pub open spec fn text_lines(s: Seq<char>) -> Seq<Seq<char>>
    decreases s.len(),
{
    if s.len() == 0 {
        Seq::empty()
    } else {
        let f = find_pat(s, seq!['\n']);
        if 0 <= f && f < s.len() {
            seq![strip_one_cr(s.subrange(0, f))] + text_lines(s.skip(f + 1))
        } else {
            seq![s]
        }
    }
}

/// Drop a single trailing `'\r'` if present.
pub open spec fn strip_one_cr(s: Seq<char>) -> Seq<char> {
    if s.len() > 0 && s.last() == '\r' {
        s.drop_last()
    } else {
        s
    }
}

/// The character at index `i` of `s`.
pub fn char_at(s: &str, i: usize) -> (c: char)
    requires
        i < s@.len(),
    ensures
        c == s@[i as int],
{
    s.get_char(i)
}

/// Whether `pat` occurs in `s` at index `i`, by direct comparison.
pub fn matches_at(s: &str, n: usize, pat: &str, m: usize, i: usize) -> (b: bool)
    requires
        n == s@.len(),
        m == pat@.len(),
        i + m <= n,
    ensures
        b == has_pat_at(s@, pat@, i as int),
{
    let mut k: usize = 0;
    while k < m
        invariant
            0 <= k <= m,
            i + m <= n,
            n == s@.len(),
            m == pat@.len(),
            forall|j: int| 0 <= j < k ==> s@[i + j] == pat@[j],
        decreases m - k,
    {
        if s.get_char(i + k) != pat.get_char(k) {
            assert(s@.subrange(i as int, i + m) != pat@) by {
                assert(s@.subrange(i as int, i + m)[k as int] != pat@[k as int]);
            }
            return false;
        }
        k += 1;
    }
    assert(s@.subrange(i as int, i + m) =~= pat@);
    true
}

/// Index of the leftmost occurrence of `pat` in `s`, if any.
pub fn find_pat_str(s: &str, pat: &str) -> (r: Option<usize>)
    requires
        pat@.len() > 0,
    ensures
        match r {
            Some(i) => i == find_pat(s@, pat@) && has_pat_at(s@, pat@, i as int),
            None => find_pat(s@, pat@) == -1 && !contains_pat(s@, pat@),
        },
{
    let n = s.unicode_len();
    let m = pat.unicode_len();
    proof {
        lemma_find_pat(s@, pat@);
    }
    if m > n {
        assert forall|i: int| !has_pat_at(s@, pat@, i) by {}
        return None;
    }
    let mut i: usize = 0;
    while i <= n - m
        invariant
            0 <= i,
            i <= n - m + 1,
            m <= n,
            m == pat@.len(),
            n == s@.len(),
            pat@.len() > 0,
            forall|j: int| 0 <= j < i ==> !has_pat_at(s@, pat@, j),
        decreases n - i,
    {
        if matches_at(s, n, pat, m, i) {
            proof {
                lemma_find_pat(s@, pat@);
                if find_pat(s@, pat@) == -1 {
                    assert(false);
                }
                if find_pat(s@, pat@) < i {
                    assert(has_pat_at(s@, pat@, find_pat(s@, pat@)));
                    assert(false);
                }
                if find_pat(s@, pat@) > i {
                    assert(!has_pat_at(s@, pat@, i as int));
                    assert(false);
                }
            }
            return Some(i);
        }
        i += 1;
    }
    assert forall|j: int| !has_pat_at(s@, pat@, j) by {
        if has_pat_at(s@, pat@, j) {
            assert(j + m <= n);
            assert(0 <= j < i);
        }
    }
    None
}

/// Whether `pat` occurs anywhere in `s`.
pub fn contains_str(s: &str, pat: &str) -> (b: bool)
    requires
        pat@.len() > 0,
    ensures
        b == contains_pat(s@, pat@),
{
    match find_pat_str(s, pat) {
        Some(_) => true,
        None => false,
    }
}

} // verus!
