//! Pattern matching as the search uses it: `%` in a pattern stands for any
//! run of characters, `_` for any one character, and every other character
//! for itself. There is no way to escape the two wildcards.

use vstd::prelude::*;
use crate::text::{contains_text, occurs_at};

verus! {

/// Whether the characters of `text` from position `i` on match the
/// characters of `pattern` from position `j` on.
pub open spec fn like_at(text: Seq<char>, pattern: Seq<char>, i: int, j: int) -> bool
    decreases pattern.len() - j, text.len() - i,
{
    if !(0 <= i <= text.len() && 0 <= j <= pattern.len()) {
        false
    } else if j == pattern.len() {
        i == text.len()
    } else if pattern[j] == '%' {
        like_at(text, pattern, i, j + 1) || (i < text.len() && like_at(text, pattern, i + 1, j))
    } else {
        i < text.len() && (pattern[j] == '_' || pattern[j] == text[i]) && like_at(
            text,
            pattern,
            i + 1,
            j + 1,
        )
    }
}

/// Whether the whole of `text` matches `pattern`.
pub open spec fn like_matches(text: Seq<char>, pattern: Seq<char>) -> bool {
    like_at(text, pattern, 0, 0)
}

/// The pattern that the search makes of a keyword: the keyword between two
/// `%`, its own characters unchanged.
pub open spec fn search_pattern(keyword: Seq<char>) -> Seq<char> {
    seq!['%'] + keyword + seq!['%']
}

/// A `%` in the pattern may swallow the characters from `i` up to `k`.
proof fn lemma_percent_skips(text: Seq<char>, pattern: Seq<char>, i: int, k: int, j: int)
    requires
        0 <= i <= k <= text.len(),
        0 <= j < pattern.len(),
        pattern[j] == '%',
        like_at(text, pattern, k, j),
    ensures
        like_at(text, pattern, i, j),
    decreases k - i,
{
    if i < k {
        lemma_percent_skips(text, pattern, i + 1, k, j);
    }
}

/// Where `n` characters of the text equal the `n` characters of the
/// pattern before them, and the rest matches, the whole matches: each
/// character of a pattern matches itself, the two wildcards too.
proof fn lemma_literal_run(text: Seq<char>, pattern: Seq<char>, i: int, j: int, n: int)
    requires
        0 <= n,
        0 <= i,
        i + n <= text.len(),
        0 <= j,
        j + n <= pattern.len(),
        forall|q: int| 0 <= q < n ==> text[i + q] == #[trigger] pattern[j + q],
        like_at(text, pattern, i + n, j + n),
    ensures
        like_at(text, pattern, i, j),
    decreases n,
{
    if n > 0 {
        assert forall|q: int| 0 <= q < n - 1 implies text[i + 1 + q] == #[trigger] pattern[j + 1
            + q] by {
            assert(text[i + (q + 1)] == pattern[j + (q + 1)]);
        }
        lemma_literal_run(text, pattern, i + 1, j + 1, n - 1);
        assert(text[i + 0] == pattern[j + 0]);
        if pattern[j] == '%' {
            assert(like_at(text, pattern, i + 1, j));
        }
    }
}

/// A text that holds the keyword, character for character, matches the
/// search pattern of that keyword, whatever characters the keyword is
/// made of.
pub proof fn lemma_containment_matches(text: Seq<char>, keyword: Seq<char>)
    requires
        contains_text(text, keyword),
    ensures
        like_matches(text, search_pattern(keyword)),
{
    let pattern = search_pattern(keyword);
    let n = keyword.len() as int;
    let at = choose|at: int| occurs_at(text, keyword, at);
    assert(occurs_at(text, keyword, at));
    assert(pattern.len() == n + 2);
    assert(pattern[0] == '%');
    assert(pattern[n + 1] == '%');
    assert(like_at(text, pattern, text.len() as int, n + 2));
    assert(like_at(text, pattern, text.len() as int, n + 1));
    lemma_percent_skips(text, pattern, at + n, text.len() as int, n + 1);
    assert forall|q: int| 0 <= q < n implies text[at + q] == #[trigger] pattern[1 + q] by {
        assert(pattern[1 + q] == keyword[q]);
    }
    lemma_literal_run(text, pattern, at, 1, n);
    assert(like_at(text, pattern, at, 0));
    lemma_percent_skips(text, pattern, 0, at, 0);
}

/// The search pattern of a keyword.
pub fn make_search_pattern(keyword: &Vec<char>) -> (pattern: Vec<char>)
    ensures
        pattern@ == search_pattern(keyword@),
{
    let mut pattern: Vec<char> = Vec::new();
    pattern.push('%');
    let mut i: usize = 0;
    while i < keyword.len()
        invariant
            i <= keyword.len(),
            pattern@ == seq!['%'] + keyword@.take(i as int),
        decreases keyword.len() - i,
    {
        pattern.push(keyword[i]);
        assert(keyword@.take(i + 1) =~= keyword@.take(i as int).push(keyword@[i as int]));
        i += 1;
    }
    pattern.push('%');
    assert(keyword@.take(keyword.len() as int) =~= keyword@);
    pattern
}

/// Whether the whole of `text` matches `pattern`.
pub fn matches_pattern(text: &Vec<char>, pattern: &Vec<char>) -> (r: bool)
    ensures
        r == like_matches(text@, pattern@),
{
    let n = text.len();
    let m = pattern.len();
    // `row[j]` tells whether the text from `i` on matches the pattern from `j` on.
    let mut row: Vec<bool> = Vec::new();
    let mut j: usize = 0;
    while j < m
        invariant
            j <= m,
            row.len() == j,
        decreases m - j,
    {
        row.push(false);
        j += 1;
    }
    row.push(true);
    let mut j: usize = m;
    while j > 0
        invariant
            j <= m,
            n == text.len(),
            m == pattern.len(),
            row.len() == m + 1,
            forall|q: int| j <= q <= m ==> row@[q] == like_at(text@, pattern@, n as int, q),
        decreases j,
    {
        j -= 1;
        let here = pattern[j] == '%' && row[j + 1];
        row.set(j, here);
    }
    let mut i: usize = n;
    while i > 0
        invariant
            i <= n,
            n == text.len(),
            m == pattern.len(),
            row.len() == m + 1,
            forall|q: int| 0 <= q <= m ==> row@[q] == like_at(text@, pattern@, i as int, q),
        decreases i,
    {
        i -= 1;
        let ghost below = row@;
        // `carry` holds the entry for `i + 1` and `j + 1`.
        let mut carry: bool = row[m];
        row.set(m, false);
        let mut j: usize = m;
        while j > 0
            invariant
                j <= m,
                i < n,
                n == text.len(),
                m == pattern.len(),
                row.len() == m + 1,
                below.len() == m + 1,
                forall|q: int| 0 <= q <= m ==> below[q] == like_at(text@, pattern@, i + 1, q),
                forall|q: int| j <= q <= m ==> row@[q] == like_at(text@, pattern@, i as int, q),
                forall|q: int| 0 <= q < j ==> row@[q] == below[q],
                carry == below[j as int],
            decreases j,
        {
            j -= 1;
            let under = row[j];
            let c = pattern[j];
            let here = if c == '%' {
                row[j + 1] || under
            } else {
                (c == '_' || c == text[i]) && carry
            };
            let ghost above = row@;
            row.set(j, here);
            carry = under;
            proof {
                assert(above[j + 1] == like_at(text@, pattern@, i as int, j + 1));
                assert(below[j + 1] == like_at(text@, pattern@, i + 1, j + 1));
                assert(below[j as int] == like_at(text@, pattern@, i + 1, j as int));
                assert(here == like_at(text@, pattern@, i as int, j as int));
                assert forall|q: int| j <= q <= m implies row@[q] == like_at(
                    text@,
                    pattern@,
                    i as int,
                    q,
                ) by {
                    if q > j {
                        assert(row@[q] == above[q]);
                    }
                }
            }
        }
    }
    row[0]
}

} // verus!
