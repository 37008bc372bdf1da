//! Character-level helpers shared by the field parsers.

use vstd::prelude::*;

verus! {

/// Collects the characters of `text` into a vector, so that the parsers can
/// address them by position.
pub fn chars_of(text: &str) -> (chars: Vec<char>)
    ensures
        chars@ == text@,
{
    let mut chars: Vec<char> = Vec::new();
    for c in it: text.chars()
        invariant
            chars@ == it.seq().take(it.index() as int),
            it.seq() == text@,
    {
        chars.push(c);
    }
    chars
}

/// The positions, in ascending order, at which `mark` stands among the
/// first `n` characters of `s`.
pub open spec fn positions_of(s: Seq<char>, mark: char, n: int) -> Seq<int>
    decreases n,
{
    if n <= 0 {
        Seq::empty()
    } else if s[n - 1] == mark {
        positions_of(s, mark, n - 1).push(n - 1)
    } else {
        positions_of(s, mark, n - 1)
    }
}

/// Every entry of `positions_of` is a position below `n` at which `mark`
/// stands, and the entries ascend.
pub proof fn lemma_positions_of(s: Seq<char>, mark: char, n: int)
    requires
        0 <= n <= s.len(),
    ensures
        positions_of(s, mark, n).len() <= n,
        forall|j: int|
            0 <= j < positions_of(s, mark, n).len() ==> 0 <= (#[trigger] positions_of(
                s,
                mark,
                n,
            )[j]) < n && s[positions_of(s, mark, n)[j]] == mark,
        forall|j: int, l: int|
            0 <= j < l < positions_of(s, mark, n).len() ==> positions_of(s, mark, n)[j]
                < positions_of(s, mark, n)[l],
    decreases n,
{
    if n > 0 {
        lemma_positions_of(s, mark, n - 1);
    }
}

/// Finds every position at which `mark` stands in `chars`.
pub fn find_all(chars: &Vec<char>, mark: char) -> (found: Vec<usize>)
    ensures
        found.len() == positions_of(chars@, mark, chars.len() as int).len(),
        forall|j: int|
            0 <= j < found.len() ==> found[j] == positions_of(
                chars@,
                mark,
                chars.len() as int,
            )[j],
{
    let mut found: Vec<usize> = Vec::new();
    let mut i: usize = 0;
    while i < chars.len()
        invariant
            i <= chars.len(),
            found.len() == positions_of(chars@, mark, i as int).len(),
            forall|j: int|
                0 <= j < found.len() ==> found[j] == positions_of(chars@, mark, i as int)[j],
        decreases chars.len() - i,
    {
        if chars[i] == mark {
            found.push(i);
        }
        i = i + 1;
    }
    found
}

} // verus!
