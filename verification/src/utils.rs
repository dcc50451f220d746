//! Small string utilities: testing the final character of a string
//! against a character set, and finding the first character of a set.

use vstd::prelude::*;

use crate::text::str_has_char;

verus! {

/// Least position `>= from` of `s` holding any character of `cs`, or
/// `s.len()` when none occurs there.
pub open spec fn first_of_any_at_or_after(s: Seq<char>, cs: Seq<char>, from: int) -> int
    decreases s.len() - from,
{
    if from < 0 || from >= s.len() {
        s.len() as int
    } else if cs.contains(s[from]) {
        from
    } else {
        first_of_any_at_or_after(s, cs, from + 1)
    }
}

/// What `first_of_any_at_or_after` returns: a position holding a
/// character of `cs`, none of `cs` before it, or `s.len()` when no
/// character of `cs` occurs at or after `from`.
pub proof fn lemma_first_of_any(s: Seq<char>, cs: Seq<char>, from: int)
    requires
        0 <= from <= s.len(),
    ensures
        from <= first_of_any_at_or_after(s, cs, from) <= s.len(),
        first_of_any_at_or_after(s, cs, from) < s.len() ==> cs.contains(
            s[first_of_any_at_or_after(s, cs, from)],
        ),
        forall|j: int| from <= j < first_of_any_at_or_after(s, cs, from) ==> !cs.contains(s[j]),
    decreases s.len() - from,
{
    if from < s.len() && !cs.contains(s[from]) {
        lemma_first_of_any(s, cs, from + 1);
    }
}

/// The final character of `s` is one of the characters of `cs`.
pub fn ends_with_any(s: &String, cs: &String) -> (r: bool)
    ensures
        r == (s@.len() > 0 && cs@.contains(s@.last())),
{
    let n = s.as_str().unicode_len();
    if n == 0 {
        return false;
    }
    let c = s.as_str().get_char(n - 1);
    str_has_char(cs.as_str(), c)
}

/// Least position of `s` holding any character of `cs`, or `usize::MAX`
/// when no character of `cs` occurs in `s`.
pub fn find_first_of_any(s: &String, cs: &String) -> (r: usize)
    ensures
        first_of_any_at_or_after(s@, cs@, 0) < s@.len() ==> r == first_of_any_at_or_after(
            s@,
            cs@,
            0,
        ),
        first_of_any_at_or_after(s@, cs@, 0) == s@.len() ==> r == usize::MAX,
{
    proof {
        lemma_first_of_any(s@, cs@, 0);
    }
    let n = s.as_str().unicode_len();
    let mut i: usize = 0;
    while i < n
        invariant
            0 <= i <= n,
            n == s@.len(),
            first_of_any_at_or_after(s@, cs@, 0) == first_of_any_at_or_after(s@, cs@, i as int),
        decreases n - i,
    {
        if str_has_char(cs.as_str(), s.as_str().get_char(i)) {
            return i;
        }
        i = i + 1;
    }
    usize::MAX
}

} // verus!
