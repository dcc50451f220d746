//! Character-level searching over strings, with the spec functions the
//! rest of the library states its contracts over.

use vstd::prelude::*;

verus! {

/// Some position of `s` holds the character `c`.
pub open spec fn has_char(s: Seq<char>, c: char) -> bool {
    exists|i: int| 0 <= i < s.len() && s[i] == c
}

/// Least position `>= from` holding `c`, or `s.len()` when there is none.
pub open spec fn first_at_or_after(s: Seq<char>, c: char, from: int) -> int
    decreases s.len() - from,
{
    if from < 0 || from >= s.len() {
        s.len() as int
    } else if s[from] == c {
        from
    } else {
        first_at_or_after(s, c, from + 1)
    }
}

/// What `first_at_or_after` returns: a position of `c` with none of `c`
/// before it (from `from` on), or `s.len()` when `c` does not occur there.
pub proof fn lemma_first_at_or_after(s: Seq<char>, c: char, from: int)
    requires
        0 <= from <= s.len(),
    ensures
        from <= first_at_or_after(s, c, from) <= s.len(),
        first_at_or_after(s, c, from) < s.len() ==> s[first_at_or_after(s, c, from)] == c,
        forall|j: int| from <= j < first_at_or_after(s, c, from) ==> s[j] != c,
    decreases s.len() - from,
{
    if from < s.len() && s[from] != c {
        lemma_first_at_or_after(s, c, from + 1);
    }
}

/// `first_at_or_after` finds a position exactly when `c` occurs at or
/// after `from`.
pub proof fn lemma_first_found_iff(s: Seq<char>, c: char, from: int)
    requires
        0 <= from <= s.len(),
    ensures
        first_at_or_after(s, c, from) < s.len() <==> exists|i: int| from <= i < s.len() && s[i] == c,
{
    lemma_first_at_or_after(s, c, from);
    let r = first_at_or_after(s, c, from);
    if r < s.len() {
        assert(from <= r < s.len() && s[r] == c);
    }
}

/// Searching from `pos` in `s` finds the same position as searching the
/// suffix of `s` that starts at `pos`.
pub proof fn lemma_first_skip(s: Seq<char>, c: char, pos: int)
    requires
        0 <= pos <= s.len(),
    ensures
        first_at_or_after(s, c, pos) == pos + first_at_or_after(s.skip(pos), c, 0),
{
    let r1 = first_at_or_after(s, c, pos);
    let r2 = first_at_or_after(s.skip(pos), c, 0);
    lemma_first_at_or_after(s, c, pos);
    lemma_first_at_or_after(s.skip(pos), c, 0);
    if r1 < pos + r2 {
        assert(s.skip(pos)[r1 - pos] == s[r1]);
        assert(false);
    }
    if r1 > pos + r2 {
        assert(r2 < s.skip(pos).len());
        assert(s.skip(pos)[r2] == s[pos + r2]);
        assert(false);
    }
}

/// Greatest position of `s` holding `c`, or `-1` when there is none.
pub open spec fn last_index_of(s: Seq<char>, c: char) -> int
    decreases s.len(),
{
    if s.len() == 0 {
        -1
    } else if s[s.len() - 1] == c {
        s.len() - 1
    } else {
        last_index_of(s.drop_last(), c)
    }
}

/// What `last_index_of` returns: a position of `c` with none of `c` after
/// it, or `-1` when `c` does not occur.
pub proof fn lemma_last_index_of(s: Seq<char>, c: char)
    ensures
        -1 <= last_index_of(s, c) < s.len(),
        last_index_of(s, c) >= 0 ==> s[last_index_of(s, c)] == c,
        forall|j: int| last_index_of(s, c) < j < s.len() ==> s[j] != c,
        last_index_of(s, c) == -1 ==> !has_char(s, c),
    decreases s.len(),
{
    if s.len() > 0 && s[s.len() - 1] != c {
        lemma_last_index_of(s.drop_last(), c);
        assert(forall|j: int| 0 <= j < s.len() - 1 ==> s[j] == s.drop_last()[j]);
    }
}

/// First position `>= from` of `s` holding `c`, as a `usize`;
/// `s@.len()` when `c` does not occur there.
pub fn find_char_from(s: &str, c: char, from: usize) -> (r: usize)
    requires
        from <= s@.len(),
    ensures
        r == first_at_or_after(s@, c, from as int),
{
    let n: usize = s.unicode_len();
    let mut i: usize = from;
    while i < n
        invariant
            from <= i <= n,
            n == s@.len(),
            first_at_or_after(s@, c, from as int) == first_at_or_after(s@, c, i as int),
        decreases n - i,
    {
        if s.get_char(i) == c {
            return i;
        }
        i = i + 1;
    }
    n
}

/// Greatest position of `s` holding `c`, or `None` when `c` does not occur.
pub fn rfind_char(s: &str, c: char) -> (r: Option<usize>)
    ensures
        match r {
            Some(i) => i == last_index_of(s@, c),
            None => last_index_of(s@, c) == -1,
        },
{
    let n: usize = s.unicode_len();
    proof {
        assert(s@.take(n as int) =~= s@);
    }
    let mut i: usize = n;
    while i > 0
        invariant
            0 <= i <= n,
            n == s@.len(),
            last_index_of(s@, c) == last_index_of(s@.take(i as int), c),
        decreases i,
    {
        i = i - 1;
        proof {
            assert(s@.take(i + 1).drop_last() =~= s@.take(i as int));
            assert(s@.take(i + 1).last() == s@[i as int]);
        }
        if s.get_char(i) == c {
            return Some(i);
        }
    }
    proof {
        assert(s@.take(0) =~= Seq::<char>::empty());
    }
    None
}

/// `needle` occurs contiguously somewhere in `hay`.
pub open spec fn is_substring(hay: Seq<char>, needle: Seq<char>) -> bool {
    exists|i: int|
        0 <= i <= hay.len() - needle.len() && #[trigger] hay.subrange(i, i + needle.len())
            == needle
}

/// The characters of `needle` all stand in `hay` from position `at` on.
fn matches_at(hay: &str, needle: &str, at: usize) -> (r: bool)
    requires
        at + needle@.len() <= hay@.len(),
    ensures
        r == (hay@.subrange(at as int, at + needle@.len()) == needle@),
{
    let n = needle.unicode_len();
    let hl = hay.unicode_len();
    let mut j: usize = 0;
    while j < n
        invariant
            0 <= j <= n,
            n == needle@.len(),
            hl == hay@.len(),
            at + n <= hl,
            forall|k: int| 0 <= k < j ==> hay@[at + k] == needle@[k],
        decreases n - j,
    {
        if hay.get_char(at + j) != needle.get_char(j) {
            proof {
                assert(hay@.subrange(at as int, at + n)[j as int] == hay@[at + j]);
            }
            return false;
        }
        j = j + 1;
    }
    proof {
        assert(hay@.subrange(at as int, at + n) =~= needle@);
    }
    true
}

/// `needle` occurs contiguously somewhere in `hay`.
pub fn contains_substr(hay: &str, needle: &str) -> (r: bool)
    ensures
        r == is_substring(hay@, needle@),
{
    let h = hay.unicode_len();
    let n = needle.unicode_len();
    if n > h {
        return false;
    }
    if n == 0 {
        proof {
            assert(needle@.len() == 0);
            assert(hay@.subrange(0, 0 + needle@.len() as int) =~= needle@);
        }
        return true;
    }
    let mut i: usize = 0;
    while i <= h - n
        invariant
            0 <= i <= h - n + 1,
            h == hay@.len(),
            n == needle@.len(),
            0 < n <= h,
            forall|k: int| 0 <= k < i ==> #[trigger] hay@.subrange(k, k + n) != needle@,
        decreases h - i,
    {
        if matches_at(hay, needle, i) {
            return true;
        }
        i = i + 1;
    }
    false
}

/// Relies on `String::push`: appends one character at the end of the
/// string and changes nothing else.
#[verifier::external_body]
pub fn push_char(s: &mut String, c: char)
    ensures
        final(s)@ == old(s)@.push(c),
{
    s.push(c)
}

/// Some position of `s` holds the character `c`.
pub fn str_has_char(s: &str, c: char) -> (r: bool)
    ensures
        r == has_char(s@, c),
{
    let n = find_char_from(s, c, 0);
    proof {
        lemma_first_found_iff(s@, c, 0);
    }
    n < s.unicode_len()
}

} // verus!
