//! Lexicographic order on character sequences, and the sorted,
//! duplicate-free form every candidate list in this library takes.

use vstd::prelude::*;

verus! {

/// Distinct characters have distinct code points.
proof fn lemma_char_code_injective(a: char, b: char)
    requires
        a as u32 == b as u32,
    ensures
        a == b,
{
}

/// `a` is lexicographically at or before `b`, comparing character
/// code points position by position.
pub open spec fn lex_le(a: Seq<char>, b: Seq<char>) -> bool
    decreases a.len(),
{
    if a.len() == 0 {
        true
    } else if b.len() == 0 {
        false
    } else if a[0] == b[0] {
        lex_le(a.drop_first(), b.drop_first())
    } else {
        (a[0] as u32) < (b[0] as u32)
    }
}

/// `a` is lexicographically strictly before `b`.
pub open spec fn lex_lt(a: Seq<char>, b: Seq<char>) -> bool {
    lex_le(a, b) && a != b
}

/// The order is total: of two sequences, one is at or before the other.
pub proof fn lemma_lex_le_total(a: Seq<char>, b: Seq<char>)
    ensures
        lex_le(a, b) || lex_le(b, a),
    decreases a.len(),
{
    if a.len() > 0 && b.len() > 0 {
        if a[0] == b[0] {
            lemma_lex_le_total(a.drop_first(), b.drop_first());
        } else {
            assert(a[0] as u32 != b[0] as u32) by {
                if a[0] as u32 == b[0] as u32 {
                    lemma_char_code_injective(a[0], b[0]);
                }
            }
        }
    }
}

/// The order is antisymmetric: mutually ordered sequences are equal.
pub proof fn lemma_lex_le_antisym(a: Seq<char>, b: Seq<char>)
    requires
        lex_le(a, b),
        lex_le(b, a),
    ensures
        a == b,
    decreases a.len(),
{
    if a.len() == 0 {
        assert(b.len() == 0);
        assert(a =~= b);
    } else {
        assert(a[0] == b[0]);
        lemma_lex_le_antisym(a.drop_first(), b.drop_first());
        assert(a.drop_first().len() == b.drop_first().len());
        assert(a.len() == b.len());
        assert forall|i: int| 0 <= i < a.len() implies a[i] == b[i] by {
            if i > 0 {
                assert(a[i] == a.drop_first()[i - 1]);
                assert(b[i] == b.drop_first()[i - 1]);
            }
        }
        assert(a =~= b);
    }
}

/// The order is transitive.
pub proof fn lemma_lex_le_trans(a: Seq<char>, b: Seq<char>, c: Seq<char>)
    requires
        lex_le(a, b),
        lex_le(b, c),
    ensures
        lex_le(a, c),
    decreases a.len(),
{
    if a.len() > 0 && b.len() > 0 && c.len() > 0 {
        if a[0] == b[0] && b[0] == c[0] {
            lemma_lex_le_trans(a.drop_first(), b.drop_first(), c.drop_first());
        }
    }
}

/// Strict order is transitive.
pub proof fn lemma_lex_lt_trans(a: Seq<char>, b: Seq<char>, c: Seq<char>)
    requires
        lex_lt(a, b),
        lex_lt(b, c),
    ensures
        lex_lt(a, c),
{
    lemma_lex_le_trans(a, b, c);
    if a == c {
        lemma_lex_le_antisym(a, b);
    }
}

/// `a` is at or before `b` exactly when `b` is not strictly before `a`.
pub proof fn lemma_lex_le_not_lt(a: Seq<char>, b: Seq<char>)
    ensures
        lex_le(a, b) <==> !lex_lt(b, a),
{
    lemma_lex_le_total(a, b);
    if lex_le(a, b) && lex_le(b, a) {
        lemma_lex_le_antisym(a, b);
    }
}

/// Every pair of positions is strictly ordered: the sequence is sorted
/// ascending and free of duplicates.
pub open spec fn strictly_sorted(s: Seq<Seq<char>>) -> bool {
    forall|i: int, j: int| 0 <= i < j < s.len() ==> lex_lt(s[i], s[j])
}

/// Membership in a sequence with one element inserted: the members are
/// those of the original sequence, and the new element.
pub proof fn lemma_insert_contains(s: Seq<Seq<char>>, i: int, x: Seq<char>)
    requires
        0 <= i <= s.len(),
    ensures
        forall|y: Seq<char>| s.insert(i, x).contains(y) <==> (s.contains(y) || y == x),
{
    s.insert_ensures(i, x);
    let t = s.insert(i, x);
    assert forall|y: Seq<char>| t.contains(y) implies (s.contains(y) || y == x) by {
        let k = choose|k: int| 0 <= k < t.len() && t[k] == y;
        if k < i {
            assert(s[k] == y);
        } else if k > i {
            assert(t[(k - 1) + 1] == s[k - 1]);
            assert(s[k - 1] == y);
        }
    }
    assert forall|y: Seq<char>| (s.contains(y) || y == x) implies t.contains(y) by {
        if y == x {
            assert(t[i] == y);
        } else {
            let k = choose|k: int| 0 <= k < s.len() && s[k] == y;
            if k < i {
                assert(t[k] == y);
            } else {
                assert(t[k + 1] == y);
            }
        }
    }
}

/// Dropping the first element keeps a strictly sorted sequence strictly
/// sorted.
proof fn lemma_strictly_sorted_drop_first(s: Seq<Seq<char>>)
    requires
        strictly_sorted(s),
        s.len() > 0,
    ensures
        strictly_sorted(s.drop_first()),
{
    assert forall|i: int, j: int|
        0 <= i < j < s.drop_first().len() implies lex_lt(s.drop_first()[i], s.drop_first()[j]) by {
        assert(s.drop_first()[i] == s[i + 1]);
        assert(s.drop_first()[j] == s[j + 1]);
    }
}

/// A strictly sorted sequence is determined by its members: two strictly
/// sorted sequences with the same members are equal.
pub proof fn lemma_strictly_sorted_unique(a: Seq<Seq<char>>, b: Seq<Seq<char>>)
    requires
        strictly_sorted(a),
        strictly_sorted(b),
        forall|x: Seq<char>| a.contains(x) <==> b.contains(x),
    ensures
        a == b,
    decreases a.len(),
{
    if a.len() == 0 {
        if b.len() > 0 {
            assert(b.contains(b[0]));
        }
        assert(a =~= b);
    } else if b.len() == 0 {
        assert(a.contains(a[0]));
        assert(a =~= b);
    } else {
        assert(a.contains(a[0]));
        assert(b.contains(b[0]));
        let k = choose|k: int| 0 <= k < b.len() && b[k] == a[0];
        let m = choose|m: int| 0 <= m < a.len() && a[m] == b[0];
        if k > 0 && m > 0 {
            assert(lex_lt(b[0], b[k]));
            assert(lex_lt(a[0], a[m]));
            lemma_lex_lt_trans(a[0], a[m], b[k]);
            assert(lex_lt(a[0], a[0]));
            assert(false);
        }
        assert(a[0] == b[0]);
        assert forall|x: Seq<char>| a.drop_first().contains(x) implies b.drop_first().contains(x) by {
            let i = choose|i: int| 0 <= i < a.drop_first().len() && a.drop_first()[i] == x;
            assert(a[i + 1] == x);
            assert(a.contains(x));
            assert(b.contains(x));
            let j = choose|j: int| 0 <= j < b.len() && b[j] == x;
            if j == 0 {
                assert(lex_lt(a[0], a[i + 1]));
                assert(false);
            }
            assert(b.drop_first()[j - 1] == x);
        }
        assert forall|x: Seq<char>| b.drop_first().contains(x) implies a.drop_first().contains(x) by {
            let i = choose|i: int| 0 <= i < b.drop_first().len() && b.drop_first()[i] == x;
            assert(b[i + 1] == x);
            assert(b.contains(x));
            assert(a.contains(x));
            let j = choose|j: int| 0 <= j < a.len() && a[j] == x;
            if j == 0 {
                assert(lex_lt(b[0], b[i + 1]));
                assert(false);
            }
            assert(a.drop_first()[j - 1] == x);
        }
        lemma_strictly_sorted_drop_first(a);
        lemma_strictly_sorted_drop_first(b);
        lemma_strictly_sorted_unique(a.drop_first(), b.drop_first());
        assert(a.len() == b.len());
        assert forall|i: int| 0 <= i < a.len() implies a[i] == b[i] by {
            if i > 0 {
                assert(a[i] == a.drop_first()[i - 1]);
                assert(b[i] == b.drop_first()[i - 1]);
            }
        }
        assert(a =~= b);
    }
}

/// `a` is lexicographically at or before `b`.
pub fn lex_le_exec(a: &str, b: &str) -> (r: bool)
    ensures
        r == lex_le(a@, b@),
{
    let alen: usize = a.unicode_len();
    let blen: usize = b.unicode_len();
    let mut i: usize = 0;
    proof {
        assert(a@.skip(0) =~= a@);
        assert(b@.skip(0) =~= b@);
    }
    while i < alen && i < blen
        invariant
            0 <= i <= alen,
            0 <= i <= blen,
            alen == a@.len(),
            blen == b@.len(),
            lex_le(a@, b@) == lex_le(a@.skip(i as int), b@.skip(i as int)),
        decreases alen - i,
    {
        let ca = a.get_char(i);
        let cb = b.get_char(i);
        proof {
            assert(a@.skip(i as int)[0] == a@[i as int]);
            assert(b@.skip(i as int)[0] == b@[i as int]);
            assert(a@.skip(i as int).drop_first() =~= a@.skip(i + 1));
            assert(b@.skip(i as int).drop_first() =~= b@.skip(i + 1));
        }
        if ca != cb {
            return (ca as u32) < (cb as u32);
        }
        i = i + 1;
    }
    proof {
        if i == alen {
            assert(a@.skip(i as int).len() == 0);
        } else {
            assert(b@.skip(i as int).len() == 0);
            assert(a@.skip(i as int).len() > 0);
        }
    }
    i == alen
}

/// Least position of `r` whose string is at or after `x`, or `r@.len()`
/// when every string of `r` is strictly before `x`.
fn lower_bound(r: &Vec<String>, x: &String) -> (j: usize)
    requires
        strictly_sorted(r.deep_view()),
    ensures
        j <= r@.len(),
        forall|k: int| 0 <= k < j ==> lex_lt(r.deep_view()[k], x@),
        j < r@.len() ==> lex_le(x@, r.deep_view()[j as int]),
{
    let n = r.len();
    let mut j: usize = 0;
    while j < n
        invariant
            0 <= j <= n,
            n == r@.len(),
            strictly_sorted(r.deep_view()),
            forall|k: int| 0 <= k < j ==> lex_lt(r.deep_view()[k], x@),
        decreases n - j,
    {
        if lex_le_exec(x.as_str(), r[j].as_str()) {
            proof {
                assert(r.deep_view()[j as int] == r@[j as int]@);
            }
            return j;
        }
        proof {
            lemma_lex_le_not_lt(x@, r.deep_view()[j as int]);
        }
        j = j + 1;
    }
    j
}

/// Inserts `x` into the strictly sorted list `r`, keeping it strictly
/// sorted; a string already present is not added again.
fn insert_unique_sorted(r: &mut Vec<String>, x: &String)
    requires
        strictly_sorted(old(r).deep_view()),
    ensures
        strictly_sorted(final(r).deep_view()),
        forall|y: Seq<char>|
            final(r).deep_view().contains(y) <==> (old(r).deep_view().contains(y) || y == x@),
{
    let ghost dv = r.deep_view();
    let j = lower_bound(r, x);
    if j < r.len() && *x == r[j] {
        proof {
            assert(dv[j as int] == x@);
            assert(dv.contains(x@));
        }
        return ;
    }
    proof {
        if j < r@.len() {
            assert(x@ != r@[j as int]@);
            assert(lex_lt(x@, dv[j as int]));
        }
    }
    r.insert(j, x.clone());
    proof {
        let newdv = r.deep_view();
        dv.insert_ensures(j as int, x@);
        assert forall|i: int| 0 <= i < newdv.len() implies newdv[i] == dv.insert(j as int, x@)[i] by {
            if i < j {
                assert(r@[i] == old(r)@[i]);
            } else if i == j {
                assert(r@[i]@ == x@);
            } else {
                assert(r@[i] == old(r)@[i - 1]);
            }
        }
        assert(newdv =~= dv.insert(j as int, x@));
        lemma_insert_contains(dv, j as int, x@);
        assert forall|p: int, q: int| 0 <= p < q < newdv.len() implies lex_lt(newdv[p], newdv[q]) by {
            if q < j {
                assert(lex_lt(dv[p], dv[q]));
            } else if q == j {
                assert(lex_lt(dv[p], x@));
            } else if p < j {
                assert(newdv[q] == dv[q - 1]);
                if q - 1 == j {
                    assert(lex_lt(dv[p], x@));
                    assert(lex_lt(x@, dv[j as int]));
                    lemma_lex_lt_trans(dv[p], x@, dv[j as int]);
                } else {
                    assert(lex_lt(dv[p], dv[q - 1]));
                }
            } else if p == j {
                assert(newdv[p] == x@);
                assert(newdv[q] == dv[q - 1]);
                if q - 1 == j {
                    assert(lex_lt(x@, dv[j as int]));
                } else {
                    assert(lex_lt(x@, dv[j as int]));
                    assert(lex_lt(dv[j as int], dv[q - 1]));
                    lemma_lex_lt_trans(x@, dv[j as int], dv[q - 1]);
                }
            } else {
                assert(newdv[p] == dv[p - 1]);
                assert(newdv[q] == dv[q - 1]);
                assert(lex_lt(dv[p - 1], dv[q - 1]));
            }
        }
    }
}

/// Sorts the strings ascending and removes duplicates: the result is
/// strictly sorted and holds exactly the members of the input.
pub fn sort_dedup(v: &Vec<String>) -> (r: Vec<String>)
    ensures
        strictly_sorted(r.deep_view()),
        forall|x: Seq<char>| r.deep_view().contains(x) <==> v.deep_view().contains(x),
{
    let mut r: Vec<String> = Vec::new();
    let n = v.len();
    proof {
        assert(r.deep_view() =~= Seq::<Seq<char>>::empty());
    }
    let mut idx: usize = 0;
    while idx < n
        invariant
            0 <= idx <= n,
            n == v@.len(),
            strictly_sorted(r.deep_view()),
            forall|x: Seq<char>|
                r.deep_view().contains(x) <==> v.deep_view().take(idx as int).contains(x),
        decreases n - idx,
    {
        let ghost pre = v.deep_view().take(idx as int);
        insert_unique_sorted(&mut r, &v[idx]);
        proof {
            let post = v.deep_view().take(idx + 1);
            assert(post =~= pre.insert(idx as int, v.deep_view()[idx as int]));
            lemma_insert_contains(pre, idx as int, v.deep_view()[idx as int]);
            assert(v.deep_view()[idx as int] == v@[idx as int]@);
        }
        idx = idx + 1;
    }
    proof {
        assert(v.deep_view().take(n as int) =~= v.deep_view());
    }
    r
}

} // verus!
