//! Derivation of a canonical, lowercase candidate package name from a
//! raw header token.

use vstd::prelude::*;

use crate::order::strictly_sorted;
use crate::order::sort_dedup;
use crate::text::first_at_or_after;
use crate::text::find_char_from;
use crate::text::has_char;
use crate::text::lemma_first_at_or_after;
use crate::text::lemma_first_found_iff;
use crate::text::push_char;
use crate::text::str_has_char;
use crate::utils::first_of_any_at_or_after;
use crate::utils::lemma_first_of_any;

verus! {

/// The ten decimal digit characters.
pub open spec fn digits() -> Seq<char> {
    seq!['0', '1', '2', '3', '4', '5', '6', '7', '8', '9']
}

/// A character is a decimal digit exactly when its code point lies
/// between those of '0' and '9'.
pub proof fn lemma_digit_code(c: char)
    ensures
        digits().contains(c) <==> (48 <= c as u32 <= 57),
{
    if 48 <= c as u32 <= 57 {
        if c as u32 == 48 {
            assert(c == '0');
            assert(digits()[0] == c);
        } else if c as u32 == 49 {
            assert(c == '1');
            assert(digits()[1] == c);
        } else if c as u32 == 50 {
            assert(c == '2');
            assert(digits()[2] == c);
        } else if c as u32 == 51 {
            assert(c == '3');
            assert(digits()[3] == c);
        } else if c as u32 == 52 {
            assert(c == '4');
            assert(digits()[4] == c);
        } else if c as u32 == 53 {
            assert(c == '5');
            assert(digits()[5] == c);
        } else if c as u32 == 54 {
            assert(c == '6');
            assert(digits()[6] == c);
        } else if c as u32 == 55 {
            assert(c == '7');
            assert(digits()[7] == c);
        } else if c as u32 == 56 {
            assert(c == '8');
            assert(digits()[8] == c);
        } else {
            assert(c == '9');
            assert(digits()[9] == c);
        }
    }
    if digits().contains(c) {
        let i = choose|i: int| 0 <= i < digits().len() && digits()[i] == c;
        assert(48 <= digits()[i] as u32 <= 57);
    }
}

/// The character `c` is a decimal digit.
pub fn is_digit(c: char) -> (r: bool)
    ensures
        r == digits().contains(c),
{
    proof {
        lemma_digit_code(c);
    }
    let u = c as u32;
    48 <= u && u <= 57
}

/// An ASCII uppercase letter mapped to its lowercase form; every other
/// character kept as it is.
pub open spec fn lower_char(c: char) -> char {
    if 65 <= c as u32 <= 90 {
        (((c as u32) + 32) as u8) as char
    } else {
        c
    }
}

/// Every character of `s` mapped through `lower_char`.
pub open spec fn lower_seq(s: Seq<char>) -> Seq<char> {
    Seq::new(s.len(), |i: int| lower_char(s[i]))
}

/// The stem of a header token: the part before the first '/' when the
/// token has one, else the part before the first '.', else the whole
/// token.
pub open spec fn token_stem(s: Seq<char>) -> Seq<char> {
    if has_char(s, '/') {
        s.take(first_at_or_after(s, '/', 0))
    } else if has_char(s, '.') {
        s.take(first_at_or_after(s, '.', 0))
    } else {
        s
    }
}

/// Version-suffix stripping: a stem that ends in a decimal digit is cut
/// at the first digit occurring anywhere in it; any other stem is kept.
pub open spec fn strip_version(s: Seq<char>) -> Seq<char> {
    if s.len() > 0 && digits().contains(s.last()) {
        s.take(first_of_any_at_or_after(s, digits(), 0))
    } else {
        s
    }
}

/// The candidate package name derived from one header token: the stem,
/// version-stripped, in lowercase.
pub open spec fn spec_pkg_name(s: Seq<char>) -> Seq<char> {
    lower_seq(strip_version(token_stem(s)))
}

/// The candidate package names of a list of header tokens, one per token
/// and in token order.
pub open spec fn pkg_names_of(headers: Seq<Seq<char>>) -> Seq<Seq<char>> {
    headers.map_values(|h: Seq<char>| spec_pkg_name(h))
}

/// `c` mapped through `lower_char`.
fn lower_char_exec(c: char) -> (r: char)
    ensures
        r == lower_char(c),
{
    let u = c as u32;
    if 65 <= u && u <= 90 {
        ((u + 32) as u8) as char
    } else {
        c
    }
}

/// A copy of `s` with every character mapped through `lower_char`.
fn lower_string(s: &str) -> (r: String)
    ensures
        r@ == lower_seq(s@),
{
    let n = s.unicode_len();
    let mut out = String::new();
    let mut i: usize = 0;
    while i < n
        invariant
            0 <= i <= n,
            n == s@.len(),
            out@ =~= lower_seq(s@).take(i as int),
        decreases n - i,
    {
        let c = lower_char_exec(s.get_char(i));
        push_char(&mut out, c);
        proof {
            assert(lower_seq(s@).take(i + 1) =~= lower_seq(s@).take(i as int).push(
                lower_char(s@[i as int]),
            ));
        }
        i = i + 1;
    }
    proof {
        assert(lower_seq(s@).take(n as int) =~= lower_seq(s@));
    }
    out
}

/// Least position of `s` holding a decimal digit, or `s@.len()` when `s`
/// holds none.
fn find_first_digit(s: &str) -> (r: usize)
    ensures
        r == first_of_any_at_or_after(s@, digits(), 0),
{
    proof {
        lemma_first_of_any(s@, digits(), 0);
    }
    let n = s.unicode_len();
    let mut i: usize = 0;
    while i < n
        invariant
            0 <= i <= n,
            n == s@.len(),
            first_of_any_at_or_after(s@, digits(), 0) == first_of_any_at_or_after(
                s@,
                digits(),
                i as int,
            ),
        decreases n - i,
    {
        if is_digit(s.get_char(i)) {
            return i;
        }
        i = i + 1;
    }
    n
}

/// The canonical candidate package name of one header token: the part
/// before the first '/' (else the first '.', else the whole token), cut
/// at the first digit when it ends in a digit, in lowercase.
pub fn extract_pkg_name(include_name: &String) -> (r: String)
    ensures
        r@ == spec_pkg_name(include_name@),
{
    let s = include_name.as_str();
    let n = s.unicode_len();
    let stem: &str = if str_has_char(s, '/') {
        proof {
            lemma_first_at_or_after(s@, '/', 0);
        }
        let i = find_char_from(s, '/', 0);
        let t = s.substring_char(0, i);
        proof {
            assert(t@ =~= token_stem(s@));
        }
        t
    } else if str_has_char(s, '.') {
        proof {
            lemma_first_at_or_after(s@, '.', 0);
        }
        let i = find_char_from(s, '.', 0);
        let t = s.substring_char(0, i);
        proof {
            assert(t@ =~= token_stem(s@));
        }
        t
    } else {
        s
    };
    let m = stem.unicode_len();
    let cut: &str = if m > 0 && is_digit(stem.get_char(m - 1)) {
        proof {
            lemma_first_of_any(stem@, digits(), 0);
            assert(stem@.last() == stem@[m - 1]);
        }
        let d = find_first_digit(stem);
        let t = stem.substring_char(0, d);
        proof {
            assert(t@ =~= strip_version(stem@));
        }
        t
    } else {
        stem
    };
    lower_string(cut)
}

/// The deduplicated, ascending list of candidate package names of a list
/// of header tokens.
pub fn extract_names_from_headers(headers: &Vec<String>) -> (r: Vec<String>)
    ensures
        strictly_sorted(r.deep_view()),
        forall|x: Seq<char>|
            r.deep_view().contains(x) <==> pkg_names_of(headers.deep_view()).contains(x),
{
    let mut names: Vec<String> = Vec::new();
    let n = headers.len();
    let mut i: usize = 0;
    proof {
        assert(names.deep_view() =~= pkg_names_of(headers.deep_view().take(0)));
    }
    while i < n
        invariant
            0 <= i <= n,
            n == headers@.len(),
            names.deep_view() =~= pkg_names_of(headers.deep_view().take(i as int)),
        decreases n - i,
    {
        let ghost prev = names.deep_view();
        let name = extract_pkg_name(&headers[i]);
        names.push(name);
        proof {
            let hdv = headers.deep_view();
            assert(hdv[i as int] == headers@[i as int]@);
            assert(names.deep_view() =~= prev.push(spec_pkg_name(hdv[i as int])));
            assert forall|k: int| 0 <= k < i + 1 implies pkg_names_of(hdv.take(i + 1))[k]
                == names.deep_view()[k] by {
                assert(hdv.take(i + 1)[k] == hdv[k]);
                if k < i {
                    assert(pkg_names_of(hdv.take(i as int))[k] == spec_pkg_name(
                        hdv.take(i as int)[k],
                    ));
                    assert(hdv.take(i as int)[k] == hdv[k]);
                }
            }
            assert(names.deep_view() =~= pkg_names_of(hdv.take(i + 1)));
        }
        i = i + 1;
    }
    proof {
        assert(headers.deep_view().take(n as int) =~= headers.deep_view());
    }
    sort_dedup(&names)
}

} // verus!
