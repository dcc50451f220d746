//! The two filters of the pipeline: dropping known standard-library
//! headers, and dropping headers the scanned tree itself provides. Also
//! the two path judgements the scanner needs: the final segment of a
//! path, and whether an extension marks a C/C++ file.

use vstd::prelude::*;

use crate::order::sort_dedup;
use crate::order::strictly_sorted;
use crate::text::contains_substr;
use crate::text::has_char;
use crate::text::is_substring;
use crate::text::last_index_of;
use crate::text::lemma_last_index_of;
use crate::text::rfind_char;

verus! {

/// The final path segment of `p`: the part after the last '/', or all of
/// `p` when it has no '/'.
pub open spec fn basename(p: Seq<char>) -> Seq<char> {
    if has_char(p, '/') {
        p.skip(last_index_of(p, '/') + 1)
    } else {
        p
    }
}

/// The final path segment of `path`.
pub fn final_path_segment(path: &String) -> (r: String)
    ensures
        r@ == basename(path@),
{
    proof {
        lemma_last_index_of(path@, '/');
    }
    let s = path.as_str();
    match rfind_char(s, '/') {
        Some(i) => {
            proof {
                assert(has_char(path@, '/'));
            }
            let n = s.unicode_len();
            let t = s.substring_char(i + 1, n);
            proof {
                assert(t@ =~= basename(path@));
            }
            t.to_owned()
        },
        None => path.clone(),
    }
}

/// The extension (with its leading dot) marks a C/C++ source or header
/// file: it holds the substring ".c" or the substring ".h".
pub fn is_source_extension(ext: &String) -> (r: bool)
    ensures
        r == (is_substring(ext@, seq!['.', 'c']) || is_substring(ext@, seq!['.', 'h'])),
{
    proof {
        reveal_strlit(".c");
        reveal_strlit(".h");
        assert(".c"@ =~= seq!['.', 'c']);
        assert(".h"@ =~= seq!['.', 'h']);
    }
    contains_substr(ext.as_str(), ".c") || contains_substr(ext.as_str(), ".h")
}

/// Some string of `v` has the view of `x`.
pub fn contains_string(v: &Vec<String>, x: &String) -> (r: bool)
    ensures
        r == v.deep_view().contains(x@),
{
    let n = v.len();
    let mut i: usize = 0;
    while i < n
        invariant
            0 <= i <= n,
            n == v@.len(),
            forall|k: int| 0 <= k < i ==> v.deep_view()[k] != x@,
        decreases n - i,
    {
        if v[i] == *x {
            proof {
                assert(v.deep_view()[i as int] == x@);
            }
            return true;
        }
        i = i + 1;
    }
    false
}

/// Drops every token that exactly matches a known header, then sorts the
/// rest ascending and removes duplicates.
pub fn remove_stdlib_headers(includes: &Vec<String>, headers: &Vec<String>) -> (r: Vec<String>)
    ensures
        strictly_sorted(r.deep_view()),
        forall|t: Seq<char>|
            r.deep_view().contains(t) <==> (includes.deep_view().contains(t)
                && !headers.deep_view().contains(t)),
{
    let mut kept: Vec<String> = Vec::new();
    let n = includes.len();
    let mut i: usize = 0;
    proof {
        assert(includes.deep_view().take(0) =~= Seq::<Seq<char>>::empty());
    }
    while i < n
        invariant
            0 <= i <= n,
            n == includes@.len(),
            forall|t: Seq<char>|
                kept.deep_view().contains(t) <==> (includes.deep_view().take(i as int).contains(t)
                    && !headers.deep_view().contains(t)),
        decreases n - i,
    {
        let ghost pre = kept.deep_view();
        let ghost dv = includes.deep_view();
        proof {
            assert(dv[i as int] == includes@[i as int]@);
        }
        let keep = !contains_string(headers, &includes[i]);
        if keep {
            kept.push(includes[i].clone());
            proof {
                assert(kept.deep_view() =~= pre.insert(pre.len() as int, dv[i as int]));
                crate::order::lemma_insert_contains(pre, pre.len() as int, dv[i as int]);
            }
        }
        proof {
            let cur = kept.deep_view();
            let hdr = headers.deep_view();
            assert(dv.take(i + 1) =~= dv.take(i as int).insert(i as int, dv[i as int]));
            crate::order::lemma_insert_contains(dv.take(i as int), i as int, dv[i as int]);
            assert forall|t: Seq<char>|
                cur.contains(t) <==> (dv.take(i + 1).contains(t) && !hdr.contains(t)) by {
                assert(dv.take(i + 1).contains(t) <==> (dv.take(i as int).contains(t) || t
                    == dv[i as int]));
                if keep {
                    assert(cur.contains(t) <==> (pre.contains(t) || t == dv[i as int]));
                }
            }
        }
        i = i + 1;
    }
    proof {
        assert(includes.deep_view().take(n as int) =~= includes.deep_view());
    }
    sort_dedup(&kept)
}

/// The tokens of `includes`, in order, whose final path segment is not
/// one of `locals`.
pub open spec fn drop_local(includes: Seq<Seq<char>>, locals: Seq<Seq<char>>) -> Seq<Seq<char>>
    decreases includes.len(),
{
    if includes.len() == 0 {
        Seq::empty()
    } else {
        let rest = drop_local(includes.drop_last(), locals);
        if locals.contains(basename(includes.last())) {
            rest
        } else {
            rest.push(includes.last())
        }
    }
}

/// Members of the filtered token list: exactly the tokens whose final
/// path segment is not a local filename.
pub proof fn lemma_drop_local_members(includes: Seq<Seq<char>>, locals: Seq<Seq<char>>)
    ensures
        forall|t: Seq<char>|
            drop_local(includes, locals).contains(t) <==> (includes.contains(t)
                && !locals.contains(basename(t))),
    decreases includes.len(),
{
    if includes.len() > 0 {
        lemma_drop_local_members(includes.drop_last(), locals);
        let rest = drop_local(includes.drop_last(), locals);
        let last = includes.last();
        assert forall|t: Seq<char>| includes.contains(t) implies (includes.drop_last().contains(t)
            || t == last) by {
            let k = choose|k: int| 0 <= k < includes.len() && includes[k] == t;
            if k < includes.len() - 1 {
                assert(includes.drop_last()[k] == t);
            }
        }
        assert forall|t: Seq<char>| includes.drop_last().contains(t) implies includes.contains(
            t,
        ) by {
            let k = choose|k: int| 0 <= k < includes.drop_last().len() && includes.drop_last()[k]
                == t;
            assert(includes[k] == t);
        }
        assert(includes.contains(last));
        if !locals.contains(basename(last)) {
            assert(rest.push(last) =~= rest.insert(rest.len() as int, last));
            crate::order::lemma_insert_contains(rest, rest.len() as int, last);
        }
    }
}

/// Drops every token whose final path segment names a file of the
/// scanned tree; the other tokens are kept in order.
pub fn remove_local_files_from_includes(includes: &Vec<String>, local_files: &Vec<String>) -> (r:
    Vec<String>)
    ensures
        r.deep_view() == drop_local(includes.deep_view(), local_files.deep_view()),
        forall|t: Seq<char>|
            r.deep_view().contains(t) <==> (includes.deep_view().contains(t)
                && !local_files.deep_view().contains(basename(t))),
{
    let mut kept: Vec<String> = Vec::new();
    let n = includes.len();
    let mut i: usize = 0;
    proof {
        assert(includes.deep_view().take(0) =~= Seq::<Seq<char>>::empty());
        assert(kept.deep_view() =~= drop_local(
            includes.deep_view().take(0),
            local_files.deep_view(),
        ));
    }
    while i < n
        invariant
            0 <= i <= n,
            n == includes@.len(),
            kept.deep_view() =~= drop_local(
                includes.deep_view().take(i as int),
                local_files.deep_view(),
            ),
        decreases n - i,
    {
        let ghost pre = kept.deep_view();
        let ghost dv = includes.deep_view();
        let base = final_path_segment(&includes[i]);
        if !contains_string(local_files, &base) {
            kept.push(includes[i].clone());
            proof {
                assert(kept.deep_view() =~= pre.push(dv[i as int]));
            }
        }
        proof {
            assert(dv.take(i + 1).drop_last() =~= dv.take(i as int));
            assert(dv.take(i + 1).last() == dv[i as int]);
            assert(base@ == basename(dv[i as int]));
        }
        i = i + 1;
    }
    proof {
        assert(includes.deep_view().take(n as int) =~= includes.deep_view());
        lemma_drop_local_members(includes.deep_view(), local_files.deep_view());
    }
    kept
}

} // verus!
