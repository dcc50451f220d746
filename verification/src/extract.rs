//! Extraction of header tokens from source text: finding the lines that
//! carry a header-inclusion directive and taking the header name out of
//! its angle-bracket or quoted form.

use vstd::prelude::*;

use crate::filter::remove_stdlib_headers;
use crate::order::strictly_sorted;
use crate::text::find_char_from;
use crate::text::first_at_or_after;
use crate::text::has_char;
use crate::text::last_index_of;
use crate::text::lemma_first_at_or_after;
use crate::text::lemma_first_found_iff;
use crate::text::lemma_first_skip;
use crate::text::lemma_last_index_of;
use crate::text::rfind_char;
use crate::text::str_has_char;

verus! {

/// The failure of a scan: a directive line without a well-formed header
/// token. A missing closing delimiter is fatal, so that a corrupted
/// candidate set is never silently produced.
#[derive(Clone, Copy, Debug, PartialEq, Eq, Structural)]
pub enum ScanError {
    MalformedDirective,
}

/// The nine characters every header-inclusion directive line starts
/// with.
pub open spec fn directive_prefix() -> Seq<char> {
    seq!['#', 'i', 'n', 'c', 'l', 'u', 'd', 'e', ' ']
}

/// The line begins a header-inclusion directive.
pub open spec fn is_directive_line(line: Seq<char>) -> bool {
    line.len() >= 9 && line.take(9) == directive_prefix()
}

/// The character of the directive prefix at position `k`.
fn directive_prefix_char(k: usize) -> (c: char)
    requires
        k < 9,
    ensures
        c == directive_prefix()[k as int],
{
    if k == 0 {
        '#'
    } else if k == 1 {
        'i'
    } else if k == 2 {
        'n'
    } else if k == 3 {
        'c'
    } else if k == 4 {
        'l'
    } else if k == 5 {
        'u'
    } else if k == 6 {
        'd'
    } else if k == 7 {
        'e'
    } else {
        ' '
    }
}

/// The line begins a header-inclusion directive.
pub fn is_directive_line_exec(line: &str) -> (r: bool)
    ensures
        r == is_directive_line(line@),
{
    let n = line.unicode_len();
    if n < 9 {
        return false;
    }
    let mut k: usize = 0;
    while k < 9
        invariant
            0 <= k <= 9,
            n == line@.len(),
            n >= 9,
            forall|m: int| 0 <= m < k ==> line@[m] == directive_prefix()[m],
        decreases 9 - k,
    {
        if line.get_char(k) != directive_prefix_char(k) {
            proof {
                assert(line@.take(9)[k as int] == line@[k as int]);
            }
            return false;
        }
        k = k + 1;
    }
    proof {
        assert(line@.take(9) =~= directive_prefix());
    }
    true
}

/// The header token of a directive line, by its delimiter form: the part
/// between the first '<' and the first '>' after it when the line has a
/// '<', else the part between the first and the last '"'; `None` when
/// the closing delimiter is missing.
pub open spec fn header_token(line: Seq<char>) -> Option<Seq<char>> {
    if has_char(line, '<') {
        let a = first_at_or_after(line, '<', 0);
        let b = first_at_or_after(line, '>', a + 1);
        if b < line.len() {
            Some(line.subrange(a + 1, b))
        } else {
            None
        }
    } else {
        let a = first_at_or_after(line, '"', 0);
        let b = last_index_of(line, '"');
        if a < line.len() && a < b {
            Some(line.subrange(a + 1, b))
        } else {
            None
        }
    }
}

/// The header token of a directive line, or `None` when a closing
/// delimiter is missing.
pub fn extract_header_name(line: &str) -> (r: Option<String>)
    ensures
        match r {
            Some(t) => header_token(line@) == Some(t@),
            None => header_token(line@) is None,
        },
{
    let n = line.unicode_len();
    if str_has_char(line, '<') {
        proof {
            lemma_first_at_or_after(line@, '<', 0);
            lemma_first_found_iff(line@, '<', 0);
        }
        let a = find_char_from(line, '<', 0);
        proof {
            lemma_first_at_or_after(line@, '>', a + 1);
        }
        let b = find_char_from(line, '>', a + 1);
        if b < n {
            let t = line.substring_char(a + 1, b);
            Some(t.to_owned())
        } else {
            None
        }
    } else {
        proof {
            lemma_first_at_or_after(line@, '"', 0);
            lemma_last_index_of(line@, '"');
        }
        let a = find_char_from(line, '"', 0);
        if a == n {
            return None;
        }
        match rfind_char(line, '"') {
            Some(b) => {
                if a < b {
                    let t = line.substring_char(a + 1, b);
                    Some(t.to_owned())
                } else {
                    None
                }
            },
            None => {
                proof {
                    assert(line@[a as int] == '"');
                    assert(has_char(line@, '"'));
                    assert(false);
                }
                None
            },
        }
    }
}

/// The text divided at each '\n': the characters before the first '\n',
/// then the lines of what follows it; a text without '\n' is one line.
pub open spec fn split_lines(s: Seq<char>) -> Seq<Seq<char>>
    decreases s.len(),
    via split_lines_decreases
{
    if !has_char(s, '\n') {
        seq![s]
    } else {
        let i = first_at_or_after(s, '\n', 0);
        seq![s.take(i)] + split_lines(s.skip(i + 1))
    }
}

#[via_fn]
proof fn split_lines_decreases(s: Seq<char>) {
    lemma_first_at_or_after(s, '\n', 0);
    lemma_first_found_iff(s, '\n', 0);
}

/// The lines of `text`, divided at each '\n'.
pub fn split_lines_exec(text: &str) -> (r: Vec<String>)
    ensures
        r.deep_view() == split_lines(text@),
{
    let n = text.unicode_len();
    let mut out: Vec<String> = Vec::new();
    let mut pos: usize = 0;
    proof {
        assert(out.deep_view() =~= Seq::<Seq<char>>::empty());
        assert(text@.skip(0) =~= text@);
        assert(out.deep_view() + split_lines(text@.skip(0)) =~= split_lines(text@));
        lemma_first_at_or_after(text@, '\n', 0);
    }
    let mut i = find_char_from(text, '\n', 0);
    while i < n
        invariant
            0 <= pos <= n,
            pos <= i <= n,
            n == text@.len(),
            i == first_at_or_after(text@, '\n', pos as int),
            out.deep_view() + split_lines(text@.skip(pos as int)) == split_lines(text@),
        decreases n - pos,
    {
        let ghost pre = out.deep_view();
        let line = text.substring_char(pos, i);
        out.push(line.to_owned());
        proof {
            lemma_first_skip(text@, '\n', pos as int);
            lemma_first_found_iff(text@.skip(pos as int), '\n', 0);
            let suf = text@.skip(pos as int);
            assert(suf[i - pos] == text@[i as int]);
            assert(has_char(suf, '\n'));
            assert(split_lines(suf) == seq![suf.take(i - pos)] + split_lines(suf.skip(i - pos + 1)));
            assert(suf.take(i - pos) =~= text@.subrange(pos as int, i as int));
            assert(suf.skip(i - pos + 1) =~= text@.skip(i + 1));
            assert(out.deep_view() =~= pre.push(line@));
            assert(out.deep_view() + split_lines(text@.skip(i + 1)) =~= pre + split_lines(suf));
        }
        pos = i + 1;
        proof {
            lemma_first_at_or_after(text@, '\n', pos as int);
        }
        i = find_char_from(text, '\n', pos);
    }
    let ghost pre = out.deep_view();
    let last = text.substring_char(pos, n);
    out.push(last.to_owned());
    proof {
        lemma_first_skip(text@, '\n', pos as int);
        lemma_first_found_iff(text@.skip(pos as int), '\n', 0);
        let suf = text@.skip(pos as int);
        assert(!has_char(suf, '\n'));
        assert(split_lines(suf) == seq![suf]);
        assert(last@ =~= suf);
        assert(out.deep_view() =~= pre.push(last@));
        assert(out.deep_view() =~= pre + seq![suf]);
    }
    out
}

/// The header tokens of the directive lines among `lines`, in order;
/// `None` when any directive line is malformed.
pub open spec fn tokens_of_lines(lines: Seq<Seq<char>>) -> Option<Seq<Seq<char>>>
    decreases lines.len(),
{
    if lines.len() == 0 {
        Some(Seq::empty())
    } else {
        let rest = tokens_of_lines(lines.drop_first());
        if !is_directive_line(lines[0]) {
            rest
        } else {
            match (header_token(lines[0]), rest) {
                (Some(t), Some(ts)) => Some(seq![t] + ts),
                _ => None,
            }
        }
    }
}

/// The header tokens of one file's text.
pub open spec fn tokens_of_text(text: Seq<char>) -> Option<Seq<Seq<char>>> {
    tokens_of_lines(split_lines(text))
}

/// The header tokens of all files' texts, concatenated in file order;
/// `None` when any file has a malformed directive line.
pub open spec fn tokens_of_files(files: Seq<Seq<char>>) -> Option<Seq<Seq<char>>>
    decreases files.len(),
{
    if files.len() == 0 {
        Some(Seq::empty())
    } else {
        match (tokens_of_text(files[0]), tokens_of_files(files.drop_first())) {
            (Some(a), Some(b)) => Some(a + b),
            _ => None,
        }
    }
}

/// The header tokens of one file's text, in order; an error when a
/// directive line is malformed.
pub fn tokens_of_text_exec(text: &str) -> (r: Result<Vec<String>, ScanError>)
    ensures
        (r is Ok) == (tokens_of_text(text@) is Some),
        r matches Ok(v) ==> tokens_of_text(text@) == Some(v.deep_view()),
{
    let lines = split_lines_exec(text);
    let ghost ldv = lines.deep_view();
    let mut acc: Vec<String> = Vec::new();
    let nl = lines.len();
    let mut li: usize = 0;
    proof {
        assert(ldv.skip(0) =~= ldv);
        assert(acc.deep_view() =~= Seq::<Seq<char>>::empty());
        if tokens_of_lines(ldv) is Some {
            assert(acc.deep_view() + tokens_of_lines(ldv)->Some_0 =~= tokens_of_lines(ldv)->Some_0);
        }
    }
    while li < nl
        invariant
            0 <= li <= nl,
            nl == lines@.len(),
            ldv == lines.deep_view(),
            ldv == split_lines(text@),
            tokens_of_lines(ldv) == match tokens_of_lines(ldv.skip(li as int)) {
                Some(ts) => Some(acc.deep_view() + ts),
                None => None::<Seq<Seq<char>>>,
            },
        decreases nl - li,
    {
        proof {
            assert(ldv.skip(li as int).drop_first() =~= ldv.skip(li + 1));
            assert(ldv.skip(li as int)[0] == ldv[li as int]);
            assert(ldv[li as int] == lines@[li as int]@);
        }
        let line: &String = &lines[li];
        if is_directive_line_exec(line.as_str()) {
            match extract_header_name(line.as_str()) {
                Some(t) => {
                    let ghost pre = acc.deep_view();
                    let ghost tv = t@;
                    acc.push(t);
                    proof {
                        assert(acc.deep_view() =~= pre.push(tv));
                        if tokens_of_lines(ldv.skip(li + 1)) is Some {
                            let ts = tokens_of_lines(ldv.skip(li + 1))->Some_0;
                            assert(tokens_of_lines(ldv.skip(li as int)) == Some(seq![tv] + ts));
                            assert(pre + (seq![tv] + ts) =~= pre.push(tv) + ts);
                        }
                    }
                },
                None => {
                    proof {
                        assert(ldv.skip(li as int).len() > 0);
                        assert(is_directive_line(ldv.skip(li as int)[0]));
                        assert(header_token(ldv.skip(li as int)[0]) is None);
                        assert(tokens_of_lines(ldv.skip(li as int)) is None);
                        assert(tokens_of_text(text@) is None);
                    }
                    return Err(ScanError::MalformedDirective);
                },
            }
        }
        li = li + 1;
    }
    proof {
        assert(ldv.skip(nl as int) =~= Seq::<Seq<char>>::empty());
        assert(tokens_of_lines(ldv.skip(nl as int)) == Some(Seq::<Seq<char>>::empty()));
        assert(acc.deep_view() + Seq::<Seq<char>>::empty() =~= acc.deep_view());
    }
    Ok(acc)
}

/// Concatenating the tokens file by file: adding one file at the end
/// succeeds exactly when both parts do, and appends its tokens.
proof fn lemma_tokens_of_files_push(files: Seq<Seq<char>>, x: Seq<char>)
    ensures
        tokens_of_files(files.push(x)) == match (tokens_of_files(files), tokens_of_text(x)) {
            (Some(a), Some(b)) => Some(a + b),
            _ => None::<Seq<Seq<char>>>,
        },
    decreases files.len(),
{
    if files.len() == 0 {
        assert(files.push(x)[0] == x);
        assert(files.push(x).drop_first() =~= Seq::<Seq<char>>::empty());
        assert(files =~= Seq::<Seq<char>>::empty());
        assert(tokens_of_files(Seq::<Seq<char>>::empty()) == Some(Seq::<Seq<char>>::empty()));
        assert(files.push(x).len() == 1);
        if tokens_of_text(x) is Some {
            let b = tokens_of_text(x)->Some_0;
            assert(b + Seq::<Seq<char>>::empty() =~= b);
            assert(Seq::<Seq<char>>::empty() + b =~= b);
        }
    } else {
        assert(files.push(x)[0] == files[0]);
        assert(files.push(x).drop_first() =~= files.drop_first().push(x));
        lemma_tokens_of_files_push(files.drop_first(), x);
        if tokens_of_text(files[0]) is Some && tokens_of_files(files.drop_first()) is Some
            && tokens_of_text(x) is Some {
            let a = tokens_of_text(files[0])->Some_0;
            let b = tokens_of_files(files.drop_first())->Some_0;
            let c = tokens_of_text(x)->Some_0;
            assert(a + (b + c) =~= (a + b) + c);
        }
    }
}

/// The distinct external header tokens of the given file texts, sorted
/// ascending: every token of a directive line of any file, except those
/// in the known-header table; an error when any directive line is
/// malformed.
pub fn get_includes(files: &Vec<String>, headers: &Vec<String>) -> (r: Result<
    Vec<String>,
    ScanError,
>)
    ensures
        (r is Ok) == (tokens_of_files(files.deep_view()) is Some),
        r matches Ok(v) ==> strictly_sorted(v.deep_view()) && (forall|t: Seq<char>|
            v.deep_view().contains(t) <==> (tokens_of_files(files.deep_view())->Some_0.contains(t)
                && !headers.deep_view().contains(t))),
{
    let ghost fdv = files.deep_view();
    let mut raw: Vec<String> = Vec::new();
    let n = files.len();
    let mut fi: usize = 0;
    proof {
        assert(fdv.take(0) =~= Seq::<Seq<char>>::empty());
        assert(raw.deep_view() =~= Seq::<Seq<char>>::empty());
    }
    while fi < n
        invariant
            0 <= fi <= n,
            n == files@.len(),
            fdv == files.deep_view(),
            tokens_of_files(fdv.take(fi as int)) == Some(raw.deep_view()),
        decreases n - fi,
    {
        proof {
            assert(fdv[fi as int] == files@[fi as int]@);
        }
        match tokens_of_text_exec(files[fi].as_str()) {
            Ok(toks) => {
                let ghost pre = raw.deep_view();
                let ghost tdv = toks.deep_view();
                let nt = toks.len();
                let mut ti: usize = 0;
                while ti < nt
                    invariant
                        0 <= ti <= nt,
                        nt == toks@.len(),
                        tdv == toks.deep_view(),
                        raw.deep_view() =~= pre + tdv.take(ti as int),
                    decreases nt - ti,
                {
                    let ghost mid = raw.deep_view();
                    raw.push(toks[ti].clone());
                    proof {
                        assert(tdv[ti as int] == toks@[ti as int]@);
                        assert(raw.deep_view() =~= mid.push(tdv[ti as int]));
                        assert(tdv.take(ti + 1) =~= tdv.take(ti as int).push(tdv[ti as int]));
                        assert(raw.deep_view() =~= pre + tdv.take(ti + 1));
                    }
                    ti = ti + 1;
                }
                proof {
                    assert(tdv.take(nt as int) =~= tdv);
                    lemma_tokens_of_files_push(fdv.take(fi as int), fdv[fi as int]);
                    assert(fdv.take(fi as int).push(fdv[fi as int]) =~= fdv.take(fi + 1));
                    assert(tokens_of_files(fdv.take(fi + 1)) == Some(raw.deep_view()));
                }
            },
            Err(e) => {
                proof {
                    lemma_tokens_of_files_push(fdv.take(fi as int), fdv[fi as int]);
                    assert(fdv.take(fi as int).push(fdv[fi as int]) =~= fdv.take(fi + 1));
                    assert(tokens_of_files(fdv.take(fi + 1)) is None);
                    lemma_tokens_of_files_prefix_none(fdv, fi + 1);
                }
                return Err(e);
            },
        }
        fi = fi + 1;
    }
    proof {
        assert(fdv.take(n as int) =~= fdv);
    }
    Ok(remove_stdlib_headers(&raw, headers))
}

/// A failing prefix fails the whole list: when the tokens of the first
/// `k` files are `None`, so are the tokens of all the files.
proof fn lemma_tokens_of_files_prefix_none(files: Seq<Seq<char>>, k: int)
    requires
        0 <= k <= files.len(),
        tokens_of_files(files.take(k)) is None,
    ensures
        tokens_of_files(files) is None,
    decreases k,
{
    if k == 0 {
        assert(files.take(0) =~= Seq::<Seq<char>>::empty());
        assert(false);
    } else {
        if files.len() > 0 {
            assert(files.take(k)[0] == files[0]);
            assert(files.take(k).drop_first() =~= files.drop_first().take(k - 1));
            if tokens_of_text(files[0]) is Some {
                lemma_tokens_of_files_prefix_none(files.drop_first(), k - 1);
            }
        }
    }
}

} // verus!
