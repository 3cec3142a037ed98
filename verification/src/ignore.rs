//! Adding patterns to a repo's `.gitignore`: which ones are already there,
//! and the new text with the missing ones appended in the file's own line
//! ending. Reading and writing the file is the caller's.
use vstd::prelude::*;

use crate::text::{
    lacks, lemma_find_char, lemma_find_char_is, strip_cr, trailing_ws, is_ws, find_char,
    chars_eq, chars_of, contains, contains_of, lines, lines_of, push_all, push_str,
    string_from_chars, strings, trim_end, trimmed_end, views,
};

verus! {

/// The file the patterns go into, at the repo root.
pub const GITIGNORE: &'static str = ".gitignore";

/// The line ending appended lines use: CRLF when the file already has one,
/// LF otherwise.
pub open spec fn newline_for(existing: Seq<char>) -> Seq<char> {
    if contains(existing, "\r\n"@) {
        "\r\n"@
    } else {
        "\n"@
    }
}

/// Whether some line of `text` is `pattern`, trailing whitespace (and so a
/// CR) ignored on both sides.
pub open spec fn already_ignored_spec(text: Seq<char>, pattern: Seq<char>) -> bool {
    exists|i: int|
        0 <= i < lines(text).len() && trim_end(#[trigger] lines(text)[i]) == trim_end(pattern)
}

/// `text` with `pattern` appended as a line of its own, terminating an
/// unterminated last line first.
pub open spec fn append_pattern(text: Seq<char>, pattern: Seq<char>, nl: Seq<char>) -> Seq<char> {
    let base = if text.len() > 0 && text.last() != '\n' {
        text + nl
    } else {
        text
    };
    base + pattern + nl
}

/// The patterns taken in order, each appended unless the text so far already
/// carries it; the flag says whether anything was appended.
pub open spec fn ignore_fold(
    existing: Seq<char>,
    pats: Seq<Seq<char>>,
    nl: Seq<char>,
) -> (Seq<char>, bool)
    decreases pats.len(),
{
    if pats.len() == 0 {
        (existing, false)
    } else {
        let (t, appended) = ignore_fold(existing, pats.drop_last(), nl);
        if already_ignored_spec(t, pats.last()) {
            (t, appended)
        } else {
            (append_pattern(t, pats.last(), nl), true)
        }
    }
}

/// The new text of the file, or `None` when every pattern is already there
/// and the file need not be touched.
pub open spec fn with_patterns_spec(existing: Seq<char>, pats: Seq<Seq<char>>) -> Option<Seq<char>> {
    let (t, appended) = ignore_fold(existing, pats, newline_for(existing));
    if appended {
        Some(t)
    } else {
        None
    }
}

fn already_ignored_chars(text: &[char], pattern: &[char]) -> (r: bool)
    ensures
        r == already_ignored_spec(text@, pattern@),
{
    let ls = lines_of(text);
    let p = trimmed_end(pattern);
    let mut i: usize = 0;
    while i < ls.len()
        invariant
            i <= ls@.len(),
            views(ls@) == lines(text@),
            p@ == trim_end(pattern@),
            forall|k: int| 0 <= k < i ==> trim_end(#[trigger] lines(text@)[k]) != trim_end(pattern@),
        decreases ls.len() - i,
    {
        proof {
            assert(views(ls@)[i as int] == ls@[i as int]@);
        }
        let l = trimmed_end(ls[i].as_slice());
        if chars_eq(l.as_slice(), p.as_slice()) {
            assert(trim_end(lines(text@)[i as int]) == trim_end(pattern@));
            return true;
        }
        i = i + 1;
    }
    false
}

/// Whether `text` already has `pattern` as one of its lines.
pub fn already_ignored(text: &str, pattern: &str) -> (r: bool)
    ensures
        r == already_ignored_spec(text@, pattern@),
{
    let t = chars_of(text);
    let p = chars_of(pattern);
    already_ignored_chars(t.as_slice(), p.as_slice())
}

/// The `.gitignore` text with the missing `patterns` appended, or `None` when
/// there is nothing to add.
pub fn with_patterns(existing: &str, patterns: &[String]) -> (r: Option<String>)
    ensures
        match r {
            Some(t) => with_patterns_spec(existing@, strings(patterns@)) == Some(t@),
            None => with_patterns_spec(existing@, strings(patterns@)) is None,
        },
{
    let e = chars_of(existing);
    let crlf = chars_of("\r\n");
    let nl = if contains_of(e.as_slice(), crlf.as_slice()) {
        chars_of("\r\n")
    } else {
        chars_of("\n")
    };
    let ghost pv = strings(patterns@);
    let mut text = e;
    let mut appended = false;
    let mut i: usize = 0;
    proof {
        assert(pv.take(0) =~= Seq::<Seq<char>>::empty());
    }
    while i < patterns.len()
        invariant
            i <= patterns@.len(),
            pv == strings(patterns@),
            nl@ == newline_for(existing@),
            (text@, appended) == ignore_fold(existing@, pv.take(i as int), nl@),
        decreases patterns.len() - i,
    {
        proof {
            assert(pv.take(i + 1).drop_last() =~= pv.take(i as int));
            assert(pv.take(i + 1).last() == patterns@[i as int]@);
        }
        let p = chars_of(patterns[i].as_str());
        if !already_ignored_chars(text.as_slice(), p.as_slice()) {
            let ghost before = text@;
            if text.len() > 0 && text[text.len() - 1] != '\n' {
                push_all(&mut text, nl.as_slice());
            }
            push_all(&mut text, p.as_slice());
            push_all(&mut text, nl.as_slice());
            assert(text@ =~= append_pattern(before, p@, nl@));
            appended = true;
        }
        i = i + 1;
    }
    proof {
        assert(pv.take(pv.len() as int) =~= pv);
    }
    if appended {
        Some(string_from_chars(text.as_slice()))
    } else {
        None
    }
}

proof fn lemma_fold_keeps_prefix(existing: Seq<char>, pats: Seq<Seq<char>>, nl: Seq<char>)
    ensures
        ignore_fold(existing, pats, nl).0.len() >= existing.len(),
        ignore_fold(existing, pats, nl).0.take(existing.len() as int) == existing,
    decreases pats.len(),
{
    if pats.len() > 0 {
        lemma_fold_keeps_prefix(existing, pats.drop_last(), nl);
        let t = ignore_fold(existing, pats.drop_last(), nl).0;
        if !already_ignored_spec(t, pats.last()) {
            let u = append_pattern(t, pats.last(), nl);
            assert(u.take(t.len() as int) =~= t);
            assert(u.take(existing.len() as int) =~= t.take(existing.len() as int));
        }
    }
}

/// Appending never rewrites what the file already says: its existing text,
/// comments and spacing included, is the start of the new text.
pub proof fn law_existing_text_is_kept(existing: Seq<char>, pats: Seq<Seq<char>>)
    ensures
        with_patterns_spec(existing, pats) matches Some(t) ==> t.len() >= existing.len()
            && t.take(existing.len() as int) == existing,
{
    lemma_fold_keeps_prefix(existing, pats, newline_for(existing));
}

/// A text that is empty or ends in a line break splits into its own lines
/// followed by those of whatever comes after it.
proof fn lemma_lines_append(a: Seq<char>, b: Seq<char>)
    requires
        a.len() == 0 || a.last() == '\n',
    ensures
        lines(a + b) == lines(a) + lines(b),
    decreases a.len(),
{
    if a.len() == 0 {
        assert(a + b =~= b);
        assert(lines(a) + lines(b) =~= lines(b));
    } else {
        lemma_find_char(a, '\n');
        let k = find_char(a, '\n').unwrap();
        assert(lacks(a + b, '\n', 0, k)) by {
            assert forall|j: int| 0 <= j < k implies (a + b)[j] != '\n' by {
                assert((a + b)[j] == a[j]);
            }
        }
        assert((a + b)[k] == a[k]);
        lemma_find_char_is(a + b, '\n', k);
        let rest = a.skip(k + 1);
        assert((a + b).take(k) =~= a.take(k));
        assert((a + b).skip(k + 1) =~= rest + b);
        if rest.len() > 0 {
            assert(rest.last() == a.last());
        }
        lemma_lines_append(rest, b);
        assert(lines(a + b) =~= seq![strip_cr(a.take(k))] + (lines(rest) + lines(b)));
        assert(lines(a) =~= seq![strip_cr(a.take(k))] + lines(rest));
        assert(lines(a) + lines(b) =~= seq![strip_cr(a.take(k))] + (lines(rest) + lines(b)));
    }
}

/// Dropping one trailing whitespace character leaves the trimmed text as it was.
proof fn lemma_trim_end_drop_ws(x: Seq<char>)
    requires
        x.len() > 0,
        is_ws(x.last()),
    ensures
        trim_end(x.drop_last()) == trim_end(x),
{
    assert(trailing_ws(x) == 1 + trailing_ws(x.drop_last()));
    crate::text::lemma_trailing_ws(x.drop_last());
    assert(trim_end(x.drop_last()) =~= trim_end(x));
}

proof fn lemma_trim_end_strip_cr(x: Seq<char>)
    ensures
        trim_end(strip_cr(x)) == trim_end(x),
{
    if x.len() > 0 && x.last() == '\r' {
        assert(is_ws('\r'));
        lemma_trim_end_drop_ws(x);
    }
}

pub open spec fn is_newline(nl: Seq<char>) -> bool {
    nl == seq!['\n'] || nl == seq!['\r', '\n']
}

/// A line without a break in it, followed by a line ending, is one line of
/// text, equal to it once trailing whitespace is trimmed.
proof fn lemma_one_line(p: Seq<char>, nl: Seq<char>)
    requires
        lacks(p, '\n', 0, p.len() as int),
        is_newline(nl),
    ensures
        lines(p + nl).len() == 1,
        trim_end(lines(p + nl)[0]) == trim_end(p),
{
    let s = p + nl;
    let k = s.len() - 1;
    assert(lacks(s, '\n', 0, k)) by {
        assert forall|j: int| 0 <= j < k implies s[j] != '\n' by {
            if j < p.len() {
                assert(s[j] == p[j]);
            }
        }
    }
    lemma_find_char_is(s, '\n', k);
    assert(s.skip(k + 1) =~= Seq::<char>::empty());
    assert(lines(Seq::<char>::empty()) =~= Seq::<Seq<char>>::empty());
    assert(lines(s) =~= seq![strip_cr(s.take(k))]);
    lemma_trim_end_strip_cr(s.take(k));
    if nl == seq!['\n'] {
        assert(s.take(k) =~= p);
    } else {
        assert(s.take(k).drop_last() =~= p);
        assert(is_ws('\r'));
        lemma_trim_end_drop_ws(s.take(k));
    }
}

/// Ending an unterminated last line changes no line but for trailing
/// whitespace.
proof fn lemma_terminate(t: Seq<char>, nl: Seq<char>)
    requires
        t.len() > 0,
        t.last() != '\n',
        is_newline(nl),
    ensures
        lines(t + nl).len() == lines(t).len(),
        forall|i: int|
            0 <= i < lines(t).len() ==> trim_end(#[trigger] lines(t + nl)[i]) == trim_end(
                lines(t)[i],
            ),
    decreases t.len(),
{
    lemma_find_char(t, '\n');
    match find_char(t, '\n') {
        Some(k) => {
            let rest = t.skip(k + 1);
            assert(k < t.len() - 1);
            assert(lacks(t + nl, '\n', 0, k)) by {
                assert forall|j: int| 0 <= j < k implies (t + nl)[j] != '\n' by {
                    assert((t + nl)[j] == t[j]);
                }
            }
            assert((t + nl)[k] == t[k]);
            lemma_find_char_is(t + nl, '\n', k);
            assert((t + nl).take(k) =~= t.take(k));
            assert((t + nl).skip(k + 1) =~= rest + nl);
            assert(rest.last() == t.last());
            lemma_terminate(rest, nl);
            assert(lines(t + nl) =~= seq![strip_cr(t.take(k))] + lines(rest + nl));
            assert(lines(t) =~= seq![strip_cr(t.take(k))] + lines(rest));
            assert forall|i: int| 0 <= i < lines(t).len() implies trim_end(
                #[trigger] lines(t + nl)[i],
            ) == trim_end(lines(t)[i]) by {
                if i > 0 {
                    assert(lines(t + nl)[i] == lines(rest + nl)[i - 1]);
                    assert(lines(t)[i] == lines(rest)[i - 1]);
                }
            }
        },
        None => {
            lemma_one_line(t, nl);
            assert(lines(t) =~= seq![t]);
        },
    }
}

/// What appending a pattern does to the lines: those already there stay,
/// trailing whitespace aside, and the pattern's own line follows them.
proof fn lemma_append_lines(t: Seq<char>, q: Seq<char>, nl: Seq<char>)
    requires
        lacks(q, '\n', 0, q.len() as int),
        is_newline(nl),
    ensures
        lines(append_pattern(t, q, nl)).len() == lines(t).len() + 1,
        forall|i: int|
            0 <= i < lines(t).len() ==> trim_end(
                #[trigger] lines(append_pattern(t, q, nl))[i],
            ) == trim_end(lines(t)[i]),
        trim_end(lines(append_pattern(t, q, nl))[lines(t).len() as int]) == trim_end(q),
{
    let base = if t.len() > 0 && t.last() != '\n' {
        t + nl
    } else {
        t
    };
    let u = append_pattern(t, q, nl);
    assert(u =~= base + (q + nl));
    if t.len() > 0 && t.last() != '\n' {
        lemma_terminate(t, nl);
        assert(base.last() == '\n');
    }
    lemma_lines_append(base, q + nl);
    lemma_one_line(q, nl);
    assert(lines(u)[lines(t).len() as int] == lines(q + nl)[0]);
    assert forall|i: int| 0 <= i < lines(t).len() implies trim_end(#[trigger] lines(u)[i])
        == trim_end(lines(t)[i]) by {
        assert(lines(u)[i] == lines(base)[i]);
    }
}

proof fn lemma_fold_ignores_all(existing: Seq<char>, pats: Seq<Seq<char>>, nl: Seq<char>)
    requires
        is_newline(nl),
        forall|i: int| 0 <= i < pats.len() ==> lacks(#[trigger] pats[i], '\n', 0, pats[i].len() as int),
    ensures
        forall|i: int|
            0 <= i < pats.len() ==> already_ignored_spec(ignore_fold(existing, pats, nl).0, #[trigger] pats[i]),
    decreases pats.len(),
{
    if pats.len() > 0 {
        let prev = pats.drop_last();
        assert forall|i: int| 0 <= i < prev.len() implies lacks(#[trigger] prev[i], '\n', 0, prev[i].len() as int) by {
            assert(prev[i] == pats[i]);
        }
        lemma_fold_ignores_all(existing, prev, nl);
        let t = ignore_fold(existing, prev, nl).0;
        let q = pats.last();
        if !already_ignored_spec(t, q) {
            let u = append_pattern(t, q, nl);
            assert(lacks(pats[pats.len() - 1], '\n', 0, q.len() as int));
            lemma_append_lines(t, q, nl);
            assert forall|i: int| 0 <= i < pats.len() implies already_ignored_spec(u, #[trigger] pats[i]) by {
                if i == pats.len() - 1 {
                    let j = lines(t).len() as int;
                    assert(trim_end(lines(u)[j]) == trim_end(pats[i]));
                } else {
                    assert(prev[i] == pats[i]);
                    assert(already_ignored_spec(t, prev[i]));
                    let j = choose|j: int|
                        0 <= j < lines(t).len() && trim_end(#[trigger] lines(t)[j]) == trim_end(prev[i]);
                    assert(trim_end(lines(u)[j]) == trim_end(lines(t)[j]));
                }
            }
        } else {
            assert forall|i: int| 0 <= i < pats.len() implies already_ignored_spec(t, #[trigger] pats[i]) by {
                if i < pats.len() - 1 {
                    assert(prev[i] == pats[i]);
                }
            }
        }
    }
}

proof fn lemma_fold_of_ignored(t: Seq<char>, pats: Seq<Seq<char>>, nl: Seq<char>)
    requires
        forall|i: int| 0 <= i < pats.len() ==> already_ignored_spec(t, #[trigger] pats[i]),
    ensures
        ignore_fold(t, pats, nl) == (t, false),
    decreases pats.len(),
{
    if pats.len() > 0 {
        let prev = pats.drop_last();
        assert forall|i: int| 0 <= i < prev.len() implies already_ignored_spec(t, #[trigger] prev[i]) by {
            assert(prev[i] == pats[i]);
        }
        lemma_fold_of_ignored(t, prev, nl);
        assert(already_ignored_spec(t, pats[pats.len() - 1]));
    }
}

/// Ignoring the same patterns a second time leaves the file alone: once a
/// call has appended them, a repeat finds every one already there and has
/// nothing to write. (A pattern that itself holds a line break is two lines
/// once written, and is left out.)
pub proof fn law_ignoring_twice_writes_once(existing: Seq<char>, pats: Seq<Seq<char>>)
    requires
        forall|i: int| 0 <= i < pats.len() ==> lacks(#[trigger] pats[i], '\n', 0, pats[i].len() as int),
    ensures
        with_patterns_spec(existing, pats) matches Some(t) ==> with_patterns_spec(t, pats) is None,
{
    reveal_strlit("\n");
    reveal_strlit("\r\n");
    let nl = newline_for(existing);
    assert("\n"@ =~= seq!['\n']);
    assert("\r\n"@ =~= seq!['\r', '\n']);
    assert(is_newline(nl));
    lemma_fold_ignores_all(existing, pats, nl);
    let t = ignore_fold(existing, pats, nl).0;
    lemma_fold_of_ignored(t, pats, newline_for(t));
}

proof fn lemma_fold_outcome(existing: Seq<char>, pats: Seq<Seq<char>>, nl: Seq<char>)
    requires
        nl.len() > 0,
    ensures
        !ignore_fold(existing, pats, nl).1 ==> ignore_fold(existing, pats, nl).0 == existing
            && forall|i: int| 0 <= i < pats.len() ==> already_ignored_spec(existing, #[trigger] pats[i]),
        ignore_fold(existing, pats, nl).1 ==> ignore_fold(existing, pats, nl).0.len() > existing.len(),
    decreases pats.len(),
{
    if pats.len() > 0 {
        let prev = pats.drop_last();
        lemma_fold_outcome(existing, prev, nl);
        lemma_fold_keeps_prefix(existing, prev, nl);
        let (t0, a0) = ignore_fold(existing, prev, nl);
        if already_ignored_spec(t0, pats.last()) {
            if !a0 {
                assert forall|i: int| 0 <= i < pats.len() implies already_ignored_spec(existing, #[trigger] pats[i]) by {
                    if i < pats.len() - 1 {
                        assert(pats[i] == prev[i]);
                    }
                }
            }
        } else {
            assert(append_pattern(t0, pats.last(), nl).len() > t0.len());
        }
    }
}

/// What the two outcomes of adding patterns mean: `None` when every pattern
/// already has a line of its own in the file, and otherwise a text that is
/// the file's text with more after it.
pub proof fn law_what_adding_patterns_gives(existing: Seq<char>, pats: Seq<Seq<char>>)
    ensures
        with_patterns_spec(existing, pats) is None ==> forall|i: int|
            0 <= i < pats.len() ==> already_ignored_spec(existing, #[trigger] pats[i]),
        with_patterns_spec(existing, pats) matches Some(t) ==> t.len() > existing.len()
            && t.take(existing.len() as int) == existing,
{
    reveal_strlit("\n");
    reveal_strlit("\r\n");
    let nl = newline_for(existing);
    assert(nl.len() > 0);
    lemma_fold_outcome(existing, pats, nl);
    lemma_fold_keeps_prefix(existing, pats, nl);
}

} // verus!
