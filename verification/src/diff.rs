//! One file's diff, for the right pane's second view: what to ask git for,
//! and how to read the unified patch it prints back.
use vstd::prelude::*;

use crate::git::Output;
use crate::text::{
    is_ws, lemma_find_after, lemma_find_char_none, lemma_word_end_is, lemma_ws_end_is, split_ws_from,
    ws_end, word_end,
    find_char, lacks, lemma_find_char, lemma_find_char_is, strip_cr,
    lossy_text, push_lit, push_string, strings, utf8_lossy,
    chars_of, decimal, decimal_of, lines, lines_of, occurs_at, parse_u32, parse_u32_of,
    split_once, split_once_on, split_whitespace_of, split_ws, starts_with, has_lit_prefix,
    string_from_chars, strip_prefix, strip_prefix_of, views, whole_message, whole_message_of,
    copy_range,
};

verus! {

/// Which two sides to compare.
#[derive(Debug, Clone, PartialEq, Eq)]
pub enum DiffSource {
    /// Worktree vs index — a row in *Changes*.
    Unstaged,
    /// Index vs HEAD — a row in *Staged Changes*.
    Staged,
    /// A `?` row: nothing to diff against, so this one never shells out.
    Untracked,
    /// A commit vs its parent — a row in the commit info panel.
    Commit { hash: String },
}

/// Past this many body lines parsing stops and the diff is marked truncated.
pub const MAX_DIFF_LINES: usize = 20000;

/// An untracked file larger than this is not read at all.
pub const MAX_UNTRACKED_BYTES: u64 = 5242880;

/// How much of an untracked file is scanned for a NUL before calling it binary.
pub const BINARY_SNIFF_BYTES: usize = 8000;

#[derive(Debug, Clone, Default, PartialEq, Eq)]
pub struct FileDiff {
    pub path: String,
    pub hunks: Vec<DiffHunk>,
    /// Git said "Binary files … differ", or an untracked file had a NUL in it.
    pub binary: bool,
    /// Hit the line cap (or the size cap): the hunks present are real but
    /// incomplete.
    pub truncated: bool,
    pub insertions: u32,
    pub deletions: u32,
}

/// One `@@` block. Start lines are 1-based, as git prints them.
#[derive(Debug, Clone, PartialEq, Eq)]
pub struct DiffHunk {
    pub old_start: u32,
    pub old_count: u32,
    pub new_start: u32,
    pub new_count: u32,
    pub lines: Vec<DiffLine>,
}

/// `kind` is git's own leading character — `' '`, `'+'` or `'-'`.
#[derive(Debug, Clone, PartialEq, Eq)]
pub struct DiffLine {
    pub kind: char,
    pub text: String,
}

pub struct HunkModel {
    pub old_start: u32,
    pub old_count: u32,
    pub new_start: u32,
    pub new_count: u32,
    pub lines: Seq<(char, Seq<char>)>,
}

impl DiffLine {
    pub open spec fn model(&self) -> (char, Seq<char>) {
        (self.kind, self.text@)
    }
}

pub open spec fn line_models(v: Seq<DiffLine>) -> Seq<(char, Seq<char>)> {
    v.map_values(|l: DiffLine| l.model())
}

impl DiffHunk {
    pub open spec fn model(&self) -> HunkModel {
        HunkModel {
            old_start: self.old_start,
            old_count: self.old_count,
            new_start: self.new_start,
            new_count: self.new_count,
            lines: line_models(self.lines@),
        }
    }
}

pub open spec fn hunk_models(v: Seq<DiffHunk>) -> Seq<HunkModel> {
    v.map_values(|h: DiffHunk| h.model())
}

pub struct DiffModel {
    pub path: Seq<char>,
    pub hunks: Seq<HunkModel>,
    pub binary: bool,
    pub truncated: bool,
    pub insertions: nat,
    pub deletions: nat,
}

impl FileDiff {
    pub open spec fn model(&self) -> DiffModel {
        DiffModel {
            path: self.path@,
            hunks: hunk_models(self.hunks@),
            binary: self.binary,
            truncated: self.truncated,
            insertions: self.insertions as nat,
            deletions: self.deletions as nat,
        }
    }
}

// ---------------------------------------------------------------------------
// The hunk header
// ---------------------------------------------------------------------------

/// The first index at or after `i` where `p` occurs.
pub open spec fn find_sub_from(s: Seq<char>, p: Seq<char>, i: int) -> Option<int>
    decreases s.len() + 1 - i,
{
    if i < 0 || i + p.len() > s.len() {
        None
    } else if occurs_at(s, p, i) {
        Some(i)
    } else {
        find_sub_from(s, p, i + 1)
    }
}

/// `s.split(p).next()`: the text before the first `p`, or all of it.
pub open spec fn before_first(s: Seq<char>, p: Seq<char>) -> Seq<char> {
    match find_sub_from(s, p, 0) {
        Some(k) => s.take(k),
        None => s,
    }
}

/// `-12,7` / `+12` ranges: a start and a count, the count 1 when omitted.
pub open spec fn hunk_range(r: Seq<char>) -> Option<(u32, u32)> {
    match split_once(r, ',') {
        Some((start, count)) => match (parse_u32(start), parse_u32(count)) {
            (Some(a), Some(b)) => Some((a, b)),
            _ => None,
        },
        None => match parse_u32(r) {
            Some(a) => Some((a, 1)),
            None => None,
        },
    }
}

/// `@@ -12,7 +12,9 @@ heading`, with the leading `@@` already stripped.
pub open spec fn hunk_header(header: Seq<char>) -> Option<(u32, u32, u32, u32)> {
    let ranges = split_ws(before_first(header, "@@"@));
    if ranges.len() < 2 {
        None
    } else {
        match (strip_prefix(ranges[0], "-"@), strip_prefix(ranges[1], "+"@)) {
            (Some(o), Some(n)) => match (hunk_range(o), hunk_range(n)) {
                (Some((os, oc)), Some((ns, nc))) => Some((os, oc, ns, nc)),
                _ => None,
            },
            _ => None,
        }
    }
}

fn before_first_of(s: &[char], p0: char, p1: char) -> (r: Vec<char>)
    ensures
        r@ == before_first(s@, seq![p0, p1]),
{
    let ghost p = seq![p0, p1];
    let mut i: usize = 0;
    while s.len() >= 2 && i < s.len() - 1
        invariant
            p == seq![p0, p1],
            i <= s@.len(),
            find_sub_from(s@, p, 0) == find_sub_from(s@, p, i as int),
        decreases s.len() - i,
    {
        proof {
            let w = s@.subrange(i as int, i + 2);
            assert(p.len() == 2);
            assert(w[0] == s@[i as int]);
            assert(w[1] == s@[i + 1]);
            if s@[i as int] == p0 && s@[i + 1] == p1 {
                assert(w =~= p);
            } else {
                assert(w != p) by {
                    if w == p {
                        assert(w[0] == p[0] && w[1] == p[1]);
                    }
                }
            }
        }
        if s[i] == p0 && s[i + 1] == p1 {
            assert(s@.subrange(i as int, i + 2) =~= p);
            assert(find_sub_from(s@, p, i as int) == Some(i as int));
            let r = copy_range(s, 0, i);
            assert(r@ =~= s@.take(i as int));
            return r;
        }
        i = i + 1;
    }
    assert(find_sub_from(s@, p, i as int) is None);
    assert(s@.subrange(0, s@.len() as int) =~= s@);
    copy_range(s, 0, s.len())
}

fn hunk_range_of(r: &[char]) -> (res: Option<(u32, u32)>)
    ensures
        res == hunk_range(r@),
{
    match split_once_on(r, ',') {
        Some((start, count)) => {
            let a = parse_u32_of(start.as_slice());
            let b = parse_u32_of(count.as_slice());
            match (a, b) {
                (Some(a), Some(b)) => Some((a, b)),
                _ => None,
            }
        },
        None => match parse_u32_of(r) {
            Some(a) => Some((a, 1)),
            None => None,
        },
    }
}

/// `@@ -12,7 +12,9 @@ heading` with the leading `@@` stripped: the two ranges,
/// or `None` when it is not one.
pub fn parse_hunk_header(header: &str) -> (r: Option<(u32, u32, u32, u32)>)
    ensures
        r == hunk_header(header@),
{
    let h = chars_of(header);
    hunk_header_of(h.as_slice())
}

fn hunk_header_of(h: &[char]) -> (r: Option<(u32, u32, u32, u32)>)
    ensures
        r == hunk_header(h@),
{
    proof {
        assert("@@"@ =~= seq!['@', '@']) by {
            reveal_strlit("@@");
        }
        assert("-"@ =~= seq!['-']) by {
            reveal_strlit("-");
        }
        assert("+"@ =~= seq!['+']) by {
            reveal_strlit("+");
        }
    }
    let body = before_first_of(h, '@', '@');
    let ranges = split_whitespace_of(body.as_slice());
    if ranges.len() < 2 {
        return None;
    }
    proof {
        assert(views(ranges@)[0] == ranges@[0]@);
        assert(views(ranges@)[1] == ranges@[1]@);
    }
    let minus = chars_of("-");
    let plus = chars_of("+");
    let o = strip_prefix_of(ranges[0].as_slice(), minus.as_slice());
    let n = strip_prefix_of(ranges[1].as_slice(), plus.as_slice());
    match (o, n) {
        (Some(o), Some(n)) => {
            let a = hunk_range_of(o.as_slice());
            let b = hunk_range_of(n.as_slice());
            match (a, b) {
                (Some((os, oc)), Some((ns, nc))) => Some((os, oc, ns, nc)),
                _ => None,
            }
        },
        _ => None,
    }
}

// ---------------------------------------------------------------------------
// The patch
// ---------------------------------------------------------------------------

pub struct PatchState {
    pub hunks: Seq<HunkModel>,
    pub cur: Option<HunkModel>,
    pub binary: bool,
    pub truncated: bool,
    pub insertions: nat,
    pub deletions: nat,
    pub old_left: u32,
    pub new_left: u32,
    pub body: nat,
}

pub open spec fn sat_dec(x: u32) -> u32 {
    if x > 0 {
        (x - 1) as u32
    } else {
        0
    }
}

/// A body line's kind and text: `+`, `-` and ` ` as git wrote them, and a bare
/// empty line as an empty context line.
pub open spec fn line_kind(line: Seq<char>) -> Option<(char, Seq<char>)> {
    if line.len() == 0 {
        Some((' ', seq![]))
    } else if line[0] == '+' || line[0] == '-' || line[0] == ' ' {
        Some((line[0], line.skip(1)))
    } else {
        None
    }
}

pub open spec fn close_hunk(st: PatchState) -> Seq<HunkModel> {
    match st.cur {
        Some(h) => st.hunks.push(h),
        None => st.hunks,
    }
}

pub open spec fn patch_step(st: PatchState, line: Seq<char>) -> PatchState {
    match strip_prefix(line, "@@"@) {
        Some(header) => match hunk_header(header) {
            None => PatchState { hunks: close_hunk(st), cur: None, ..st },
            Some((os, oc, ns, nc)) => PatchState {
                hunks: close_hunk(st),
                cur: Some(
                    HunkModel {
                        old_start: os,
                        old_count: oc,
                        new_start: ns,
                        new_count: nc,
                        lines: seq![],
                    },
                ),
                old_left: oc,
                new_left: nc,
                ..st
            },
        },
        None => match st.cur {
            None => if starts_with(line, "Binary files "@) || starts_with(
                line,
                "GIT binary patch"@,
            ) {
                PatchState { binary: true, ..st }
            } else {
                st
            },
            Some(h) => if line.len() > 0 && line[0] == '\\' {
                st
            } else if st.old_left == 0 && st.new_left == 0 {
                PatchState {
                    hunks: st.hunks.push(h),
                    cur: None,
                    binary: st.binary || starts_with(line, "Binary files "@),
                    ..st
                }
            } else {
                match line_kind(line) {
                    None => st,
                    Some((kind, text)) => PatchState {
                        cur: Some(HunkModel { lines: h.lines.push((kind, text)), ..h }),
                        old_left: if kind == '+' {
                            st.old_left
                        } else {
                            sat_dec(st.old_left)
                        },
                        new_left: if kind == '-' {
                            st.new_left
                        } else {
                            sat_dec(st.new_left)
                        },
                        insertions: if kind == '+' {
                            st.insertions + 1
                        } else {
                            st.insertions
                        },
                        deletions: if kind == '-' {
                            st.deletions + 1
                        } else {
                            st.deletions
                        },
                        body: st.body + 1,
                        truncated: st.body + 1 >= MAX_DIFF_LINES,
                        ..st
                    },
                }
            },
        },
    }
}

/// The walk over the patch's lines, stopping at the line cap.
pub open spec fn patch_lines(ls: Seq<Seq<char>>, st: PatchState) -> PatchState
    decreases ls.len(),
{
    if ls.len() == 0 || st.truncated {
        st
    } else {
        patch_lines(ls.skip(1), patch_step(st, ls[0]))
    }
}

pub open spec fn patch_start() -> PatchState {
    PatchState {
        hunks: seq![],
        cur: None,
        binary: false,
        truncated: false,
        insertions: 0,
        deletions: 0,
        old_left: 0,
        new_left: 0,
        body: 0,
    }
}

/// What `parse_patch` reads out of `git diff`'s output for one path.
pub open spec fn patch_model(path: Seq<char>, raw: Seq<char>) -> DiffModel {
    let st = patch_lines(lines(raw), patch_start());
    DiffModel {
        path,
        hunks: close_hunk(st),
        binary: st.binary,
        truncated: st.truncated,
        insertions: st.insertions,
        deletions: st.deletions,
    }
}

fn line_of(kind: char, text: &[char]) -> (l: DiffLine)
    ensures
        l.model() == (kind, text@),
{
    DiffLine { kind, text: string_from_chars(text) }
}

pub open spec fn exec_state(
    hunks: Seq<DiffHunk>,
    cur: Option<DiffHunk>,
    binary: bool,
    truncated: bool,
    ins: u32,
    del: u32,
    old_left: u32,
    new_left: u32,
    body: usize,
) -> PatchState {
    PatchState {
        hunks: hunk_models(hunks),
        cur: match cur {
            Some(h) => Some(h.model()),
            None => None,
        },
        binary,
        truncated,
        insertions: ins as nat,
        deletions: del as nat,
        old_left,
        new_left,
        body: body as nat,
    }
}

/// Reads one file's unified diff: hunks, their lines, the +/− totals, whether
/// git called the file binary, and whether the line cap cut it short.
pub fn parse_patch(path: &str, raw: &str) -> (diff: FileDiff)
    ensures
        diff.model() == patch_model(path@, raw@),
{
    let chars = chars_of(raw);
    let ls = lines_of(chars.as_slice());
    let ghost lv = views(ls@);
    let mut hunks: Vec<DiffHunk> = Vec::new();
    let mut hunk: Option<DiffHunk> = None;
    let mut binary = false;
    let mut truncated = false;
    let mut insertions: u32 = 0;
    let mut deletions: u32 = 0;
    let mut old_left: u32 = 0;
    let mut new_left: u32 = 0;
    let mut body_lines: usize = 0;
    proof {
        assert(lv.skip(0) =~= lv);
        assert(hunk_models(hunks@) =~= Seq::<HunkModel>::empty());
        assert("@@"@ =~= seq!['@', '@']) by {
            reveal_strlit("@@");
        }
    }
    let at = chars_of("@@");
    let mut i: usize = 0;
    while i < ls.len() && !truncated
        invariant
            i <= ls@.len(),
            lv == views(ls@),
            lv == lines(raw@),
            at@ == "@@"@,
            insertions + deletions <= body_lines,
            body_lines <= MAX_DIFF_LINES,
            !truncated ==> body_lines < MAX_DIFF_LINES,
            patch_lines(lv, patch_start()) == patch_lines(
                lv.skip(i as int),
                exec_state(
                    hunks@,
                    hunk,
                    binary,
                    truncated,
                    insertions,
                    deletions,
                    old_left,
                    new_left,
                    body_lines,
                ),
            ),
        decreases ls.len() - i,
    {
        let line = &ls[i];
        let ghost before = exec_state(
            hunks@,
            hunk,
            binary,
            truncated,
            insertions,
            deletions,
            old_left,
            new_left,
            body_lines,
        );
        proof {
            assert(lv[i as int] == line@);
            assert(lv.skip(i as int)[0] == line@);
            assert(lv.skip(i as int).skip(1) =~= lv.skip(i + 1));
        }
        match strip_prefix_of(line.as_slice(), at.as_slice()) {
            Some(header) => {
                match hunk {
                    Some(h) => {
                        proof {
                            assert(hunk_models(hunks@.push(h)) =~= hunk_models(hunks@).push(
                                h.model(),
                            ));
                        }
                        hunks.push(h);
                    },
                    None => {},
                }
                hunk = None;
                match hunk_header_of(header.as_slice()) {
                    None => {},
                    Some((os, oc, ns, nc)) => {
                        old_left = oc;
                        new_left = nc;
                        let fresh = DiffHunk {
                            old_start: os,
                            old_count: oc,
                            new_start: ns,
                            new_count: nc,
                            lines: Vec::new(),
                        };
                        assert(line_models(fresh.lines@) =~= Seq::<(char, Seq<char>)>::empty());
                        hunk = Some(fresh);
                    },
                }
                assert(exec_state(
                    hunks@,
                    hunk,
                    binary,
                    truncated,
                    insertions,
                    deletions,
                    old_left,
                    new_left,
                    body_lines,
                ) == patch_step(before, line@));
                i = i + 1;
            },
            None => {
                let is_open = hunk.is_some();
                if !is_open {
                    if has_lit_prefix(line.as_slice(), "Binary files ") || has_lit_prefix(
                        line.as_slice(),
                        "GIT binary patch",
                    ) {
                        binary = true;
                    }
                    i = i + 1;
                } else if line.len() > 0 && line[0] == '\\' {
                    i = i + 1;
                } else if old_left == 0 && new_left == 0 {
                    let h = hunk.take().unwrap();
                    proof {
                        assert(hunk_models(hunks@.push(h)) =~= hunk_models(hunks@).push(h.model()));
                    }
                    hunks.push(h);
                    if has_lit_prefix(line.as_slice(), "Binary files ") {
                        binary = true;
                    }
                    i = i + 1;
                } else {
                    let kind: char;
                    let text: Vec<char>;
                    if line.len() == 0 {
                        kind = ' ';
                        text = Vec::new();
                    } else if line[0] == '+' || line[0] == '-' || line[0] == ' ' {
                        kind = line[0];
                        text = copy_range(line.as_slice(), 1, line.len());
                        assert(text@ =~= line@.skip(1));
                    } else {
                        i = i + 1;
                        continue ;
                    }
                    assert(line_kind(line@) == Some((kind, text@)));
                    if kind == '+' {
                        new_left = if new_left > 0 {
                            new_left - 1
                        } else {
                            0
                        };
                        insertions = insertions + 1;
                    } else if kind == '-' {
                        old_left = if old_left > 0 {
                            old_left - 1
                        } else {
                            0
                        };
                        deletions = deletions + 1;
                    } else {
                        old_left = if old_left > 0 {
                            old_left - 1
                        } else {
                            0
                        };
                        new_left = if new_left > 0 {
                            new_left - 1
                        } else {
                            0
                        };
                    }
                    let mut h = hunk.take().unwrap();
                    let ghost hm = h.model();
                    let l = line_of(kind, text.as_slice());
                    proof {
                        assert(line_models(h.lines@.push(l)) =~= line_models(h.lines@).push(
                            l.model(),
                        ));
                    }
                    h.lines.push(l);
                    assert(h.model() == HunkModel { lines: hm.lines.push((kind, text@)), ..hm });
                    hunk = Some(h);
                    body_lines = body_lines + 1;
                    i = i + 1;
                    if body_lines >= MAX_DIFF_LINES {
                        truncated = true;
                    }
                }
                assert(exec_state(
                    hunks@,
                    hunk,
                    binary,
                    truncated,
                    insertions,
                    deletions,
                    old_left,
                    new_left,
                    body_lines,
                ) == patch_step(before, line@));
            },
        }
    }
    let ghost end = exec_state(
        hunks@,
        hunk,
        binary,
        truncated,
        insertions,
        deletions,
        old_left,
        new_left,
        body_lines,
    );
    assert(patch_lines(lv, patch_start()) == end);
    match hunk {
        Some(h) => {
            proof {
                assert(hunk_models(hunks@.push(h)) =~= hunk_models(hunks@).push(h.model()));
            }
            hunks.push(h);
        },
        None => {},
    }
    FileDiff {
        path: path.to_owned(),
        hunks,
        binary,
        truncated,
        insertions,
        deletions,
    }
}


// ---------------------------------------------------------------------------
// Asking git
// ---------------------------------------------------------------------------

/// The flags every diff is run with: no external driver, no colour, no rename
/// pairing, three lines of context.
pub open spec fn common_flags() -> Seq<Seq<char>> {
    seq!["--no-ext-diff"@, "--no-color"@, "--no-renames"@, "-U3"@]
}

/// The git arguments for one path's diff, or `None` for an untracked file,
/// which never shells out.
pub open spec fn diff_args_spec(path: Seq<char>, source: DiffSource) -> Option<Seq<Seq<char>>> {
    match source {
        DiffSource::Unstaged => Some(seq!["diff"@] + common_flags() + seq!["--"@, path]),
        DiffSource::Staged => Some(
            seq!["diff"@, "--cached"@] + common_flags() + seq!["--"@, path],
        ),
        DiffSource::Commit { hash } => Some(
            seq!["diff-tree"@, "--no-commit-id"@, "-p"@, "-r"@] + common_flags() + seq![
                hash@,
                "--"@,
                path,
            ],
        ),
        DiffSource::Untracked => None,
    }
}

pub open spec fn opt_strings(o: Option<Vec<String>>) -> Option<Seq<Seq<char>>> {
    match o {
        Some(v) => Some(strings(v@)),
        None => None,
    }
}

fn push_common(v: &mut Vec<String>)
    ensures
        strings(final(v)@) == strings(old(v)@) + common_flags(),
{
    let ghost start = strings(v@);
    push_lit(v, "--no-ext-diff");
    push_lit(v, "--no-color");
    push_lit(v, "--no-renames");
    push_lit(v, "-U3");
    assert(strings(v@) =~= start + common_flags());
}

/// The arguments `git` is run with for `path`'s diff on `source`'s two sides.
pub fn diff_args(path: &str, source: &DiffSource) -> (r: Option<Vec<String>>)
    ensures
        opt_strings(r) == diff_args_spec(path@, *source),
{
    let mut v: Vec<String> = Vec::new();
    match source {
        DiffSource::Unstaged => {
            push_lit(&mut v, "diff");
            push_common(&mut v);
            push_lit(&mut v, "--");
            push_lit(&mut v, path);
            assert(strings(v@) =~= seq!["diff"@] + common_flags() + seq!["--"@, path@]);
        },
        DiffSource::Staged => {
            push_lit(&mut v, "diff");
            push_lit(&mut v, "--cached");
            push_common(&mut v);
            push_lit(&mut v, "--");
            push_lit(&mut v, path);
            assert(strings(v@) =~= seq!["diff"@, "--cached"@] + common_flags() + seq![
                "--"@,
                path@,
            ]);
        },
        DiffSource::Commit { hash } => {
            push_lit(&mut v, "diff-tree");
            push_lit(&mut v, "--no-commit-id");
            push_lit(&mut v, "-p");
            push_lit(&mut v, "-r");
            push_common(&mut v);
            push_string(&mut v, hash.clone());
            push_lit(&mut v, "--");
            push_lit(&mut v, path);
            assert(strings(v@) =~= seq!["diff-tree"@, "--no-commit-id"@, "-p"@, "-r"@]
                + common_flags() + seq![hash@, "--"@, path@]);
        },
        DiffSource::Untracked => {
            return None;
        },
    }
    Some(v)
}

/// The whole trimmed stderr of a failed diff, or a generic line when git
/// said nothing.
pub fn full_message(stderr: &str) -> (m: String)
    ensures
        m@ == whole_message(stderr@, "git diff failed"@),
{
    whole_message_of(stderr, "git diff failed")
}

/// What a finished `git diff` for `path` amounts to: its parsed patch, or
/// git's complaint when it exited non-zero.
pub fn diff_from_output(path: &str, output: &Output) -> (r: Result<FileDiff, String>)
    ensures
        match r {
            Ok(d) => output.ok && d.model() == patch_model(path@, output.stdout@),
            Err(e) => !output.ok && e@ == whole_message(output.stderr@, "git diff failed"@),
        },
{
    if !output.ok {
        return Err(full_message(output.stderr.as_str()));
    }
    Ok(parse_patch(path, output.stdout.as_str()))
}

// ---------------------------------------------------------------------------
// Untracked files
// ---------------------------------------------------------------------------

/// The diff of a file with no old side, reduced to what is known before
/// reading it: nothing, when it is larger than the cap, and otherwise no
/// verdict yet.
pub fn oversized_untracked(path: &str, size: u64) -> (r: Option<FileDiff>)
    ensures
        r is Some <==> size > MAX_UNTRACKED_BYTES,
        r matches Some(d) ==> d.model() == (DiffModel {
            path: path@,
            hunks: seq![],
            binary: false,
            truncated: true,
            insertions: 0,
            deletions: 0,
        }),
{
    if size > MAX_UNTRACKED_BYTES {
        let d = FileDiff {
            path: path.to_owned(),
            hunks: Vec::new(),
            binary: false,
            truncated: true,
            insertions: 0,
            deletions: 0,
        };
        assert(hunk_models(d.hunks@) =~= Seq::<HunkModel>::empty());
        Some(d)
    } else {
        None
    }
}

/// Whether a NUL byte sits within the first `BINARY_SNIFF_BYTES` bytes —
/// git's own test for a binary file.
pub open spec fn sniffs_binary(bytes: Seq<u8>) -> bool {
    exists|i: int| 0 <= i < bytes.len() && i < BINARY_SNIFF_BYTES && bytes[i] == 0
}

pub open spec fn added(ls: Seq<Seq<char>>) -> Seq<(char, Seq<char>)> {
    ls.map_values(|l: Seq<char>| ('+', l))
}

/// An untracked file's diff against nothing: binary when it sniffs so, and
/// otherwise every line an addition in one hunk starting at new line 1, cut
/// at the line cap.
pub open spec fn untracked_model(path: Seq<char>, bytes: Seq<u8>) -> DiffModel {
    if sniffs_binary(bytes) {
        DiffModel { path, hunks: seq![], binary: true, truncated: false, insertions: 0, deletions: 0 }
    } else {
        let ls = lines(utf8_lossy(bytes));
        let kept = if ls.len() > MAX_DIFF_LINES {
            ls.take(MAX_DIFF_LINES as int)
        } else {
            ls
        };
        DiffModel {
            path,
            hunks: if kept.len() == 0 {
                seq![]
            } else {
                seq![
                    HunkModel {
                        old_start: 0,
                        old_count: 0,
                        new_start: 1,
                        new_count: kept.len() as u32,
                        lines: added(kept),
                    },
                ]
            },
            binary: false,
            truncated: ls.len() > MAX_DIFF_LINES,
            insertions: kept.len(),
            deletions: 0,
        }
    }
}

fn sniff(bytes: &[u8]) -> (r: bool)
    ensures
        r == sniffs_binary(bytes@),
{
    let n = if bytes.len() < BINARY_SNIFF_BYTES {
        bytes.len()
    } else {
        BINARY_SNIFF_BYTES
    };
    let mut i: usize = 0;
    while i < n
        invariant
            i <= n <= bytes@.len(),
            n <= BINARY_SNIFF_BYTES,
            n == bytes@.len() || n == BINARY_SNIFF_BYTES,
            forall|j: int| 0 <= j < i ==> bytes@[j] != 0,
        decreases n - i,
    {
        if bytes[i] == 0 {
            return true;
        }
        i = i + 1;
    }
    false
}

/// The diff of an untracked file from its contents.
pub fn untracked_diff(path: &str, bytes: &[u8]) -> (d: FileDiff)
    ensures
        d.model() == untracked_model(path@, bytes@),
{
    if sniff(bytes) {
        let d = FileDiff {
            path: path.to_owned(),
            hunks: Vec::new(),
            binary: true,
            truncated: false,
            insertions: 0,
            deletions: 0,
        };
        assert(hunk_models(d.hunks@) =~= Seq::<HunkModel>::empty());
        return d;
    }
    let text = lossy_text(bytes);
    let chars = chars_of(text.as_str());
    let ls = lines_of(chars.as_slice());
    let ghost lv = views(ls@);
    let truncated = ls.len() > MAX_DIFF_LINES;
    let n = if truncated {
        MAX_DIFF_LINES
    } else {
        ls.len()
    };
    let ghost kept = if ls@.len() > MAX_DIFF_LINES {
        lv.take(MAX_DIFF_LINES as int)
    } else {
        lv
    };
    assert(kept.len() == n);
    let mut out: Vec<DiffLine> = Vec::new();
    let mut i: usize = 0;
    while i < n
        invariant
            i <= n <= ls@.len(),
            n <= MAX_DIFF_LINES,
            kept.len() == n,
            lv == views(ls@),
            forall|j: int| 0 <= j < n ==> kept[j] == lv[j],
            line_models(out@) == added(kept.take(i as int)),
        decreases n - i,
    {
        let l = line_of('+', ls[i].as_slice());
        let ghost prev = out@;
        out.push(l);
        proof {
            assert(lv[i as int] == ls@[i as int]@);
            assert(line_models(out@) =~= line_models(prev).push(l.model()));
            assert(kept.take(i + 1) =~= kept.take(i as int).push(kept[i as int]));
            assert(added(kept.take(i + 1)) =~= added(kept.take(i as int)).push(
                ('+', kept[i as int]),
            ));
        }
        i = i + 1;
    }
    assert(kept.take(n as int) =~= kept);
    let count = n as u32;
    let hunks: Vec<DiffHunk> = if n == 0 {
        Vec::new()
    } else {
        vec![DiffHunk { old_start: 0, old_count: 0, new_start: 1, new_count: count, lines: out }]
    };
    let d = FileDiff {
        path: path.to_owned(),
        hunks,
        binary: false,
        truncated,
        insertions: count,
        deletions: 0,
    };
    proof {
        assert(lv == lines(utf8_lossy(bytes@)));
        if n == 0 {
            assert(hunk_models(d.hunks@) =~= Seq::<HunkModel>::empty());
        } else {
            assert(hunk_models(d.hunks@) =~= seq![d.hunks@[0].model()]);
        }
    }
    d
}

/// `s` with every line feed written as CR LF, as git prints on a system set
/// to CRLF line endings.
pub open spec fn crlf(s: Seq<char>) -> Seq<char>
    decreases s.len(),
{
    if s.len() == 0 {
        s
    } else {
        (if s[0] == '\n' {
            seq!['\r', '\n']
        } else {
            seq![s[0]]
        }) + crlf(s.skip(1))
    }
}

proof fn lemma_crlf_add(a: Seq<char>, b: Seq<char>)
    ensures
        crlf(a + b) == crlf(a) + crlf(b),
    decreases a.len(),
{
    if a.len() == 0 {
        assert(a + b =~= b);
        assert(crlf(a) + crlf(b) =~= crlf(b));
    } else {
        assert((a + b)[0] == a[0]);
        assert((a + b).skip(1) =~= a.skip(1) + b);
        lemma_crlf_add(a.skip(1), b);
        let h = if a[0] == '\n' {
            seq!['\r', '\n']
        } else {
            seq![a[0]]
        };
        assert(crlf(a + b) == h + crlf((a + b).skip(1)));
        assert(crlf(a) == h + crlf(a.skip(1)));
        assert(h + (crlf(a.skip(1)) + crlf(b)) =~= (h + crlf(a.skip(1))) + crlf(b));
    }
}

proof fn lemma_crlf_plain(s: Seq<char>)
    requires
        lacks(s, '\n', 0, s.len() as int),
    ensures
        crlf(s) == s,
    decreases s.len(),
{
    if s.len() > 0 {
        assert(lacks(s.skip(1), '\n', 0, s.skip(1).len() as int)) by {
            assert forall|j: int| 0 <= j < s.skip(1).len() implies s.skip(1)[j] != '\n' by {
                assert(s.skip(1)[j] == s[j + 1]);
            }
        }
        lemma_crlf_plain(s.skip(1));
        assert(seq![s[0]] + s.skip(1) =~= s);
    }
}

proof fn lemma_crlf_lines(s: Seq<char>)
    requires
        lacks(s, '\r', 0, s.len() as int),
    ensures
        lines(crlf(s)) == lines(s),
    decreases s.len(),
{
    if s.len() > 0 {
        lemma_find_char(s, '\n');
        match find_char(s, '\n') {
            Some(k) => {
                let head = s.take(k);
                let rest = s.skip(k + 1);
                assert(s =~= head + seq!['\n'] + rest);
                lemma_crlf_add(head + seq!['\n'], rest);
                lemma_crlf_add(head, seq!['\n']);
                assert(lacks(head, '\n', 0, head.len() as int));
                lemma_crlf_plain(head);
                let lf = seq!['\n'];
                assert(lf.len() == 1 && lf[0] == '\n');
                assert(lf.skip(1) =~= Seq::<char>::empty());
                assert(crlf(Seq::<char>::empty()) == Seq::<char>::empty());
                assert(crlf(lf) == seq!['\r', '\n'] + crlf(lf.skip(1)));
                assert(crlf(lf) =~= seq!['\r', '\n']);
                let c = crlf(s);
                assert(c == head + seq!['\r', '\n'] + crlf(rest));
                assert(lacks(c, '\n', 0, k + 1)) by {
                    assert forall|j: int| 0 <= j < k + 1 implies c[j] != '\n' by {
                        if j < k {
                            assert(c[j] == s[j]);
                        } else {
                            assert(c[j] == '\r');
                        }
                    }
                }
                assert(c[k + 1] == '\n');
                lemma_find_char_is(c, '\n', k + 1);
                assert(c.take(k + 1) =~= head.push('\r'));
                assert(c.take(k + 1).drop_last() =~= head);
                assert(c.skip(k + 2) =~= crlf(rest));
                if head.len() > 0 {
                    assert(head.last() == s[k - 1]);
                }
                assert(strip_cr(head) == head);
                assert(lacks(rest, '\r', 0, rest.len() as int)) by {
                    assert forall|j: int| 0 <= j < rest.len() implies rest[j] != '\r' by {
                        assert(rest[j] == s[j + k + 1]);
                    }
                }
                lemma_crlf_lines(rest);
                assert(lines(c) == seq![strip_cr(c.take(k + 1))] + lines(c.skip(k + 2)));
                assert(lines(s) == seq![strip_cr(s.take(k))] + lines(s.skip(k + 1)));
            },
            None => {
                lemma_crlf_plain(s);
            },
        }
    }
}

/// A patch printed with CRLF line endings reads exactly as the same patch
/// printed with LF: same hunks, lines, totals and flags. (A text that already
/// holds a CR is left out: there a bare CR at a line's end is dropped too.)
pub proof fn law_crlf_parses_as_lf(path: Seq<char>, raw: Seq<char>)
    requires
        lacks(raw, '\r', 0, raw.len() as int),
    ensures
        patch_model(path, crlf(raw)) == patch_model(path, raw),
{
    lemma_crlf_lines(raw);
}

/// The four numbers a line opens a hunk with, when it is a hunk header.
pub open spec fn opens(line: Seq<char>) -> Option<(u32, u32, u32, u32)> {
    match strip_prefix(line, "@@"@) {
        Some(h) => hunk_header(h),
        None => None,
    }
}

/// A hunk's old start and count, then its new start and count.
pub open spec fn numbers(h: HunkModel) -> (u32, u32, u32, u32) {
    (h.old_start, h.old_count, h.new_start, h.new_count)
}

/// Whether some line of `ls` is a hunk header reading exactly `n`.
pub open spec fn opened_in(ls: Seq<Seq<char>>, n: (u32, u32, u32, u32)) -> bool {
    exists|j: int| 0 <= j < ls.len() && opens(#[trigger] ls[j]) == Some(n)
}

pub open spec fn headed_by(hs: Seq<HunkModel>, ls: Seq<Seq<char>>) -> bool {
    forall|k: int| 0 <= k < hs.len() ==> opened_in(ls, numbers(#[trigger] hs[k]))
}

proof fn lemma_step_headed(st: PatchState, all: Seq<Seq<char>>, j: int)
    requires
        0 <= j < all.len(),
        headed_by(close_hunk(st), all),
    ensures
        headed_by(close_hunk(patch_step(st, all[j])), all),
{
    let line = all[j];
    let st2 = patch_step(st, line);
    let a = close_hunk(st);
    let b = close_hunk(st2);
    match strip_prefix(line, "@@"@) {
        Some(hd) => match hunk_header(hd) {
            None => {
                assert(b == a);
            },
            Some((os, oc, ns, nc)) => {
                let h = HunkModel { old_start: os, old_count: oc, new_start: ns, new_count: nc, lines: seq![] };
                assert(b == a.push(h));
                assert(opens(all[j]) == Some(numbers(h)));
                assert forall|k: int| 0 <= k < b.len() implies opened_in(all, numbers(#[trigger] b[k])) by {
                    if k < a.len() {
                        assert(b[k] == a[k]);
                    } else {
                        assert(b[k] == h);
                    }
                }
            },
        },
        None => match st.cur {
            None => {
                assert(b == a);
            },
            Some(h) => {
                if line.len() > 0 && line[0] == '\\' {
                    assert(b == a);
                } else if st.old_left == 0 && st.new_left == 0 {
                    assert(b == a);
                } else {
                    match line_kind(line) {
                        None => {
                            assert(b == a);
                        },
                        Some((kind, text)) => {
                            let h2 = HunkModel { lines: h.lines.push((kind, text)), ..h };
                            assert(b == st.hunks.push(h2));
                            assert(a == st.hunks.push(h));
                            assert forall|k: int| 0 <= k < b.len() implies opened_in(all, numbers(#[trigger] b[k])) by {
                                if k < st.hunks.len() {
                                    assert(b[k] == a[k]);
                                } else {
                                    assert(numbers(b[k]) == numbers(a[k]));
                                    assert(opened_in(all, numbers(a[k])));
                                }
                            }
                        },
                    }
                }
            },
        },
    }
}

proof fn lemma_lines_headed(all: Seq<Seq<char>>, i: int, st: PatchState)
    requires
        0 <= i <= all.len(),
        headed_by(close_hunk(st), all),
    ensures
        headed_by(close_hunk(patch_lines(all.skip(i), st)), all),
    decreases all.len() - i,
{
    let ls = all.skip(i);
    if ls.len() > 0 && !st.truncated {
        assert(ls[0] == all[i]);
        lemma_step_headed(st, all, i);
        assert(ls.skip(1) =~= all.skip(i + 1));
        lemma_lines_headed(all, i + 1, patch_step(st, all[i]));
    }
}

/// Every hunk `parse_patch` reports carries exactly the four numbers that
/// `parse_hunk_header` reads from one of the patch's `@@` lines: its old start
/// and count from the `-` range, its new start and count from the `+` range.
pub proof fn law_hunks_carry_their_header_numbers(path: Seq<char>, raw: Seq<char>)
    ensures
        forall|k: int|
            0 <= k < patch_model(path, raw).hunks.len() ==> opened_in(
                lines(raw),
                numbers(#[trigger] patch_model(path, raw).hunks[k]),
            ),
{
    let all = lines(raw);
    assert(close_hunk(patch_start()) =~= Seq::<HunkModel>::empty());
    assert(all.skip(0) =~= all);
    lemma_lines_headed(all, 0, patch_start());
}

/// A hunk range `<start>,<count>` reads as that start and that count, and a
/// bare `<start>` as that start and a count of one.
pub proof fn law_hunk_range_reads_start_then_count(a: Seq<char>, b: Seq<char>)
    requires
        lacks(a, ',', 0, a.len() as int),
    ensures
        hunk_range(a + seq![','] + b) == (match (parse_u32(a), parse_u32(b)) {
            (Some(x), Some(y)) => Some((x, y)),
            _ => None,
        }),
        hunk_range(a) == (match parse_u32(a) {
            Some(x) => Some((x, 1u32)),
            None => None,
        }),
{
    lemma_find_after(a, ',', b);
    lemma_find_char_none(a, ',');
}

proof fn lemma_first_at(h: Seq<char>, p: Seq<char>, m: int, i: int)
    requires
        p == seq!['@', '@'],
        0 <= i <= m,
        m + 2 <= h.len(),
        h[m] == '@' && h[m + 1] == '@',
        forall|k: int| 0 <= k < m ==> h[k] != '@',
    ensures
        find_sub_from(h, p, i) == Some(m),
    decreases m - i,
{
    if i == m {
        assert(h.subrange(m, m + 2) =~= p);
    } else {
        assert(h.subrange(i, i + 2)[0] == h[i]);
        assert(!occurs_at(h, p, i));
        lemma_first_at(h, p, m, i + 1);
    }
}

/// A hunk header `@@ -<old> +<new> @@ ...`, each range written without
/// whitespace or `@`, reads its old start and count from the `-` range and its
/// new start and count from the `+` range, whatever follows the closing `@@`.
pub proof fn law_hunk_header_reads_both_ranges(o: Seq<char>, n: Seq<char>, rest: Seq<char>)
    requires
        forall|k: int| 0 <= k < o.len() ==> !is_ws(#[trigger] o[k]) && o[k] != '@',
        forall|k: int| 0 <= k < n.len() ==> !is_ws(#[trigger] n[k]) && n[k] != '@',
    ensures
        hunk_header(seq![' ', '-'] + o + seq![' ', '+'] + n + seq![' ', '@', '@'] + rest) == (match (
            hunk_range(o),
            hunk_range(n),
        ) {
            (Some((os, oc)), Some((ns, nc))) => Some((os, oc, ns, nc)),
            _ => None,
        }),
{
    reveal_strlit("@@");
    reveal_strlit("-");
    reveal_strlit("+");
    let p = "@@"@;
    assert(p =~= seq!['@', '@']);
    let s = seq![' ', '-'] + o + seq![' ', '+'] + n + seq![' '];
    let h = seq![' ', '-'] + o + seq![' ', '+'] + n + seq![' ', '@', '@'] + rest;
    assert(h =~= s + seq!['@', '@'] + rest);
    let lo = o.len() as int;
    let ln = n.len() as int;
    assert(s.len() == 5 + lo + ln);
    assert forall|k: int| 0 <= k < s.len() implies s[k] != '@' && (#[trigger] h[k]) == s[k] by {
        if 2 <= k < 2 + lo {
            assert(s[k] == o[k - 2]);
        } else if 4 + lo <= k < 4 + lo + ln {
            assert(s[k] == n[k - 4 - lo]);
        }
    }
    assert(h[s.len() as int] == '@');
    assert(h[s.len() as int + 1] == '@');
    lemma_first_at(h, p, s.len() as int, 0);
    assert(h.take(s.len() as int) =~= s);
    assert(before_first(h, p) == s);
    // the two words
    assert(is_ws(' '));
    assert(!is_ws('-') && !is_ws('+'));
    let b1 = 2 + lo;
    let b2 = 4 + lo + ln;
    lemma_ws_end_is(s, 0, 1);
    assert forall|k: int| 1 <= k < b1 implies !is_ws(#[trigger] s[k]) by {
        if k >= 2 {
            assert(s[k] == o[k - 2]);
        }
    }
    lemma_word_end_is(s, 1, b1);
    lemma_ws_end_is(s, b1, b1 + 1);
    assert forall|k: int| b1 + 1 <= k < b2 implies !is_ws(#[trigger] s[k]) by {
        if k >= b1 + 2 {
            assert(s[k] == n[k - 4 - lo]);
        }
    }
    lemma_word_end_is(s, b1 + 1, b2);
    lemma_ws_end_is(s, b2, s.len() as int);
    let w1 = seq!['-'] + o;
    let w2 = seq!['+'] + n;
    assert(s.subrange(1, b1) =~= w1);
    assert(s.subrange(b1 + 1, b2) =~= w2);
    assert(split_ws_from(s, b2) == Seq::<Seq<char>>::empty());
    assert(split_ws_from(s, b1) == seq![w2] + split_ws_from(s, b2));
    assert(split_ws_from(s, 0) == seq![w1] + split_ws_from(s, b1));
    assert(split_ws(s) =~= seq![w1, w2]);
    assert(w1.take(1) =~= "-"@);
    assert(w1.skip(1) =~= o);
    assert(w2.take(1) =~= "+"@);
    assert(w2.skip(1) =~= n);
}

} // verus!
