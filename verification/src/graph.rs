//! The commit graph's data: one page of `git log`, the branch badges from
//! `for-each-ref`, and one commit's details from `diff-tree` and `show`.
//! Lane layout is the frontend's work; this module only reads git's output.
use vstd::prelude::*;

use crate::git::Output;
use crate::text::{
    lacks, lemma_find_after, lemma_splitn_after, lemma_split_step,
    chars_of, decimal, decimal_of, first_line, first_line_of, keep_some, last_piece, last_piece_of,
    lemma_keep_some_step, lemma_splitn_len, lines, lines_of, parse_i64, parse_i64_of, parse_u32,
    parse_u32_of, push_lit, push_string, split, split_on, split_once, split_once_on, split_whitespace_of,
    split_ws, splitn, splitn_of, starts_with, string_from_chars, strings, strip_prefix,
    strip_prefix_of, to_strings, trim, trim_end, trimmed, trimmed_end, views, has_lit_prefix,
    is_lit,
};

verus! {

/// One page of history.
pub const PAGE_SIZE: usize = 300;

/// The field separator of every format string below (`%x1f`).
pub const FIELD_SEP: char = '\u{1f}';

#[derive(Debug, Clone, PartialEq, Eq)]
pub struct Commit {
    pub hash: String,
    /// Full parent hashes, in order; empty for a root commit.
    pub parents: Vec<String>,
    /// `%ct`, Unix seconds.
    pub timestamp: i64,
    pub author: String,
    pub subject: String,
}

#[derive(Debug, Clone, Default, PartialEq, Eq)]
pub struct GraphPage {
    pub commits: Vec<Commit>,
    /// A full page came back, so there may be more.
    pub has_more: bool,
}

#[derive(Debug, Clone, Copy, PartialEq, Eq)]
pub enum RefKind {
    Local,
    Remote,
}

/// One ref badge; `commit` is the full hash it points at.
#[derive(Debug, Clone, PartialEq, Eq)]
pub struct RefBadge {
    pub name: String,
    pub commit: String,
    pub kind: RefKind,
}

/// The middle pane's view of one commit.
#[derive(Debug, Clone, PartialEq, Eq)]
pub struct CommitDetails {
    pub hash: String,
    pub author: String,
    pub email: String,
    /// `%ct`, Unix seconds.
    pub timestamp: i64,
    /// Full raw message, subject and body.
    pub message: String,
    pub files: Vec<CommitFileEntry>,
}

/// One changed file with its line counts; the counts are `None` for a binary
/// file, where git prints `-`.
#[derive(Debug, Clone, PartialEq, Eq)]
pub struct CommitFileEntry {
    pub path: String,
    pub status: char,
    pub insertions: Option<u32>,
    pub deletions: Option<u32>,
}

pub struct CommitModel {
    pub hash: Seq<char>,
    pub parents: Seq<Seq<char>>,
    pub timestamp: i64,
    pub author: Seq<char>,
    pub subject: Seq<char>,
}

impl Commit {
    pub open spec fn model(&self) -> CommitModel {
        CommitModel {
            hash: self.hash@,
            parents: strings(self.parents@),
            timestamp: self.timestamp,
            author: self.author@,
            subject: self.subject@,
        }
    }
}

pub open spec fn commit_models(v: Seq<Commit>) -> Seq<CommitModel> {
    v.map_values(|c: Commit| c.model())
}

pub struct RefModel {
    pub name: Seq<char>,
    pub commit: Seq<char>,
    pub kind: RefKind,
}

impl RefBadge {
    pub open spec fn model(&self) -> RefModel {
        RefModel { name: self.name@, commit: self.commit@, kind: self.kind }
    }
}

pub open spec fn ref_models(v: Seq<RefBadge>) -> Seq<RefModel> {
    v.map_values(|r: RefBadge| r.model())
}

pub struct FileModel {
    pub path: Seq<char>,
    pub status: char,
    pub insertions: Option<u32>,
    pub deletions: Option<u32>,
}

impl CommitFileEntry {
    pub open spec fn model(&self) -> FileModel {
        FileModel {
            path: self.path@,
            status: self.status,
            insertions: self.insertions,
            deletions: self.deletions,
        }
    }
}

pub open spec fn file_models(v: Seq<CommitFileEntry>) -> Seq<FileModel> {
    v.map_values(|f: CommitFileEntry| f.model())
}

pub struct DetailsModel {
    pub hash: Seq<char>,
    pub author: Seq<char>,
    pub email: Seq<char>,
    pub timestamp: i64,
    pub message: Seq<char>,
    pub files: Seq<FileModel>,
}

impl CommitDetails {
    pub open spec fn model(&self) -> DetailsModel {
        DetailsModel {
            hash: self.hash@,
            author: self.author@,
            email: self.email@,
            timestamp: self.timestamp,
            message: self.message@,
            files: file_models(self.files@),
        }
    }
}

// ---------------------------------------------------------------------------
// git log
// ---------------------------------------------------------------------------

/// One `%H%x1f%P%x1f%ct%x1f%an%x1f%s` record: `None` when it is empty, when
/// fewer than four fields are present, or when the timestamp is not a
/// number. A missing subject is an empty one.
pub open spec fn commit_of(record: Seq<char>) -> Option<CommitModel> {
    let f = splitn(record, FIELD_SEP, 5);
    if record.len() == 0 || f.len() < 4 {
        None
    } else {
        match parse_i64(f[2]) {
            Some(ts) => Some(
                CommitModel {
                    hash: f[0],
                    parents: split_ws(f[1]),
                    timestamp: ts,
                    author: f[3],
                    subject: if f.len() >= 5 {
                        f[4]
                    } else {
                        seq![]
                    },
                },
            ),
            None => None,
        }
    }
}

/// The commits of a NUL-terminated `git log -z` output, in order, skipping
/// records that do not parse.
pub open spec fn log_model(raw: Seq<char>) -> Seq<CommitModel> {
    keep_some(split(raw, '\0').map_values(|r: Seq<char>| commit_of(r)))
}

pub open spec fn opt_commit(c: Option<Commit>) -> Option<CommitModel> {
    match c {
        Some(c) => Some(c.model()),
        None => None,
    }
}

pub fn parse_commit(record: &str) -> (r: Option<Commit>)
    ensures
        opt_commit(r) == commit_of(record@),
{
    let rec = chars_of(record);
    parse_commit_chars(rec.as_slice())
}

fn parse_commit_chars(rec: &[char]) -> (r: Option<Commit>)
    ensures
        opt_commit(r) == commit_of(rec@),
{
    if rec.len() == 0 {
        return None;
    }
    let f = splitn_of(rec, FIELD_SEP, 5);
    proof {
        lemma_splitn_len(rec@, FIELD_SEP, 5);
    }
    if f.len() < 4 {
        return None;
    }
    proof {
        assert(views(f@)[0] == f@[0]@);
        assert(views(f@)[1] == f@[1]@);
        assert(views(f@)[2] == f@[2]@);
        assert(views(f@)[3] == f@[3]@);
    }
    let ts = match parse_i64_of(f[2].as_slice()) {
        Some(ts) => ts,
        None => {
            return None;
        },
    };
    let words = split_whitespace_of(f[1].as_slice());
    let parents = to_strings(&words);
    let empty: Vec<char> = Vec::new();
    let subject = if f.len() >= 5 {
        proof {
            assert(views(f@)[4] == f@[4]@);
        }
        string_from_chars(f[4].as_slice())
    } else {
        string_from_chars(empty.as_slice())
    };
    let c = Commit {
        hash: string_from_chars(f[0].as_slice()),
        parents,
        timestamp: ts,
        author: string_from_chars(f[3].as_slice()),
        subject,
    };
    proof {
        let fv = views(f@);
        assert(fv == splitn(rec@, FIELD_SEP, 5));
        assert(c.model().hash == fv[0]);
        assert(c.model().parents == split_ws(fv[1]));
        assert(c.model().author == fv[3]);
        assert(c.model().subject == (if fv.len() >= 5 {
            fv[4]
        } else {
            Seq::<char>::empty()
        }));
    }
    Some(c)
}

/// The commits in a `git log -z` output.
pub fn parse_log(raw: &str) -> (r: Vec<Commit>)
    ensures
        commit_models(r@) == log_model(raw@),
{
    let chars = chars_of(raw);
    let records = split_on(chars.as_slice(), '\0');
    let ghost all = split(raw@, '\0').map_values(|r: Seq<char>| commit_of(r));
    let mut out: Vec<Commit> = Vec::new();
    let mut i: usize = 0;
    while i < records.len()
        invariant
            i <= records@.len(),
            views(records@) == split(raw@, '\0'),
            all == split(raw@, '\0').map_values(|r: Seq<char>| commit_of(r)),
            commit_models(out@) == keep_some(all.take(i as int)),
        decreases records.len() - i,
    {
        let c = parse_commit_chars(records[i].as_slice());
        proof {
            assert(views(records@)[i as int] == records@[i as int]@);
            assert(all[i as int] == commit_of(records@[i as int]@));
            lemma_keep_some_step(all, i as int);
        }
        match c {
            Some(c) => {
                let ghost prev = out@;
                out.push(c);
                assert(commit_models(out@) =~= commit_models(prev).push(c.model()));
            },
            None => {},
        }
        i = i + 1;
    }
    assert(all.take(all.len() as int) =~= all);
    out
}

/// The arguments of `git log` for the page starting `skip` commits in.
pub open spec fn log_args_spec(skip: usize) -> Seq<Seq<char>> {
    seq![
        "log"@,
        "--all"@,
        "--date-order"@,
        "-z"@,
        "-n"@,
        decimal(PAGE_SIZE as nat),
        "--skip"@,
        decimal(skip as nat),
        "--format=%H%x1f%P%x1f%ct%x1f%an%x1f%s"@,
    ]
}

pub fn log_args(skip: usize) -> (r: Vec<String>)
    ensures
        strings(r@) == log_args_spec(skip),
{
    let mut v: Vec<String> = Vec::new();
    push_lit(&mut v, "log");
    push_lit(&mut v, "--all");
    push_lit(&mut v, "--date-order");
    push_lit(&mut v, "-z");
    push_lit(&mut v, "-n");
    let n = decimal_of(PAGE_SIZE as u64);
    push_string(&mut v, string_from_chars(n.as_slice()));
    push_lit(&mut v, "--skip");
    let s = decimal_of(skip as u64);
    push_string(&mut v, string_from_chars(s.as_slice()));
    push_lit(&mut v, "--format=%H%x1f%P%x1f%ct%x1f%an%x1f%s");
    assert(strings(v@) =~= log_args_spec(skip));
    v
}

/// The first non-blank line of a failed read's stderr, or a generic line.
pub fn first_line_message(stderr: &str) -> (m: String)
    ensures
        m@ == first_line(stderr@, "git log failed"@),
{
    first_line_of(stderr, "git log failed")
}

/// What a finished `git log` amounts to: its page of commits (with "more to
/// come" exactly when the page is full), or git's first line of complaint.
pub fn page_from_output(output: &Output) -> (r: Result<GraphPage, String>)
    ensures
        match r {
            Ok(p) => output.ok && commit_models(p.commits@) == log_model(output.stdout@)
                && p.has_more == (log_model(output.stdout@).len() == PAGE_SIZE),
            Err(e) => !output.ok && e@ == first_line(output.stderr@, "git log failed"@),
        },
{
    if !output.ok {
        return Err(first_line_message(output.stderr.as_str()));
    }
    let commits = parse_log(output.stdout.as_str());
    let has_more = commits.len() == PAGE_SIZE;
    Ok(GraphPage { commits, has_more })
}

// ---------------------------------------------------------------------------
// Ref badges
// ---------------------------------------------------------------------------

/// One `%(refname)%1f%(objectname)` line: a local or remote branch, named
/// without its namespace. Anything else — a tag, a note, a remote's symbolic
/// `HEAD` — is no badge.
pub open spec fn ref_of(line: Seq<char>) -> Option<RefModel> {
    match split_once(line, FIELD_SEP) {
        None => None,
        Some((refname, commit)) => {
            let named = match strip_prefix(refname, "refs/heads/"@) {
                Some(n) => Some((n, RefKind::Local)),
                None => match strip_prefix(refname, "refs/remotes/"@) {
                    Some(n) => Some((n, RefKind::Remote)),
                    None => None,
                },
            };
            match named {
                None => None,
                Some((short, kind)) => if last_piece(short, '/') == "HEAD"@ {
                    None
                } else {
                    Some(RefModel { name: short, commit, kind })
                },
            }
        },
    }
}

pub open spec fn refs_model(raw: Seq<char>) -> Seq<RefModel> {
    keep_some(lines(raw).map_values(|l: Seq<char>| ref_of(l)))
}

pub open spec fn opt_ref(r: Option<RefBadge>) -> Option<RefModel> {
    match r {
        Some(r) => Some(r.model()),
        None => None,
    }
}

pub fn parse_ref(line: &str) -> (r: Option<RefBadge>)
    ensures
        opt_ref(r) == ref_of(line@),
{
    let l = chars_of(line);
    parse_ref_chars(l.as_slice())
}

fn parse_ref_chars(line: &[char]) -> (r: Option<RefBadge>)
    ensures
        opt_ref(r) == ref_of(line@),
{
    let (refname, commit) = match split_once_on(line, FIELD_SEP) {
        Some(p) => p,
        None => {
            return None;
        },
    };
    let heads = chars_of("refs/heads/");
    let remotes = chars_of("refs/remotes/");
    let (short, kind) = match strip_prefix_of(refname.as_slice(), heads.as_slice()) {
        Some(n) => (n, RefKind::Local),
        None => match strip_prefix_of(refname.as_slice(), remotes.as_slice()) {
            Some(n) => (n, RefKind::Remote),
            None => {
                return None;
            },
        },
    };
    let last = last_piece_of(short.as_slice(), '/');
    if is_lit(last.as_slice(), "HEAD") {
        return None;
    }
    Some(
        RefBadge {
            name: string_from_chars(short.as_slice()),
            commit: string_from_chars(commit.as_slice()),
            kind,
        },
    )
}

/// The badges in a `for-each-ref` output, in order.
pub fn parse_refs(raw: &str) -> (r: Vec<RefBadge>)
    ensures
        ref_models(r@) == refs_model(raw@),
{
    let chars = chars_of(raw);
    let ls = lines_of(chars.as_slice());
    let ghost all = lines(raw@).map_values(|l: Seq<char>| ref_of(l));
    let mut out: Vec<RefBadge> = Vec::new();
    let mut i: usize = 0;
    while i < ls.len()
        invariant
            i <= ls@.len(),
            views(ls@) == lines(raw@),
            all == lines(raw@).map_values(|l: Seq<char>| ref_of(l)),
            ref_models(out@) == keep_some(all.take(i as int)),
        decreases ls.len() - i,
    {
        let b = parse_ref_chars(ls[i].as_slice());
        proof {
            assert(views(ls@)[i as int] == ls@[i as int]@);
            assert(all[i as int] == ref_of(ls@[i as int]@));
            lemma_keep_some_step(all, i as int);
        }
        match b {
            Some(b) => {
                let ghost prev = out@;
                out.push(b);
                assert(ref_models(out@) =~= ref_models(prev).push(b.model()));
            },
            None => {},
        }
        i = i + 1;
    }
    assert(all.take(all.len() as int) =~= all);
    out
}

/// The arguments of the `for-each-ref` call: branches, local and remote.
pub open spec fn refs_args_spec() -> Seq<Seq<char>> {
    seq![
        "for-each-ref"@,
        "--format=%(refname)%1f%(objectname)"@,
        "refs/heads"@,
        "refs/remotes"@,
    ]
}

pub fn refs_args() -> (r: Vec<String>)
    ensures
        strings(r@) == refs_args_spec(),
{
    let mut v: Vec<String> = Vec::new();
    push_lit(&mut v, "for-each-ref");
    push_lit(&mut v, "--format=%(refname)%1f%(objectname)");
    push_lit(&mut v, "refs/heads");
    push_lit(&mut v, "refs/remotes");
    assert(strings(v@) =~= refs_args_spec());
    v
}

/// What a finished `for-each-ref` amounts to.
pub fn refs_from_output(output: &Output) -> (r: Result<Vec<RefBadge>, String>)
    ensures
        match r {
            Ok(v) => output.ok && ref_models(v@) == refs_model(output.stdout@),
            Err(e) => !output.ok && e@ == first_line(output.stderr@, "git log failed"@),
        },
{
    if !output.ok {
        return Err(first_line_message(output.stderr.as_str()));
    }
    Ok(parse_refs(output.stdout.as_str()))
}

// ---------------------------------------------------------------------------
// One commit's details
// ---------------------------------------------------------------------------

/// `diff-tree` over one commit with both the `--raw` and the `--numstat`
/// blocks. `-m --first-parent` makes a merge list what it brought in, and
/// `--root` makes the root commit list anything at all.
pub open spec fn diff_tree_args_spec(hash: Seq<char>) -> Seq<Seq<char>> {
    seq![
        "diff-tree"@,
        "--no-commit-id"@,
        "-m"@,
        "--first-parent"@,
        "--root"@,
        "--raw"@,
        "--numstat"@,
        "-r"@,
        "-z"@,
        hash,
    ]
}

pub fn diff_tree_args(hash: &str) -> (r: Vec<String>)
    ensures
        strings(r@) == diff_tree_args_spec(hash@),
{
    let mut v: Vec<String> = Vec::new();
    push_lit(&mut v, "diff-tree");
    push_lit(&mut v, "--no-commit-id");
    push_lit(&mut v, "-m");
    push_lit(&mut v, "--first-parent");
    push_lit(&mut v, "--root");
    push_lit(&mut v, "--raw");
    push_lit(&mut v, "--numstat");
    push_lit(&mut v, "-r");
    push_lit(&mut v, "-z");
    push_lit(&mut v, hash);
    assert(strings(v@) =~= diff_tree_args_spec(hash@));
    v
}

/// The arguments of the `git show` that reads a commit's metadata.
pub open spec fn show_args_spec(hash: Seq<char>) -> Seq<Seq<char>> {
    seq!["show"@, "-s"@, "--format=%H%x1f%an%x1f%ae%x1f%ct%x1f%B"@, hash]
}

pub fn show_args(hash: &str) -> (r: Vec<String>)
    ensures
        strings(r@) == show_args_spec(hash@),
{
    let mut v: Vec<String> = Vec::new();
    push_lit(&mut v, "show");
    push_lit(&mut v, "-s");
    push_lit(&mut v, "--format=%H%x1f%an%x1f%ae%x1f%ct%x1f%B");
    push_lit(&mut v, hash);
    assert(strings(v@) =~= show_args_spec(hash@));
    v
}

/// The tokens of a `-z` output that are not empty.
pub open spec fn tokens(raw: Seq<char>) -> Seq<Seq<char>> {
    keep_some(
        split(raw, '\0').map_values(
            |t: Seq<char>|
                if t.len() > 0 {
                    Some(t)
                } else {
                    None
                },
        ),
    )
}

/// The position after `k` more tokens from `i`, never past the end.
pub open spec fn after(toks: Seq<Seq<char>>, i: int, k: int) -> int {
    if i + k <= toks.len() {
        i + k
    } else {
        toks.len() as int
    }
}

/// The `--raw` block from position `i`: `:mode mode sha sha status` headers,
/// each followed by its path — or, for a rename or copy (`R`/`C`), by the old
/// path and then the new one, which is the one kept. Returns the entries
/// read and where the block ends.
pub open spec fn raw_block(
    toks: Seq<Seq<char>>,
    i: int,
    acc: Seq<(char, Seq<char>)>,
) -> (Seq<(char, Seq<char>)>, int)
    decreases toks.len() - i,
{
    if i < 0 || i >= toks.len() || !starts_with(toks[i], ":"@) {
        (acc, i)
    } else {
        let ws = split_ws(toks[i]);
        if ws.len() == 0 || ws.last().len() == 0 {
            raw_block(toks, i + 1, acc)
        } else {
            let status = ws.last()[0];
            if status == 'R' || status == 'C' {
                if i + 2 < toks.len() {
                    raw_block(toks, i + 3, acc.push((status, toks[i + 2])))
                } else {
                    raw_block(toks, after(toks, i, 3), acc)
                }
            } else if i + 1 < toks.len() {
                raw_block(toks, i + 2, acc.push((status, toks[i + 1])))
            } else {
                raw_block(toks, after(toks, i, 2), acc)
            }
        }
    }
}

/// The `--numstat` block from position `i`: `added\tdeleted\tpath` per file,
/// a count `None` where git printed `-`. A rename or copy leaves the path
/// field empty and puts its two paths in the next two tokens, which are
/// passed over.
pub open spec fn numstat_block(
    toks: Seq<Seq<char>>,
    i: int,
    acc: Seq<(Option<u32>, Option<u32>)>,
) -> Seq<(Option<u32>, Option<u32>)>
    decreases toks.len() - i,
{
    if i < 0 || i >= toks.len() {
        acc
    } else {
        let f = splitn(toks[i], '\t', 3);
        let added = if f.len() >= 1 {
            f[0]
        } else {
            seq![]
        };
        let deleted = if f.len() >= 2 {
            f[1]
        } else {
            seq![]
        };
        let path = if f.len() >= 3 {
            f[2]
        } else {
            seq![]
        };
        let next = if path.len() == 0 {
            after(toks, i, 3)
        } else {
            i + 1
        };
        numstat_block(toks, next, acc.push((parse_u32(added), parse_u32(deleted))))
    }
}

/// The changed files of `--raw --numstat -r -z` output: the two blocks zipped
/// by position, as far as both reach.
pub open spec fn raw_and_numstat(raw: Seq<char>) -> Seq<FileModel> {
    let toks = tokens(raw);
    let (entries, end) = raw_block(toks, 0, seq![]);
    let stats = numstat_block(toks, end, seq![]);
    let n = if entries.len() < stats.len() {
        entries.len()
    } else {
        stats.len()
    };
    Seq::new(n, |k: int| file_at(entries, stats, k))
}

/// The `k`th changed file: its status and path from the raw block, its
/// counts from the numstat block.
pub open spec fn file_at(
    entries: Seq<(char, Seq<char>)>,
    stats: Seq<(Option<u32>, Option<u32>)>,
    k: int,
) -> FileModel {
    FileModel {
        path: entries[k].1,
        status: entries[k].0,
        insertions: stats[k].0,
        deletions: stats[k].1,
    }
}

fn nonempty_tokens(raw: &str) -> (r: Vec<Vec<char>>)
    ensures
        views(r@) == tokens(raw@),
{
    let chars = chars_of(raw);
    let pieces = split_on(chars.as_slice(), '\0');
    let ghost all = split(raw@, '\0').map_values(
        |t: Seq<char>|
            if t.len() > 0 {
                Some(t)
            } else {
                None
            },
    );
    let mut out: Vec<Vec<char>> = Vec::new();
    let mut i: usize = 0;
    while i < pieces.len()
        invariant
            i <= pieces@.len(),
            views(pieces@) == split(raw@, '\0'),
            all == split(raw@, '\0').map_values(
                |t: Seq<char>|
                    if t.len() > 0 {
                        Some(t)
                    } else {
                        None
                    },
            ),
            views(out@) == keep_some(all.take(i as int)),
        decreases pieces.len() - i,
    {
        proof {
            assert(views(pieces@)[i as int] == pieces@[i as int]@);
            lemma_keep_some_step(all, i as int);
        }
        if pieces[i].len() > 0 {
            let ghost prev = out@;
            out.push(pieces[i].clone());
            assert(views(out@) =~= views(prev).push(pieces@[i as int]@));
        }
        i = i + 1;
    }
    assert(all.take(all.len() as int) =~= all);
    out
}

fn status_letter(token: &[char]) -> (r: Option<char>)
    ensures
        ({
            let ws = split_ws(token@);
            r == if ws.len() == 0 || ws.last().len() == 0 {
                None::<char>
            } else {
                Some(ws.last()[0])
            }
        }),
{
    let ws = split_whitespace_of(token);
    if ws.len() == 0 {
        return None;
    }
    let n = ws.len();
    proof {
        assert(views(ws@).last() == ws@[n - 1]@);
    }
    if ws[n - 1].len() == 0 {
        None
    } else {
        Some(ws[n - 1][0])
    }
}

/// The changed files of one commit from `diff-tree --raw --numstat -r -z`.
pub fn parse_raw_and_numstat(raw: &str) -> (r: Vec<CommitFileEntry>)
    ensures
        file_models(r@) == raw_and_numstat(raw@),
{
    let toks = nonempty_tokens(raw);
    let ghost tv = views(toks@);
    let mut statuses: Vec<char> = Vec::new();
    let mut paths: Vec<Vec<char>> = Vec::new();
    let mut i: usize = 0;
    let ghost start = raw_block(tv, 0, seq![]);
    assert(pairs(statuses@, views(paths@)) =~= Seq::<(char, Seq<char>)>::empty());
    while i < toks.len() && has_lit_prefix(toks[i].as_slice(), ":")
        invariant
            i <= toks@.len(),
            tv == views(toks@),
            statuses@.len() == paths@.len(),
            start == raw_block(tv, 0, seq![]),
            start == raw_block(tv, i as int, pairs(statuses@, views(paths@))),
        decreases toks.len() - i,
    {
        let ghost acc = pairs(statuses@, views(paths@));
        proof {
            assert(tv[i as int] == toks@[i as int]@);
        }
        match status_letter(toks[i].as_slice()) {
            None => {
                i = i + 1;
            },
            Some(status) => {
                if status == 'R' || status == 'C' {
                    if toks.len() - i > 2 {
                        proof {
                            assert(tv[i + 2] == toks@[i + 2]@);
                        }
                        statuses.push(status);
                        paths.push(toks[i + 2].clone());
                        assert(pairs(statuses@, views(paths@)) =~= acc.push((status, tv[i + 2])));
                        i = i + 3;
                    } else {
                        i = toks.len();
                    }
                } else if toks.len() - i > 1 {
                    proof {
                        assert(tv[i + 1] == toks@[i + 1]@);
                    }
                    statuses.push(status);
                    paths.push(toks[i + 1].clone());
                    assert(pairs(statuses@, views(paths@)) =~= acc.push((status, tv[i + 1])));
                    i = i + 2;
                } else {
                    i = toks.len();
                }
            },
        }
    }
    let ghost em = pairs(statuses@, views(paths@));
    assert(start == (em, i as int)) by {
        if i < toks.len() {
            assert(tv[i as int] == toks@[i as int]@);
        }
    }
    let mut stats: Vec<(Option<u32>, Option<u32>)> = Vec::new();
    let mut j: usize = i;
    let ghost end = numstat_block(tv, i as int, seq![]);
    while j < toks.len()
        invariant
            i <= j <= toks@.len(),
            tv == views(toks@),
            end == numstat_block(tv, i as int, seq![]),
            end == numstat_block(tv, j as int, stats@),
        decreases toks.len() - j,
    {
        let f = splitn_of(toks[j].as_slice(), '\t', 3);
        proof {
            assert(tv[j as int] == toks@[j as int]@);
            lemma_splitn_len(toks@[j as int]@, '\t', 3);
            assert(views(f@)[0] == f@[0]@);
        }
        let added = parse_u32_of(f[0].as_slice());
        let empty: Vec<char> = Vec::new();
        let deleted = if f.len() >= 2 {
            proof {
                assert(views(f@)[1] == f@[1]@);
            }
            parse_u32_of(f[1].as_slice())
        } else {
            parse_u32_of(empty.as_slice())
        };
        let path_empty = if f.len() >= 3 {
            proof {
                assert(views(f@)[2] == f@[2]@);
            }
            f[2].len() == 0
        } else {
            true
        };
        proof {
            assert(Seq::<char>::empty() =~= seq![]);
        }
        stats.push((added, deleted));
        if path_empty {
            j = if toks.len() - j >= 3 {
                j + 3
            } else {
                toks.len()
            };
        } else {
            j = j + 1;
        }
    }
    zip_files(&statuses, &paths, &stats)
}

/// The character at `k`, read through a call so that its result carries the
/// `char` range with it.
fn char_at(v: &Vec<char>, k: usize) -> (c: char)
    requires
        k < v@.len(),
    ensures
        c == v@[k as int],
{
    v[k]
}

/// Status letters and paths side by side.
pub open spec fn pairs(st: Seq<char>, ps: Seq<Seq<char>>) -> Seq<(char, Seq<char>)> {
    Seq::new(st.len(), |x: int| (st[x], ps[x]))
}

fn zip_files(
    statuses: &Vec<char>,
    paths: &Vec<Vec<char>>,
    stats: &Vec<(Option<u32>, Option<u32>)>,
) -> (r: Vec<CommitFileEntry>)
    requires
        statuses@.len() == paths@.len(),
    ensures
        ({
            let em = pairs(statuses@, views(paths@));
            let n = if em.len() < stats@.len() {
                em.len()
            } else {
                stats@.len()
            };
            file_models(r@) == Seq::new(n, |x: int| file_at(em, stats@, x))
        }),
{
    let ghost em = pairs(statuses@, views(paths@));
    let n = if statuses.len() < stats.len() {
        statuses.len()
    } else {
        stats.len()
    };
    let mut out: Vec<CommitFileEntry> = Vec::new();
    let mut k: usize = 0;
    while k < n
        invariant
            k <= n,
            n <= statuses@.len(),
            statuses@.len() == paths@.len(),
            n <= stats@.len(),
            em == pairs(statuses@, views(paths@)),
            out@.len() == k,
            forall|x: int| 0 <= x < k ==> #[trigger] out@[x].model() == file_at(em, stats@, x),
        decreases n - k,
    {
        let status = char_at(statuses, k);
        let item = CommitFileEntry {
            path: string_from_chars(paths[k].as_slice()),
            status,
            insertions: stats[k].0,
            deletions: stats[k].1,
        };
        proof {
            assert(views(paths@)[k as int] == paths@[k as int]@);
            assert(em[k as int] == (statuses@[k as int], paths@[k as int]@));
        }
        out.push(item);
        k = k + 1;
    }
    assert(file_models(out@) =~= Seq::new(n as nat, |x: int| file_at(em, stats@, x)));
    out
}

/// `%H%x1f%an%x1f%ae%x1f%ct%x1f%B`: an error when there is no hash at all;
/// otherwise the fields in order, missing ones empty, a timestamp that is not
/// a number 0, and the message without the newline `%B` always ends with.
pub open spec fn show_model(raw: Seq<char>, files: Seq<FileModel>) -> Option<DetailsModel> {
    let f = splitn(raw, FIELD_SEP, 5);
    let field = |k: int|
        if k < f.len() {
            f[k]
        } else {
            Seq::<char>::empty()
        };
    if field(0).len() == 0 {
        None
    } else {
        Some(
            DetailsModel {
                hash: field(0),
                author: field(1),
                email: field(2),
                timestamp: match parse_i64(trim(field(3))) {
                    Some(t) => t,
                    None => 0,
                },
                message: trim_end(field(4)),
                files,
            },
        )
    }
}

fn field_or_empty(f: &Vec<Vec<char>>, k: usize) -> (r: Vec<char>)
    ensures
        r@ == if k < f@.len() {
            f@[k as int]@
        } else {
            Seq::<char>::empty()
        },
{
    if k < f.len() {
        f[k].clone()
    } else {
        Vec::new()
    }
}

/// One commit's details from `git show`'s output and the files `diff-tree`
/// listed for it.
pub fn parse_show(raw: &str, files: Vec<CommitFileEntry>) -> (r: Result<CommitDetails, String>)
    ensures
        match r {
            Ok(d) => show_model(raw@, file_models(files@)) == Some(d.model()),
            Err(e) => show_model(raw@, file_models(files@)) is None
                && e@ == "git show returned no output"@,
        },
{
    let chars = chars_of(raw);
    let f = splitn_of(chars.as_slice(), FIELD_SEP, 5);
    let ghost fv = views(f@);
    proof {
        assert forall|k: int| 0 <= k < f@.len() implies fv[k] == f@[k]@ by {}
    }
    let hash = field_or_empty(&f, 0);
    if hash.len() == 0 {
        return Err("git show returned no output".to_owned());
    }
    let author = field_or_empty(&f, 1);
    let email = field_or_empty(&f, 2);
    let ts_field = field_or_empty(&f, 3);
    let ts_trim = trimmed(ts_field.as_slice());
    let timestamp = match parse_i64_of(ts_trim.as_slice()) {
        Some(t) => t,
        None => 0,
    };
    let msg_field = field_or_empty(&f, 4);
    let message = trimmed_end(msg_field.as_slice());
    Ok(
        CommitDetails {
            hash: string_from_chars(hash.as_slice()),
            author: string_from_chars(author.as_slice()),
            email: string_from_chars(email.as_slice()),
            timestamp,
            message: string_from_chars(message.as_slice()),
            files,
        },
    )
}

/// What the two finished reads behind a commit's details amount to: the
/// `diff-tree` failure first, then the `show` call's own failure to run or
/// git's complaint, and otherwise the parsed details.
pub fn details_from_outputs(files_output: &Output, meta_result: Result<Output, String>) -> (r:
    Result<CommitDetails, String>)
    ensures
        !files_output.ok ==> (r matches Err(e) && e@ == first_line(
            files_output.stderr@,
            "git log failed"@,
        )),
        files_output.ok ==> match meta_result {
            Err(e) => r == Err::<CommitDetails, String>(e),
            Ok(m) => if !m.ok {
                r matches Err(e) && e@ == first_line(m.stderr@, "git log failed"@)
            } else {
                match r {
                    Ok(d) => show_model(
                        m.stdout@,
                        raw_and_numstat(files_output.stdout@),
                    ) == Some(d.model()),
                    Err(e) => show_model(m.stdout@, raw_and_numstat(files_output.stdout@)) is None
                        && e@ == "git show returned no output"@,
                }
            },
        },
{
    if !files_output.ok {
        return Err(first_line_message(files_output.stderr.as_str()));
    }
    let meta = match meta_result {
        Ok(m) => m,
        Err(e) => {
            return Err(e);
        },
    };
    if !meta.ok {
        return Err(first_line_message(meta.stderr.as_str()));
    }
    let files = parse_raw_and_numstat(files_output.stdout.as_str());
    parse_show(meta.stdout.as_str(), files)
}

/// A `git log -z` record — hash, parents, commit time, author and subject,
/// each field ended by the unit separator (the subject may hold anything) —
/// reads as exactly that commit: its parents are the whitespace-separated
/// hashes of the second field in the order git printed them, so the first
/// parent comes first. A whole output of that one record, NUL-terminated,
/// is a page of that one commit.
pub proof fn law_commit_fields(
    h: Seq<char>,
    p: Seq<char>,
    t: Seq<char>,
    a: Seq<char>,
    subj: Seq<char>,
    ts: i64,
)
    requires
        lacks(h, FIELD_SEP, 0, h.len() as int),
        lacks(p, FIELD_SEP, 0, p.len() as int),
        lacks(t, FIELD_SEP, 0, t.len() as int),
        lacks(a, FIELD_SEP, 0, a.len() as int),
        parse_i64(t) == Some(ts),
    ensures
        ({
            let rec = h + seq![FIELD_SEP] + p + seq![FIELD_SEP] + t + seq![FIELD_SEP] + a + seq![
                FIELD_SEP,
            ] + subj;
            &&& commit_of(rec) == Some(
                CommitModel { hash: h, parents: split_ws(p), timestamp: ts, author: a, subject: subj },
            )
            &&& lacks(rec, '\0', 0, rec.len() as int) ==> log_model(rec + seq!['\0']) == seq![
                CommitModel { hash: h, parents: split_ws(p), timestamp: ts, author: a, subject: subj },
            ]
        }),
{
    let u = FIELD_SEP;
    let r4 = a + seq![u] + subj;
    let r3 = t + seq![u] + r4;
    let r2 = p + seq![u] + r3;
    let rec = h + seq![u] + r2;
    assert(rec =~= h + seq![u] + p + seq![u] + t + seq![u] + a + seq![u] + subj);
    lemma_splitn_after(h, u, r2, 5);
    lemma_splitn_after(p, u, r3, 4);
    lemma_splitn_after(t, u, r4, 3);
    lemma_splitn_after(a, u, subj, 2);
    let f = splitn(rec, u, 5);
    assert(f =~= seq![h, p, t, a, subj]);
    assert(rec.len() > 0);
    let c = CommitModel { hash: h, parents: split_ws(p), timestamp: ts, author: a, subject: subj };
    assert(commit_of(rec) == Some(c));
    if lacks(rec, '\0', 0, rec.len() as int) {
        let whole = rec + seq!['\0'];
        assert(whole[rec.len() as int] == '\0');
        assert(lacks(whole, '\0', 0, rec.len() as int)) by {
            assert forall|j: int| 0 <= j < rec.len() implies whole[j] != '\0' by {
                assert(whole[j] == rec[j]);
            }
        }
        lemma_split_step(whole, '\0', rec.len() as int);
        assert(whole.take(rec.len() as int) =~= rec);
        let empty = whole.skip(rec.len() as int + 1);
        assert(empty =~= Seq::<char>::empty());
        crate::text::lemma_find_char_none(empty, '\0');
        assert(split(empty, '\0') == seq![empty]);
        let pieces = split(whole, '\0');
        assert(pieces =~= seq![rec, empty]);
        assert(commit_of(empty) is None);
        let m = pieces.map_values(|r: Seq<char>| commit_of(r));
        assert(m =~= seq![Some(c), None]);
        lemma_keep_some_step(m, 0);
        lemma_keep_some_step(m, 1);
        assert(m.take(0) =~= Seq::<Option<CommitModel>>::empty());
        assert(m.take(2) =~= m);
        assert(keep_some(m) =~= seq![c]);
    }
}

/// A `for-each-ref` line naming a local branch, `refs/heads/<name>` then the
/// unit separator and the commit, is a local badge named by the whole of
/// `<name>`, slashes kept; `refs/remotes/<name>` likewise a remote badge
/// named `<name>`. Only a name whose last piece is `HEAD` gets no badge.
pub proof fn law_badges_keep_the_whole_name(n: Seq<char>, oid: Seq<char>)
    requires
        lacks(n, FIELD_SEP, 0, n.len() as int),
        last_piece(n, '/') != "HEAD"@,
    ensures
        ref_of("refs/heads/"@ + n + seq![FIELD_SEP] + oid) == Some(
            RefModel { name: n, commit: oid, kind: RefKind::Local },
        ),
        ref_of("refs/remotes/"@ + n + seq![FIELD_SEP] + oid) == Some(
            RefModel { name: n, commit: oid, kind: RefKind::Remote },
        ),
{
    reveal_strlit("refs/heads/");
    reveal_strlit("refs/remotes/");
    let heads = "refs/heads/"@;
    let remotes = "refs/remotes/"@;
    assert(heads =~= seq!['r', 'e', 'f', 's', '/', 'h', 'e', 'a', 'd', 's', '/']);
    assert(remotes =~= seq!['r', 'e', 'f', 's', '/', 'r', 'e', 'm', 'o', 't', 'e', 's', '/']);
    let hn = heads + n;
    let rn = remotes + n;
    assert(lacks(hn, FIELD_SEP, 0, hn.len() as int)) by {
        assert forall|j: int| 0 <= j < hn.len() implies hn[j] != FIELD_SEP by {
            if j >= 11 {
                assert(hn[j] == n[j - 11]);
            }
        }
    }
    assert(lacks(rn, FIELD_SEP, 0, rn.len() as int)) by {
        assert forall|j: int| 0 <= j < rn.len() implies rn[j] != FIELD_SEP by {
            if j >= 13 {
                assert(rn[j] == n[j - 13]);
            }
        }
    }
    lemma_find_after(hn, FIELD_SEP, oid);
    lemma_find_after(rn, FIELD_SEP, oid);
    assert(hn + seq![FIELD_SEP] + oid =~= heads + n + seq![FIELD_SEP] + oid);
    assert(rn + seq![FIELD_SEP] + oid =~= remotes + n + seq![FIELD_SEP] + oid);
    assert(hn.take(11) =~= heads);
    assert(hn.skip(11) =~= n);
    assert(strip_prefix(hn, heads) == Some(n));
    assert(rn.take(13) =~= remotes);
    assert(rn.skip(13) =~= n);
    assert(rn.take(11)[5] == 'r');
    assert(rn.take(11) != heads);
    assert(strip_prefix(rn, heads) is None);
    assert(strip_prefix(rn, remotes) == Some(n));
}

} // verus!
