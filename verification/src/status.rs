//! `git status --porcelain=v2 --branch -z`: the repo row's counts and the
//! middle pane's file lists, both read from the same NUL-terminated records.
use vstd::prelude::*;
use vstd::utf8::encode_utf8;

use crate::text::{
    byte_prefix, byte_prefix_of, chars_eq, chars_of, copy_range, encode_chars, is_lit,
    lemma_encode_utf8_add, lemma_encode_utf8_len, lemma_split_len, lemma_word_end, lemma_ws_end,
    parse_u32, parse_u32_of, split, split_on, split_once, split_once_on, split_whitespace_of,
    split_ws, split_ws_from, splitn_last, splitn_last_of, string_from_chars, strip_prefix,
    strip_prefix_of, views, word_end, ws_end, push_lit, strings, whole_message, whole_message_of,
};
use crate::git::Output;

verus! {

/// The row's whole vocabulary: branch, one dirty dot, ahead/behind.
#[derive(Debug, Clone, Default, PartialEq, Eq)]
pub struct RepoStatus {
    /// `None` when HEAD is detached.
    pub branch: Option<String>,
    /// Short HEAD oid. `None` in a repo with no commits yet.
    pub head: Option<String>,
    pub upstream: Option<String>,
    pub ahead: u32,
    pub behind: u32,
    pub staged: u32,
    pub unstaged: u32,
    pub untracked: u32,
    /// Unmerged paths — a merge conflict.
    pub conflicted: u32,
    /// Records git reported — one per path, however many sides it changed on.
    pub changed_files: u32,
}

/// What a `RepoStatus` says, with counts as natural numbers.
pub struct StatusModel {
    pub branch: Option<Seq<char>>,
    pub head: Option<Seq<char>>,
    pub upstream: Option<Seq<char>>,
    pub ahead: u32,
    pub behind: u32,
    pub staged: nat,
    pub unstaged: nat,
    pub untracked: nat,
    pub conflicted: nat,
    pub changed_files: nat,
}

pub open spec fn opt_view(o: Option<String>) -> Option<Seq<char>> {
    match o {
        Some(s) => Some(s@),
        None => None,
    }
}

impl RepoStatus {
    pub open spec fn model(&self) -> StatusModel {
        StatusModel {
            branch: opt_view(self.branch),
            head: opt_view(self.head),
            upstream: opt_view(self.upstream),
            ahead: self.ahead,
            behind: self.behind,
            staged: self.staged as nat,
            unstaged: self.unstaged as nat,
            untracked: self.untracked as nat,
            conflicted: self.conflicted as nat,
            changed_files: self.changed_files as nat,
        }
    }

    /// Anything staged, modified, untracked or conflicted.
    pub open spec fn is_dirty(&self) -> bool {
        self.staged + self.unstaged + self.untracked + self.conflicted > 0
    }
}

pub open spec fn clean_status() -> StatusModel {
    StatusModel {
        branch: None,
        head: None,
        upstream: None,
        ahead: 0,
        behind: 0,
        staged: 0,
        unstaged: 0,
        untracked: 0,
        conflicted: 0,
        changed_files: 0,
    }
}

// ---------------------------------------------------------------------------
// Publishing rule
// ---------------------------------------------------------------------------

/// `origin/feature/x` → `feature/x`: only the first segment is the remote.
pub open spec fn upstream_branch(upstream: Seq<char>) -> Seq<char> {
    match split_once(upstream, '/') {
        Some((_, rest)) => rest,
        None => upstream,
    }
}

/// A branch must be published rather than pushed when it has no upstream, or
/// tracks one whose branch name differs from its own.
pub open spec fn publish_rule(branch: Seq<char>, upstream: Option<Seq<char>>) -> bool {
    match upstream {
        None => true,
        Some(u) => upstream_branch(u) != branch,
    }
}

/// Whether a branch must be **published** (`push -u origin HEAD`) rather than
/// plainly pushed.
pub fn needs_publish(branch: &str, upstream: Option<&str>) -> (r: bool)
    ensures
        r == publish_rule(
            branch@,
            match upstream {
                Some(u) => Some(u@),
                None => None,
            },
        ),
{
    match upstream {
        None => true,
        Some(u) => {
            let uc = chars_of(u);
            let b = chars_of(branch);
            let tail = upstream_branch_of(uc.as_slice());
            !chars_eq(tail.as_slice(), b.as_slice())
        },
    }
}

fn upstream_branch_of(u: &[char]) -> (r: Vec<char>)
    ensures
        r@ == upstream_branch(u@),
{
    match split_once_on(u, '/') {
        Some((_, rest)) => rest,
        None => copy_range(u, 0, u.len()),
    }
}

// ---------------------------------------------------------------------------
// The counts
// ---------------------------------------------------------------------------

/// `--branch` headers: `# branch.oid …`, `# branch.head …`, `# branch.upstream …`,
/// `# branch.ab +A -B`.
pub open spec fn header_step(r: Seq<char>, st: StatusModel) -> StatusModel {
    let body = match strip_prefix(r, "# "@) {
        Some(b) => b,
        None => r,
    };
    match split_once(body, ' ') {
        None => st,
        Some((key, value)) => if key == "branch.oid"@ {
            StatusModel {
                head: if value != "(initial)"@ {
                    byte_prefix(value, 7)
                } else {
                    None
                },
                ..st
            }
        } else if key == "branch.head"@ {
            StatusModel {
                branch: if value != "(detached)"@ {
                    Some(value)
                } else {
                    None
                },
                ..st
            }
        } else if key == "branch.upstream"@ {
            StatusModel { upstream: Some(value), ..st }
        } else if key == "branch.ab"@ {
            ab_fields(split_ws(value), st)
        } else {
            st
        },
    }
}

/// `+N` sets ahead, `-N` sets behind; anything else is ignored.
pub open spec fn ab_fields(fields: Seq<Seq<char>>, st: StatusModel) -> StatusModel
    decreases fields.len(),
{
    if fields.len() == 0 {
        st
    } else {
        let f = fields[0];
        let next = match parse_u32(f.skip(1)) {
            Some(n) => if f[0] == '+' {
                StatusModel { ahead: n, ..st }
            } else if f[0] == '-' {
                StatusModel { behind: n, ..st }
            } else {
                st
            },
            None => st,
        };
        ab_fields(fields.skip(1), next)
    }
}

/// A changed record `<type> <XY> …`: X is the staged side, Y the unstaged
/// one, `.` meaning unmodified — read as bytes, the way git wrote them.
pub open spec fn tally_step(r: Seq<char>, st: StatusModel) -> StatusModel {
    let b = encode_utf8(r);
    if b.len() < 4 {
        st
    } else {
        StatusModel {
            staged: if b[2] != 0x2Eu8 {
                st.staged + 1
            } else {
                st.staged
            },
            unstaged: if b[3] != 0x2Eu8 {
                st.unstaged + 1
            } else {
                st.unstaged
            },
            changed_files: st.changed_files + 1,
            ..st
        }
    }
}

pub open spec fn status_step(r: Seq<char>, st: StatusModel) -> StatusModel {
    if r.len() == 0 {
        st
    } else if r[0] == '#' {
        header_step(r, st)
    } else if r[0] == '1' || r[0] == '2' {
        tally_step(r, st)
    } else if r[0] == 'u' {
        StatusModel { conflicted: st.conflicted + 1, changed_files: st.changed_files + 1, ..st }
    } else if r[0] == '?' {
        StatusModel { untracked: st.untracked + 1, changed_files: st.changed_files + 1, ..st }
    } else {
        st
    }
}

/// A rename/copy (`2`) carries its original path as the next record, which is
/// never read as a record of its own.
pub open spec fn records_consumed(rs: Seq<Seq<char>>) -> int {
    if rs.len() >= 2 && rs[0].len() > 0 && rs[0][0] == '2' {
        2
    } else {
        1
    }
}

pub open spec fn status_records(rs: Seq<Seq<char>>, st: StatusModel) -> StatusModel
    decreases rs.len(),
{
    if rs.len() == 0 {
        st
    } else {
        status_records(rs.skip(records_consumed(rs)), status_step(rs[0], st))
    }
}

/// What `parse` reads out of a whole porcelain-v2 output.
pub open spec fn parse_status(raw: Seq<char>) -> StatusModel {
    status_records(split(raw, '\0'), clean_status())
}

/// A `branch.ab` field whose first character is not one byte long would make
/// `split_at(1)` panic; git never writes one.
pub open spec fn ab_safe(fields: Seq<Seq<char>>) -> bool {
    forall|i: int| 0 <= i < fields.len() ==> (#[trigger] fields[i])[0] as u32 <= 0x7F
}

pub open spec fn header_safe(r: Seq<char>) -> bool {
    r.len() > 0 && r[0] == '#' ==> {
        let body = match strip_prefix(r, "# "@) {
            Some(b) => b,
            None => r,
        };
        match split_once(body, ' ') {
            Some((key, value)) => key == "branch.ab"@ ==> ab_safe(split_ws(value)),
            None => true,
        }
    }
}

/// Every header record the walk reads is one `parse` can read without panicking.
pub open spec fn records_safe(rs: Seq<Seq<char>>) -> bool
    decreases rs.len(),
{
    rs.len() == 0 || (header_safe(rs[0]) && records_safe(rs.skip(records_consumed(rs))))
}

pub open spec fn status_safe(raw: Seq<char>) -> bool {
    records_safe(split(raw, '\0'))
}

fn new_status() -> (st: RepoStatus)
    ensures
        st.model() == clean_status(),
{
    RepoStatus {
        branch: None,
        head: None,
        upstream: None,
        ahead: 0,
        behind: 0,
        staged: 0,
        unstaged: 0,
        untracked: 0,
        conflicted: 0,
        changed_files: 0,
    }
}

fn some_string(v: &[char]) -> (r: Option<String>)
    ensures
        opt_view(r) == Some(v@),
{
    Some(string_from_chars(v))
}

fn header(record: &[char], status: &mut RepoStatus)
    requires
        header_safe(record@),
        record@.len() > 0 && record@[0] == '#',
    ensures
        final(status).model() == header_step(record@, old(status).model()),
        final(status).staged == old(status).staged,
        final(status).unstaged == old(status).unstaged,
        final(status).untracked == old(status).untracked,
        final(status).conflicted == old(status).conflicted,
        final(status).changed_files == old(status).changed_files,
{
    let prefix = chars_of("# ");
    let body = match strip_prefix_of(record, prefix.as_slice()) {
        Some(b) => b,
        None => copy_range(record, 0, record.len()),
    };
    assert(record@.subrange(0, record@.len() as int) =~= record@);
    let Some((key, value)) = split_once_on(body.as_slice(), ' ') else {
        return ;
    };
    if is_lit(key.as_slice(), "branch.oid") {
        if is_lit(value.as_slice(), "(initial)") {
            status.head = None;
        } else {
            status.head = match byte_prefix_of(value.as_slice(), 7) {
                Some(p) => some_string(p.as_slice()),
                None => None,
            };
        }
    } else if is_lit(key.as_slice(), "branch.head") {
        if is_lit(value.as_slice(), "(detached)") {
            status.branch = None;
        } else {
            status.branch = some_string(value.as_slice());
        }
    } else if is_lit(key.as_slice(), "branch.upstream") {
        status.upstream = some_string(value.as_slice());
    } else if is_lit(key.as_slice(), "branch.ab") {
        let fields = split_whitespace_of(value.as_slice());
        let ghost fv = views(fields@);
        let mut i: usize = 0;
        assert(fv.skip(0) =~= fv);
        while i < fields.len()
            invariant
                i <= fields@.len(),
                fv == views(fields@),
                fv == split_ws(value@),
                ab_safe(fv),
                ab_fields(fv, old(status).model()) == ab_fields(fv.skip(i as int), status.model()),
                status.staged == old(status).staged,
                status.unstaged == old(status).unstaged,
                status.untracked == old(status).untracked,
                status.conflicted == old(status).conflicted,
                status.changed_files == old(status).changed_files,
            decreases fields.len() - i,
        {
            let f = &fields[i];
            proof {
                assert(fv[i as int] == f@);
                assert(fv.skip(i as int).skip(1) =~= fv.skip(i + 1));
                assert(f@.len() > 0) by {
                    lemma_split_ws_nonempty(value@, i as int);
                }
            }
            let rest = copy_range(f.as_slice(), 1, f.len());
            assert(rest@ =~= f@.skip(1));
            match parse_u32_of(rest.as_slice()) {
                Some(n) => {
                    if f[0] == '+' {
                        status.ahead = n;
                    } else if f[0] == '-' {
                        status.behind = n;
                    }
                },
                None => {},
            }
            i = i + 1;
        }
    }
}

pub proof fn lemma_split_ws_from_nonempty(s: Seq<char>, i: int, k: int)
    requires
        0 <= k < split_ws_from(s, i).len(),
    ensures
        split_ws_from(s, i)[k].len() > 0,
    decreases s.len() - i,
{
    if 0 <= i <= s.len() {
        let a = ws_end(s, i);
        lemma_ws_end(s, i);
        if a < s.len() {
            let b = word_end(s, a);
            lemma_word_end(s, a);
            lemma_word_end(s, a + 1);
            if b > i && k > 0 {
                lemma_split_ws_from_nonempty(s, b, k - 1);
            }
        }
    }
}

pub proof fn lemma_split_ws_nonempty(s: Seq<char>, k: int)
    requires
        0 <= k < split_ws(s).len(),
    ensures
        split_ws(s)[k].len() > 0,
{
    lemma_split_ws_from_nonempty(s, 0, k);
}

/// The first `n` bytes of the UTF-8 encoding of `r` (all of it if shorter),
/// together with whether the whole encoding has at least `n` bytes.
fn head_bytes(r: &[char]) -> (b: Vec<u8>)
    ensures
        b@.len() >= 4 <==> encode_utf8(r@).len() >= 4,
        b@.len() >= 4 ==> b@[2] == encode_utf8(r@)[2] && b@[3] == encode_utf8(r@)[3],
{
    let k = if r.len() < 4 {
        r.len()
    } else {
        4
    };
    let head = copy_range(r, 0, k);
    let b = encode_chars(head.as_slice());
    proof {
        assert(r@ =~= head@ + r@.skip(k as int));
        lemma_encode_utf8_add(head@, r@.skip(k as int));
        lemma_encode_utf8_len(head@);
        if k < 4 {
            assert(r@.skip(k as int) =~= Seq::<char>::empty());
            assert(encode_utf8(Seq::<char>::empty()) =~= Seq::<u8>::empty());
        }
    }
    b
}

fn tally(record: &[char], status: &mut RepoStatus)
    requires
        old(status).staged < u32::MAX,
        old(status).unstaged < u32::MAX,
        old(status).changed_files < u32::MAX,
    ensures
        final(status).model() == tally_step(record@, old(status).model()),
        final(status).staged <= old(status).staged + 1,
        final(status).unstaged <= old(status).unstaged + 1,
        final(status).changed_files <= old(status).changed_files + 1,
        final(status).untracked == old(status).untracked,
        final(status).conflicted == old(status).conflicted,
{
    let b = head_bytes(record);
    if b.len() < 4 {
        return ;
    }
    if b[2] != 0x2Eu8 {
        status.staged = status.staged + 1;
    }
    if b[3] != 0x2Eu8 {
        status.unstaged = status.unstaged + 1;
    }
    status.changed_files = status.changed_files + 1;
}

pub open spec fn counts_within(st: StatusModel, n: nat) -> bool {
    &&& st.staged <= n
    &&& st.unstaged <= n
    &&& st.untracked + st.conflicted <= n
    &&& st.changed_files <= n
}

/// The row's counts, read from one `git status --porcelain=v2 --branch -z`.
/// Records are NUL-terminated; unknown record types are skipped. The counts
/// are `u32`, so the output may hold at most `u32::MAX` records.
pub fn parse(raw: &str) -> (status: RepoStatus)
    requires
        split(raw@, '\0').len() <= u32::MAX,
        status_safe(raw@),
    ensures
        status.model() == parse_status(raw@),
{
    let chars = chars_of(raw);
    let records = split_on(chars.as_slice(), '\0');
    let ghost rv = views(records@);
    let mut status = new_status();
    let mut i: usize = 0;
    assert(rv.skip(0) =~= rv);
    while i < records.len()
        invariant
            i <= records@.len(),
            records@.len() <= u32::MAX,
            rv == views(records@),
            parse_status(raw@) == status_records(rv.skip(i as int), status.model()),
            records_safe(rv.skip(i as int)),
            counts_within(status.model(), i as nat),
        decreases records.len() - i,
    {
        let r = &records[i];
        let ghost rest = rv.skip(i as int);
        proof {
            assert(rest[0] == r@);
        }
        if r.len() > 0 && r[0] == '#' {
            header(r.as_slice(), &mut status);
        } else if r.len() > 0 && (r[0] == '1' || r[0] == '2') {
            tally(r.as_slice(), &mut status);
        } else if r.len() > 0 && r[0] == 'u' {
            status.conflicted = status.conflicted + 1;
            status.changed_files = status.changed_files + 1;
        } else if r.len() > 0 && r[0] == '?' {
            status.untracked = status.untracked + 1;
            status.changed_files = status.changed_files + 1;
        }
        let step: usize = if r.len() > 0 && r[0] == '2' && i + 1 < records.len() {
            2
        } else {
            1
        };
        proof {
            assert(step == records_consumed(rest));
            assert(rest.skip(step as int) =~= rv.skip(i + step));
        }
        i = i + step;
    }
    status
}

/// Whether a header record can be read without the `branch.ab` step
/// panicking.
fn header_safe_of(r: &[char]) -> (ok: bool)
    ensures
        ok == header_safe(r@),
{
    if !(r.len() > 0 && r[0] == '#') {
        return true;
    }
    let prefix = chars_of("# ");
    let body = match strip_prefix_of(r, prefix.as_slice()) {
        Some(b) => b,
        None => copy_range(r, 0, r.len()),
    };
    proof {
        assert(r@.subrange(0, r@.len() as int) =~= r@);
    }
    match split_once_on(body.as_slice(), ' ') {
        None => true,
        Some((key, value)) => {
            if !is_lit(key.as_slice(), "branch.ab") {
                return true;
            }
            let fields = split_whitespace_of(value.as_slice());
            let ghost fv = views(fields@);
            assert(header_safe(r@) == ab_safe(split_ws(value@)));
            let mut i: usize = 0;
            while i < fields.len()
                invariant
                    i <= fields@.len(),
                    fv == views(fields@),
                    fv == split_ws(value@),
                    header_safe(r@) == ab_safe(split_ws(value@)),
                    forall|j: int| 0 <= j < i ==> (#[trigger] fv[j])[0] as u32 <= 0x7F,
                decreases fields.len() - i,
            {
                proof {
                    assert(fv[i as int] == fields@[i as int]@);
                    lemma_split_ws_nonempty(value@, i as int);
                }
                let c: char = fields[i][0];
                if (c as u32) > 0x7F {
                    proof {
                        assert(fv[i as int][0] == c);
                        assert(!ab_safe(split_ws(value@)));
                    }
                    return false;
                }
                i = i + 1;
            }
            true
        },
    }
}

/// Whether `parse` can read `raw`: no more records than the counters can
/// count, and no `branch.ab` field it would fail on. Git never writes one.
pub fn parseable(raw: &str) -> (ok: bool)
    ensures
        ok == (split(raw@, '\0').len() <= u32::MAX && status_safe(raw@)),
{
    let chars = chars_of(raw);
    let records = split_on(chars.as_slice(), '\0');
    if records.len() > 0xFFFF_FFFF {
        return false;
    }
    let ghost rv = views(records@);
    let mut i: usize = 0;
    assert(rv.skip(0) =~= rv);
    while i < records.len()
        invariant
            i <= records@.len(),
            rv == views(records@),
            status_safe(raw@) == records_safe(rv.skip(i as int)),
        decreases records.len() - i,
    {
        let r = &records[i];
        let ghost rest = rv.skip(i as int);
        proof {
            assert(rest[0] == r@);
        }
        let step: usize = if r.len() > 0 && r[0] == '2' && i + 1 < records.len() {
            2
        } else {
            1
        };
        proof {
            assert(step == records_consumed(rest));
            assert(rest.skip(step as int) =~= rv.skip(i + step));
        }
        if !header_safe_of(r.as_slice()) {
            return false;
        }
        i = i + step;
    }
    assert(rv.skip(i as int).len() == 0);
    true
}

/// Whether a repo is one *Pull All Behind* pulls: it is behind its upstream.
pub open spec fn can_pull_spec(status: StatusModel) -> bool {
    status.behind > 0
}

pub fn can_pull(status: &RepoStatus) -> (r: bool)
    ensures
        r == can_pull_spec(status.model()),
{
    status.behind > 0
}

/// The one `git status` both the row and the middle pane are read from;
/// `-uall` lists untracked files one by one, never a folder as one row.
pub open spec fn status_args_spec() -> Seq<Seq<char>> {
    seq!["status"@, "--porcelain=v2"@, "--branch"@, "-uall"@, "-z"@]
}

pub fn status_args() -> (r: Vec<String>)
    ensures
        strings(r@) == status_args_spec(),
{
    let mut v: Vec<String> = Vec::new();
    push_lit(&mut v, "status");
    push_lit(&mut v, "--porcelain=v2");
    push_lit(&mut v, "--branch");
    push_lit(&mut v, "-uall");
    push_lit(&mut v, "-z");
    assert(strings(v@) =~= status_args_spec());
    v
}

/// The whole trimmed stderr of a failed status read, or a generic line.
pub fn full_message(stderr: &str) -> (m: String)
    ensures
        m@ == whole_message(stderr@, "git status failed"@),
{
    whole_message_of(stderr, "git status failed")
}

/// What a finished status read amounts to: its output, or git's complaint.
pub fn status_output(output: &Output) -> (r: Result<String, String>)
    ensures
        match r {
            Ok(raw) => output.ok && raw@ == output.stdout@,
            Err(e) => !output.ok && e@ == whole_message(output.stderr@, "git status failed"@),
        },
{
    if !output.ok {
        return Err(full_message(output.stderr.as_str()));
    }
    Ok(output.stdout.clone())
}

// ---------------------------------------------------------------------------
// The file lists
// ---------------------------------------------------------------------------

/// Rows capped per section: the header can read `Changes (100 of 3,412)`
/// while stage-all still reaches every path.
pub const MAX_FILES_PER_SECTION: usize = 100;

/// One row in the middle pane's file lists.
#[derive(Debug, Clone, PartialEq, Eq)]
pub struct FileEntry {
    pub path: String,
    /// Git's own status letter (M/A/D/R/C/T/U/?) for that side, shown as-is.
    pub status: char,
}

/// The selected repo's full file list.
#[derive(Debug, Clone, Default, PartialEq, Eq)]
pub struct FileChanges {
    pub staged: Vec<FileEntry>,
    pub staged_total: usize,
    pub unstaged: Vec<FileEntry>,
    pub unstaged_total: usize,
    pub conflicted: Vec<FileEntry>,
}

impl FileEntry {
    pub open spec fn model(&self) -> (Seq<char>, char) {
        (self.path@, self.status)
    }
}

pub open spec fn entries(v: Seq<FileEntry>) -> Seq<(Seq<char>, char)> {
    v.map_values(|e: FileEntry| e.model())
}

/// The three lists, uncapped.
pub struct FilesModel {
    pub staged: Seq<(Seq<char>, char)>,
    pub unstaged: Seq<(Seq<char>, char)>,
    pub conflicted: Seq<(Seq<char>, char)>,
}

pub open spec fn no_files() -> FilesModel {
    FilesModel { staged: seq![], unstaged: seq![], conflicted: seq![] }
}

/// A changed record filed under each side it changed on; `fields` is how many
/// space-separated fields precede the path, so a path with spaces survives.
pub open spec fn changed_step(r: Seq<char>, fields: nat, m: FilesModel) -> FilesModel {
    let b = encode_utf8(r);
    if b.len() < 4 {
        m
    } else {
        let path = splitn_last(r, ' ', fields);
        FilesModel {
            staged: if b[2] != 0x2Eu8 {
                m.staged.push((path, b[2] as char))
            } else {
                m.staged
            },
            unstaged: if b[3] != 0x2Eu8 {
                m.unstaged.push((path, b[3] as char))
            } else {
                m.unstaged
            },
            ..m
        }
    }
}

pub open spec fn files_step(r: Seq<char>, m: FilesModel) -> FilesModel {
    if r.len() == 0 {
        m
    } else if r[0] == '1' {
        changed_step(r, 9, m)
    } else if r[0] == '2' {
        changed_step(r, 10, m)
    } else if r[0] == 'u' {
        FilesModel { conflicted: m.conflicted.push((splitn_last(r, ' ', 11), 'U')), ..m }
    } else if r[0] == '?' {
        match strip_prefix(r, "? "@) {
            Some(p) => FilesModel { unstaged: m.unstaged.push((p, '?')), ..m },
            None => m,
        }
    } else {
        m
    }
}

pub open spec fn files_records(rs: Seq<Seq<char>>, m: FilesModel) -> FilesModel
    decreases rs.len(),
{
    if rs.len() == 0 {
        m
    } else {
        files_records(rs.skip(records_consumed(rs)), files_step(rs[0], m))
    }
}

/// The lists `parse_files` builds before capping them.
pub open spec fn parse_file_lists(raw: Seq<char>) -> FilesModel {
    files_records(split(raw, '\0'), no_files())
}

pub open spec fn capped_list(s: Seq<(Seq<char>, char)>) -> Seq<(Seq<char>, char)> {
    if s.len() <= 100 {
        s
    } else {
        s.take(100)
    }
}

fn entry(path: &[char], status: char) -> (e: FileEntry)
    ensures
        e.model() == (path@, status),
{
    FileEntry { path: string_from_chars(path), status }
}

fn changed_entry(
    record: &[char],
    field_count: usize,
    staged: &mut Vec<FileEntry>,
    unstaged: &mut Vec<FileEntry>,
)
    requires
        field_count >= 1,
    ensures
        ({
            let m = changed_step(
                record@,
                field_count as nat,
                FilesModel {
                    staged: entries(old(staged)@),
                    unstaged: entries(old(unstaged)@),
                    conflicted: seq![],
                },
            );
            entries(final(staged)@) == m.staged && entries(final(unstaged)@) == m.unstaged
        }),
{
    let b = head_bytes(record);
    if b.len() < 4 {
        return ;
    }
    let path = splitn_last_of(record, ' ', field_count);
    let x = b[2] as char;
    let y = b[3] as char;
    if b[2] != 0x2Eu8 {
        let e = entry(path.as_slice(), x);
        proof {
            assert(entries(staged@.push(e)) =~= entries(staged@).push(e.model()));
        }
        staged.push(e);
    }
    if b[3] != 0x2Eu8 {
        let e = entry(path.as_slice(), y);
        proof {
            assert(entries(unstaged@.push(e)) =~= entries(unstaged@).push(e.model()));
        }
        unstaged.push(e);
    }
}

fn capped(entries_in: Vec<FileEntry>) -> (r: Vec<FileEntry>)
    ensures
        entries(r@) == capped_list(entries(entries_in@)),
{
    let mut v = entries_in;
    if v.len() > MAX_FILES_PER_SECTION {
        v.truncate(MAX_FILES_PER_SECTION);
        proof {
            assert(entries(v@) =~= entries(entries_in@).take(100));
        }
    }
    v
}

/// The middle pane's lists: each changed record under every side it changed
/// on, untracked files with the unstaged ones, conflicts apart; the staged and
/// unstaged lists capped at [`MAX_FILES_PER_SECTION`], their totals not.
pub fn parse_files(raw: &str) -> (files: FileChanges)
    ensures
        ({
            let m = parse_file_lists(raw@);
            &&& entries(files.staged@) == capped_list(m.staged)
            &&& files.staged_total == m.staged.len()
            &&& entries(files.unstaged@) == capped_list(m.unstaged)
            &&& files.unstaged_total == m.unstaged.len()
            &&& entries(files.conflicted@) == m.conflicted
        }),
{
    let chars = chars_of(raw);
    let records = split_on(chars.as_slice(), '\0');
    let ghost rv = views(records@);
    let mut staged: Vec<FileEntry> = Vec::new();
    let mut unstaged: Vec<FileEntry> = Vec::new();
    let mut conflicted: Vec<FileEntry> = Vec::new();
    let mut i: usize = 0;
    assert(rv.skip(0) =~= rv);
    proof {
        assert(entries(staged@) =~= Seq::<(Seq<char>, char)>::empty());
        assert(entries(unstaged@) =~= Seq::<(Seq<char>, char)>::empty());
        assert(entries(conflicted@) =~= Seq::<(Seq<char>, char)>::empty());
    }
    while i < records.len()
        invariant
            i <= records@.len(),
            rv == views(records@),
            parse_file_lists(raw@) == files_records(
                rv.skip(i as int),
                FilesModel {
                    staged: entries(staged@),
                    unstaged: entries(unstaged@),
                    conflicted: entries(conflicted@),
                },
            ),
        decreases records.len() - i,
    {
        let r = &records[i];
        let ghost rest = rv.skip(i as int);
        proof {
            assert(rest[0] == r@);
        }
        if r.len() > 0 && r[0] == '1' {
            changed_entry(r.as_slice(), 9, &mut staged, &mut unstaged);
        } else if r.len() > 0 && r[0] == '2' {
            changed_entry(r.as_slice(), 10, &mut staged, &mut unstaged);
        } else if r.len() > 0 && r[0] == 'u' {
            let path = splitn_last_of(r.as_slice(), ' ', 11);
            let e = entry(path.as_slice(), 'U');
            proof {
                assert(entries(conflicted@.push(e)) =~= entries(conflicted@).push(e.model()));
            }
            conflicted.push(e);
        } else if r.len() > 0 && r[0] == '?' {
            let p = chars_of("? ");
            match strip_prefix_of(r.as_slice(), p.as_slice()) {
                Some(path) => {
                    let e = entry(path.as_slice(), '?');
                    proof {
                        assert(entries(unstaged@.push(e)) =~= entries(unstaged@).push(
                            e.model(),
                        ));
                    }
                    unstaged.push(e);
                },
                None => {},
            }
        }
        let step: usize = if r.len() > 0 && r[0] == '2' && i + 1 < records.len() {
            2
        } else {
            1
        };
        proof {
            assert(step == records_consumed(rest));
            assert(rest.skip(step as int) =~= rv.skip(i + step));
        }
        i = i + step;
    }
    let staged_total = staged.len();
    let unstaged_total = unstaged.len();
    FileChanges {
        staged: capped(staged),
        staged_total,
        unstaged: capped(unstaged),
        unstaged_total,
        conflicted,
    }
}


// ---------------------------------------------------------------------------
// Laws
// ---------------------------------------------------------------------------

pub open spec fn counts_ordered(st: StatusModel) -> bool {
    &&& st.staged <= st.changed_files
    &&& st.unstaged <= st.changed_files
    &&& st.untracked + st.conflicted <= st.changed_files
}

proof fn lemma_ab_fields_counts(fields: Seq<Seq<char>>, st: StatusModel)
    ensures
        ({
            let s2 = ab_fields(fields, st);
            &&& s2.staged == st.staged
            &&& s2.unstaged == st.unstaged
            &&& s2.untracked == st.untracked
            &&& s2.conflicted == st.conflicted
            &&& s2.changed_files == st.changed_files
        }),
    decreases fields.len(),
{
    if fields.len() > 0 {
        let f = fields[0];
        let next = match parse_u32(f.skip(1)) {
            Some(n) => if f[0] == '+' {
                StatusModel { ahead: n, ..st }
            } else if f[0] == '-' {
                StatusModel { behind: n, ..st }
            } else {
                st
            },
            None => st,
        };
        lemma_ab_fields_counts(fields.skip(1), next);
    }
}

/// Headers name the branch; they never move a count.
proof fn lemma_header_counts(r: Seq<char>, st: StatusModel)
    ensures
        ({
            let s2 = header_step(r, st);
            &&& s2.staged == st.staged
            &&& s2.unstaged == st.unstaged
            &&& s2.untracked == st.untracked
            &&& s2.conflicted == st.conflicted
            &&& s2.changed_files == st.changed_files
        }),
{
    let body = match strip_prefix(r, "# "@) {
        Some(b) => b,
        None => r,
    };
    match split_once(body, ' ') {
        Some((key, value)) => {
            lemma_ab_fields_counts(split_ws(value), st);
        },
        None => {},
    }
}

proof fn lemma_records_keep_order(rs: Seq<Seq<char>>, st: StatusModel)
    requires
        counts_ordered(st),
    ensures
        counts_ordered(status_records(rs, st)),
    decreases rs.len(),
{
    if rs.len() > 0 {
        lemma_header_counts(rs[0], st);
        lemma_records_keep_order(rs.skip(records_consumed(rs)), status_step(rs[0], st));
    }
}

/// Nothing is dirty without a changed file: whatever makes a repo dirty by the
/// per-side counts also shows up in `changed_files`, so a row can never
/// render clean while holding uncommitted work.
pub proof fn law_dirty_implies_changed_files(raw: Seq<char>)
    ensures
        ({
            let st = parse_status(raw);
            st.staged + st.unstaged + st.untracked + st.conflicted > 0 ==> st.changed_files > 0
        }),
{
    lemma_records_keep_order(split(raw, '\0'), clean_status());
}

/// Every `?` record the walk reads names its path after `"? "`.
pub open spec fn untracked_well_formed(rs: Seq<Seq<char>>) -> bool
    decreases rs.len(),
{
    rs.len() == 0 || ((rs[0].len() > 0 && rs[0][0] == '?' ==> strip_prefix(rs[0], "? "@) is Some)
        && untracked_well_formed(rs.skip(records_consumed(rs))))
}

proof fn lemma_records_match_lists(rs: Seq<Seq<char>>, st: StatusModel, m: FilesModel)
    ensures
        ({
            let s2 = status_records(rs, st);
            let m2 = files_records(rs, m);
            &&& s2.staged - st.staged == m2.staged.len() - m.staged.len()
            &&& s2.conflicted - st.conflicted == m2.conflicted.len() - m.conflicted.len()
            &&& untracked_well_formed(rs) ==> (s2.unstaged + s2.untracked) - (st.unstaged
                + st.untracked) == m2.unstaged.len() - m.unstaged.len()
        }),
    decreases rs.len(),
{
    if rs.len() > 0 {
        let r = rs[0];
        lemma_header_counts(r, st);
        lemma_records_match_lists(
            rs.skip(records_consumed(rs)),
            status_step(r, st),
            files_step(r, m),
        );
    }
}

/// The badge and the pane read the same records and agree side by side: the
/// staged count is the staged list's length, the conflict count the conflict
/// list's, and — when every untracked record names its path the way git
/// writes it — modified-plus-untracked is the unstaged list's length.
pub proof fn law_counts_match_file_lists(raw: Seq<char>)
    ensures
        ({
            let st = parse_status(raw);
            let m = parse_file_lists(raw);
            &&& st.staged == m.staged.len()
            &&& st.conflicted == m.conflicted.len()
            &&& untracked_well_formed(split(raw, '\0')) ==> st.unstaged + st.untracked
                == m.unstaged.len()
        }),
{
    lemma_records_match_lists(split(raw, '\0'), clean_status(), no_files());
}

/// Whether a record is one the badge counts: a change with an `XY` field, a
/// conflict, or an untracked file.
pub open spec fn counted(r: Seq<char>) -> bool {
    r.len() > 0 && (((r[0] == '1' || r[0] == '2') && encode_utf8(r).len() >= 4) || r[0] == 'u'
        || r[0] == '?')
}

/// The path a counted record names, read the way the pane reads it.
pub open spec fn record_path(r: Seq<char>) -> Seq<char> {
    if r[0] == '1' {
        splitn_last(r, ' ', 9)
    } else if r[0] == '2' {
        splitn_last(r, ' ', 10)
    } else if r[0] == 'u' {
        splitn_last(r, ' ', 11)
    } else {
        match strip_prefix(r, "? "@) {
            Some(p) => p,
            None => r,
        }
    }
}

/// The paths of the counted records the walk reads, one per record, in order.
pub open spec fn counted_paths(rs: Seq<Seq<char>>) -> Seq<Seq<char>>
    decreases rs.len(),
{
    if rs.len() == 0 {
        seq![]
    } else {
        (if counted(rs[0]) {
            seq![record_path(rs[0])]
        } else {
            seq![]
        }) + counted_paths(rs.skip(records_consumed(rs)))
    }
}

/// Every change record the walk reads changed on at least one side: git never
/// writes an `XY` of `..`.
pub open spec fn changes_on_some_side(rs: Seq<Seq<char>>) -> bool
    decreases rs.len(),
{
    rs.len() == 0 || ((rs[0].len() > 0 && (rs[0][0] == '1' || rs[0][0] == '2') && encode_utf8(
        rs[0],
    ).len() >= 4 ==> encode_utf8(rs[0])[2] != 0x2Eu8 || encode_utf8(rs[0])[3] != 0x2Eu8)
        && changes_on_some_side(rs.skip(records_consumed(rs))))
}

/// The distinct paths one of the pane's lists holds.
pub open spec fn names_in(s: Seq<(Seq<char>, char)>) -> Set<Seq<char>> {
    s.map_values(|e: (Seq<char>, char)| e.0).to_set()
}

/// The distinct paths across the pane's three lists.
pub open spec fn listed_names(m: FilesModel) -> Set<Seq<char>> {
    names_in(m.staged) + names_in(m.unstaged) + names_in(m.conflicted)
}

proof fn lemma_names_push(s: Seq<(Seq<char>, char)>, e: (Seq<char>, char))
    ensures
        names_in(s.push(e)) == names_in(s).insert(e.0),
{
    let f = |x: (Seq<char>, char)| x.0;
    assert(s.push(e).map_values(f) =~= s.map_values(f).push(e.0));
    crate::ids::lemma_to_set_push(s.map_values(f), e.0);
}

proof fn lemma_records_name_paths(rs: Seq<Seq<char>>, st: StatusModel, m: FilesModel)
    requires
        untracked_well_formed(rs),
        changes_on_some_side(rs),
    ensures
        status_records(rs, st).changed_files - st.changed_files == counted_paths(rs).len(),
        listed_names(files_records(rs, m)) == listed_names(m) + counted_paths(rs).to_set(),
    decreases rs.len(),
{
    if rs.len() == 0 {
        assert(counted_paths(rs).to_set() =~= Set::<Seq<char>>::empty());
        assert(listed_names(m) + Set::<Seq<char>>::empty() =~= listed_names(m));
    } else {
        let r = rs[0];
        let rest = rs.skip(records_consumed(rs));
        let st2 = status_step(r, st);
        let m2 = files_step(r, m);
        lemma_header_counts(r, st);
        lemma_records_name_paths(rest, st2, m2);
        let head: Seq<Seq<char>> = if counted(r) {
            seq![record_path(r)]
        } else {
            seq![]
        };
        assert(counted_paths(rs) == head + counted_paths(rest));
        if counted(r) {
            let p = record_path(r);
            if r[0] == '1' || r[0] == '2' {
                let b = encode_utf8(r);
                let e2 = (p, b[2] as char);
                let e3 = (p, b[3] as char);
                if b[2] != 0x2Eu8 {
                    lemma_names_push(m.staged, e2);
                }
                if b[3] != 0x2Eu8 {
                    lemma_names_push(m.unstaged, e3);
                }
                assert(listed_names(m2) =~= listed_names(m).insert(p));
            } else if r[0] == 'u' {
                lemma_names_push(m.conflicted, (p, 'U'));
                assert(listed_names(m2) =~= listed_names(m).insert(p));
            } else {
                lemma_names_push(m.unstaged, (p, '?'));
                assert(listed_names(m2) =~= listed_names(m).insert(p));
            }
            let q = head + counted_paths(rest);
            let cr = counted_paths(rest);
            assert forall|k: Seq<char>| q.contains(k) <==> (cr.contains(k) || k == p) by {
                if q.contains(k) {
                    let j = choose|j: int| 0 <= j < q.len() && q[j] == k;
                    if j > 0 {
                        assert(q[j] == cr[j - 1]);
                    }
                }
                if cr.contains(k) {
                    let j = choose|j: int| 0 <= j < cr.len() && cr[j] == k;
                    assert(q[j + 1] == cr[j]);
                }
                if k == p {
                    assert(q[0] == p);
                }
            }
            assert(q.to_set() =~= cr.to_set().insert(p));
            assert(listed_names(m) + counted_paths(rs).to_set() =~= listed_names(m2) + counted_paths(
                rest,
            ).to_set());
        } else {
            assert(head + counted_paths(rest) =~= counted_paths(rest));
            assert(listed_names(m2) == listed_names(m));
        }
    }
}

/// The row's badge counts exactly the distinct paths the middle pane lists:
/// when every untracked record names its path as git writes it, no change
/// record is unchanged on both sides, and no two counted records name the
/// same path, `changed_files` is the number of distinct paths across the
/// staged, unstaged and conflicted lists (the lists before the display cap,
/// which leaves a list of at most 100 entries as it is).
pub proof fn law_badge_counts_the_listed_paths(raw: Seq<char>)
    requires
        untracked_well_formed(split(raw, '\0')),
        changes_on_some_side(split(raw, '\0')),
        counted_paths(split(raw, '\0')).no_duplicates(),
    ensures
        parse_status(raw).changed_files == listed_names(parse_file_lists(raw)).len(),
{
    let rs = split(raw, '\0');
    lemma_records_name_paths(rs, clean_status(), no_files());
    assert(listed_names(no_files()) =~= Set::<Seq<char>>::empty());
    assert(Set::<Seq<char>>::empty() + counted_paths(rs).to_set() =~= counted_paths(rs).to_set());
    counted_paths(rs).unique_seq_to_set();
}

} // verus!
