//! What running git produces and what the library decides from it: the
//! captured output of one invocation, the startup probe's findings, the
//! version gate for the built-in file-system monitor, and the wording of a
//! killed process's error.
use vstd::prelude::*;

use crate::text::{
    chars_of, contains, decimal, decimal_of, lossy_text, occurs_at, parse_u32, parse_u32_of,
    push_all, push_str, split, split_on, string_from_chars, strip_prefix, strip_prefix_of, strings,
    trim, trimmed, utf8_lossy, views, whole_message, whole_message_of,
};

verus! {

/// Global cap on concurrent git processes.
pub const MAX_INFLIGHT: usize = 8;

/// The first git version with the built-in file-system monitor, as
/// `(major, minor)`.
pub const FSMONITOR_MIN_VERSION: (u32, u32) = (2, 37);

/// Seconds a local read (status, log, for-each-ref) may run before it is
/// presumed hung and killed.
pub const READ_TIMEOUT: u64 = 30;

/// Seconds the startup probe may take: the tightest budget, since it blocks
/// the app from opening.
pub const PROBE_TIMEOUT: u64 = 5;

/// Seconds a local write may take; hooks make it the most generous budget.
pub const LOCAL_WRITE_TIMEOUT: u64 = 600;

/// Seconds a fetch, pull or push may go without finishing.
pub const NETWORK_TIMEOUT: u64 = 120;

/// What one git invocation left behind: whether it exited zero, and its two
/// streams decoded as text.
#[derive(Debug, Clone)]
pub struct Output {
    pub ok: bool,
    pub stdout: String,
    pub stderr: String,
}

/// What is known about the git binary, resolved once at startup.
#[derive(Debug, Clone, Default)]
pub struct GitInfo {
    pub available: bool,
    /// Raw `git --version` output, e.g. "2.51.0.windows.1".
    pub version: Option<String>,
    /// Whether `core.fsmonitor` is supported.
    pub supports_fsmonitor: bool,
    /// The binary the status sweep actually runs.
    pub read_binary: Option<String>,
}

pub open spec fn opt_text(o: Option<String>) -> Option<Seq<char>> {
    match o {
        Some(s) => Some(s@),
        None => None,
    }
}

/// An `Output` from the child's exit status and raw streams, each stream
/// decoded leniently so that a path that is not valid UTF-8 cannot make the
/// whole record unreadable.
pub fn output_from(ok: bool, stdout: &[u8], stderr: &[u8]) -> (o: Output)
    ensures
        o.ok == ok,
        o.stdout@ == utf8_lossy(stdout@),
        o.stderr@ == utf8_lossy(stderr@),
{
    Output { ok, stdout: lossy_text(stdout), stderr: lossy_text(stderr) }
}

/// What a write that returns nothing amounts to: `Ok` when git exited zero,
/// and otherwise its whole trimmed stderr, or `fallback` when that is blank.
pub fn outcome(output: &Output, fallback: &str) -> (r: Result<(), String>)
    ensures
        match r {
            Ok(()) => output.ok,
            Err(e) => !output.ok && e@ == whole_message(output.stderr@, fallback@),
        },
{
    if output.ok {
        Ok(())
    } else {
        Err(whole_message_of(output.stderr.as_str(), fallback))
    }
}

/// The arguments of a read-only command: `--no-optional-locks` first, so git
/// never writes the index while only looking.
pub open spec fn read_args_spec(args: Seq<Seq<char>>) -> Seq<Seq<char>> {
    seq!["--no-optional-locks"@] + args
}

pub fn read_args(args: &[String]) -> (r: Vec<String>)
    ensures
        strings(r@) == read_args_spec(strings(args@)),
{
    let mut r: Vec<String> = Vec::new();
    r.push("--no-optional-locks".to_owned());
    let mut i: usize = 0;
    while i < args.len()
        invariant
            i <= args@.len(),
            strings(r@) == read_args_spec(strings(args@.take(i as int))),
        decreases args.len() - i,
    {
        let ghost prev = r@;
        r.push(args[i].clone());
        proof {
            assert(strings(r@) =~= strings(prev).push(args@[i as int]@));
            assert(args@.take(i + 1) =~= args@.take(i as int).push(args@[i as int]));
            assert(strings(args@.take(i + 1)) =~= strings(args@.take(i as int)).push(
                args@[i as int]@,
            ));
        }
        i = i + 1;
        proof {
            assert(strings(r@) =~= read_args_spec(strings(args@.take(i as int))));
        }
    }
    assert(args@.take(args@.len() as int) =~= args@);
    r
}

// ---------------------------------------------------------------------------
// The version gate
// ---------------------------------------------------------------------------

/// Whether `version`'s leading `major.minor` is at least `min`. Anything
/// after the second number (`2.51.0.windows.1`) is ignored; a version whose
/// first two dot-separated parts are not both numbers never passes.
pub open spec fn version_at_least(version: Seq<char>, min: (u32, u32)) -> bool {
    let parts = split(version, '.');
    parts.len() >= 2 && match (parse_u32(parts[0]), parse_u32(parts[1])) {
        (Some(major), Some(minor)) => major > min.0 || (major == min.0 && minor >= min.1),
        _ => false,
    }
}

pub fn at_least(version: &str, min: (u32, u32)) -> (r: bool)
    ensures
        r == version_at_least(version@, min),
{
    let v = chars_of(version);
    let parts = split_on(v.as_slice(), '.');
    if parts.len() < 2 {
        return false;
    }
    proof {
        assert(views(parts@)[0] == parts@[0]@);
        assert(views(parts@)[1] == parts@[1]@);
    }
    let major = parse_u32_of(parts[0].as_slice());
    let minor = parse_u32_of(parts[1].as_slice());
    match (major, minor) {
        (Some(major), Some(minor)) => major > min.0 || (major == min.0 && minor >= min.1),
        _ => false,
    }
}

// ---------------------------------------------------------------------------
// The startup probe
// ---------------------------------------------------------------------------

/// The version text `git --version` printed: its trimmed output without the
/// `git version ` prefix, or the whole trimmed output when the prefix is not
/// there.
pub open spec fn version_text(stdout: Seq<char>) -> Seq<char> {
    match strip_prefix(trim(stdout), "git version "@) {
        Some(rest) => rest,
        None => trim(stdout),
    }
}

/// What the probe learns from `git --version`: nothing when it failed, and
/// otherwise the version, the fsmonitor gate on it, and the read binary.
pub open spec fn probe_model(
    ok: bool,
    stdout: Seq<char>,
    read_binary: Seq<char>,
) -> (bool, Option<Seq<char>>, bool, Option<Seq<char>>) {
    if !ok {
        (false, None, false, None)
    } else {
        let v = version_text(stdout);
        (true, Some(v), version_at_least(v, FSMONITOR_MIN_VERSION), Some(read_binary))
    }
}

pub open spec fn info_model(info: GitInfo) -> (bool, Option<Seq<char>>, bool, Option<Seq<char>>) {
    (info.available, opt_text(info.version), info.supports_fsmonitor, opt_text(info.read_binary))
}

/// The `GitInfo` for a finished `git --version` run; `read_binary` is the path
/// of the binary reads go through.
pub fn probe_info(output: &Output, read_binary: &str) -> (info: GitInfo)
    ensures
        info_model(info) == probe_model(output.ok, output.stdout@, read_binary@),
{
    if !output.ok {
        return GitInfo { available: false, version: None, supports_fsmonitor: false, read_binary: None };
    }
    let out = chars_of(output.stdout.as_str());
    let t = trimmed(out.as_slice());
    let prefix = chars_of("git version ");
    let v = match strip_prefix_of(t.as_slice(), prefix.as_slice()) {
        Some(rest) => rest,
        None => t,
    };
    let version = string_from_chars(v.as_slice());
    let fsmonitor = at_least(version.as_str(), FSMONITOR_MIN_VERSION);
    GitInfo {
        available: true,
        version: Some(version),
        supports_fsmonitor: fsmonitor,
        read_binary: Some(read_binary.to_owned()),
    }
}

// ---------------------------------------------------------------------------
// Timeouts
// ---------------------------------------------------------------------------

/// The error for a process killed after `secs` seconds. Phrased as something
/// the app did rather than something git reported.
pub open spec fn timed_out(secs: u64) -> Seq<char> {
    "git timed out after "@ + decimal(secs as nat) + "s and was stopped"@
}

pub fn timed_out_message(secs: u64) -> (m: String)
    ensures
        m@ == timed_out(secs),
{
    let mut v: Vec<char> = Vec::new();
    push_str(&mut v, "git timed out after ");
    let d = decimal_of(secs);
    push_all(&mut v, d.as_slice());
    push_str(&mut v, "s and was stopped");
    string_from_chars(v.as_slice())
}

/// A timeout's message says "timed out" (the words the frontend keys its
/// translation on) and names the budget it exceeded.
pub proof fn law_timeout_message_names_itself(secs: u64)
    ensures
        contains(timed_out(secs), "timed out"@),
        contains(timed_out(secs), decimal(secs as nat)),
{
    reveal_strlit("git timed out after ");
    reveal_strlit("timed out");
    let m = timed_out(secs);
    let d = decimal(secs as nat);
    assert(m.subrange(4, 13) =~= "timed out"@);
    assert(occurs_at(m, "timed out"@, 4));
    assert(m.subrange(20, 20 + d.len() as int) =~= d);
    assert(occurs_at(m, d, 20));
}

/// Each budget is bounded by what its class of work can honestly take: the
/// probe is the tightest, a read never outlives a fetch, and a fetch never
/// outlives a hook-firing commit.
pub proof fn law_budgets_are_ordered()
    ensures
        PROBE_TIMEOUT < READ_TIMEOUT,
        READ_TIMEOUT < NETWORK_TIMEOUT,
        NETWORK_TIMEOUT < LOCAL_WRITE_TIMEOUT,
{
}

} // verus!
