//! Fetch, pull, push and publish: their argument lists, the environment that
//! keeps the background fetch from ever prompting, and the reading of
//! git's refusals — including whether one looks like a credential problem.
use vstd::prelude::*;

use crate::git::Output;
use crate::text::{
    chars_of, contains, contains_of, first_line, first_line_of, lowercase, push_lit, strings, to_lower,
    trim, trimmed,
};

verus! {

/// A manual fetch, which may prompt: the user is there.
pub open spec fn fetch_args_spec() -> Seq<Seq<char>> {
    seq!["fetch"@, "--prune"@, "--no-tags"@, "--quiet"@]
}

pub fn fetch_args() -> (r: Vec<String>)
    ensures
        strings(r@) == fetch_args_spec(),
{
    let mut v: Vec<String> = Vec::new();
    push_lit(&mut v, "fetch");
    push_lit(&mut v, "--prune");
    push_lit(&mut v, "--no-tags");
    push_lit(&mut v, "--quiet");
    assert(strings(v@) =~= fetch_args_spec());
    v
}

/// The background sweep's fetch: the same fetch with interactive credential
/// helpers switched off.
pub open spec fn background_fetch_args_spec() -> Seq<Seq<char>> {
    seq!["-c"@, "credential.interactive=never"@] + fetch_args_spec()
}

pub fn background_fetch_args() -> (r: Vec<String>)
    ensures
        strings(r@) == background_fetch_args_spec(),
{
    let mut v: Vec<String> = Vec::new();
    push_lit(&mut v, "-c");
    push_lit(&mut v, "credential.interactive=never");
    push_lit(&mut v, "fetch");
    push_lit(&mut v, "--prune");
    push_lit(&mut v, "--no-tags");
    push_lit(&mut v, "--quiet");
    assert(strings(v@) =~= background_fetch_args_spec());
    v
}

/// The environment of the background fetch: no terminal prompt, and every
/// askpass program answering nothing.
pub open spec fn background_env_spec() -> Seq<(Seq<char>, Seq<char>)> {
    seq![
        ("GIT_TERMINAL_PROMPT"@, "0"@),
        ("GIT_ASKPASS"@, "echo"@),
        ("SSH_ASKPASS"@, "echo"@),
        ("SSH_ASKPASS_REQUIRE"@, "never"@),
    ]
}

pub fn background_env() -> (r: Vec<(String, String)>)
    ensures
        r@.map_values(|p: (String, String)| (p.0@, p.1@)) == background_env_spec(),
{
    let mut v: Vec<(String, String)> = Vec::new();
    v.push(("GIT_TERMINAL_PROMPT".to_owned(), "0".to_owned()));
    v.push(("GIT_ASKPASS".to_owned(), "echo".to_owned()));
    v.push(("SSH_ASKPASS".to_owned(), "echo".to_owned()));
    v.push(("SSH_ASKPASS_REQUIRE".to_owned(), "never".to_owned()));
    assert(v@.map_values(|p: (String, String)| (p.0@, p.1@)) =~= background_env_spec());
    v
}

/// A pull is always a merge, whatever `pull.rebase` says.
pub open spec fn pull_args_spec() -> Seq<Seq<char>> {
    seq!["pull"@, "--no-rebase"@]
}

pub fn pull_args() -> (r: Vec<String>)
    ensures
        strings(r@) == pull_args_spec(),
{
    let mut v: Vec<String> = Vec::new();
    push_lit(&mut v, "pull");
    push_lit(&mut v, "--no-rebase");
    assert(strings(v@) =~= pull_args_spec());
    v
}

/// "Publish branch": push the checked-out branch to origin and set it as the
/// upstream. `HEAD` is resolved by git when it runs, so what is pushed is
/// the branch actually checked out, never a name read from a status that a
/// `git switch` outside the app may have made stale.
pub open spec fn publish_args_spec() -> Seq<Seq<char>> {
    seq!["push"@, "-u"@, "origin"@, "HEAD"@]
}

pub fn publish_args() -> (r: Vec<String>)
    ensures
        strings(r@) == publish_args_spec(),
{
    let mut v: Vec<String> = Vec::new();
    push_lit(&mut v, "push");
    push_lit(&mut v, "-u");
    push_lit(&mut v, "origin");
    push_lit(&mut v, "HEAD");
    assert(strings(v@) =~= publish_args_spec());
    v
}

/// Whether `git remote` listed anything: the sweep skips repos with no remote
/// rather than spawning a fetch that can only fail.
pub fn remote_listed(output: &Output) -> (r: bool)
    ensures
        r == (output.ok && trim(output.stdout@).len() > 0),
{
    if !output.ok {
        return false;
    }
    let out = chars_of(output.stdout.as_str());
    let t = trimmed(out.as_slice());
    t.len() > 0
}

/// The phrases, in lower case, that mark a refusal as a credential problem.
pub open spec fn auth_needles() -> Seq<Seq<char>> {
    seq![
        "authentication failed"@,
        "could not read username"@,
        "could not read password"@,
        "terminal prompts disabled"@,
        "permission denied (publickey)"@,
        "the requested url returned error: 401"@,
        "the requested url returned error: 403"@,
        "fatal: access denied"@,
    ]
}

pub open spec fn mentions_auth_failure_spec(lower: Seq<char>) -> bool {
    exists|i: int| 0 <= i < auth_needles().len() && contains(lower, #[trigger] auth_needles()[i])
}

fn needle(i: usize) -> (r: &'static str)
    requires
        i < 8,
    ensures
        r@ == auth_needles()[i as int],
{
    match i {
        0 => "authentication failed",
        1 => "could not read username",
        2 => "could not read password",
        3 => "terminal prompts disabled",
        4 => "permission denied (publickey)",
        5 => "the requested url returned error: 401",
        6 => "the requested url returned error: 403",
        _ => "fatal: access denied",
    }
}

/// Whether already lower-cased stderr contains one of the credential phrases.
pub fn mentions_auth_failure(lower: &str) -> (r: bool)
    ensures
        r == mentions_auth_failure_spec(lower@),
{
    let text = chars_of(lower);
    let mut i: usize = 0;
    while i < 8
        invariant
            i <= 8,
            text@ == lower@,
            forall|k: int| 0 <= k < i ==> !contains(lower@, #[trigger] auth_needles()[k]),
        decreases 8 - i,
    {
        let n = chars_of(needle(i));
        if contains_of(text.as_slice(), n.as_slice()) {
            assert(contains(lower@, auth_needles()[i as int]));
            return true;
        }
        i = i + 1;
    }
    assert(auth_needles().len() == 8);
    false
}

/// Whether a refusal reads like a credential problem, matched without regard
/// to case. Used only to stop the background sweep retrying a repo, so a
/// miss costs one more retry.
pub fn looks_like_auth_failure(stderr: &str) -> (r: bool)
    ensures
        r == mentions_auth_failure_spec(lowercase(stderr@)),
{
    let lower = to_lower(stderr);
    mentions_auth_failure(lower.as_str())
}

/// The first non-blank line of a failed remote operation's stderr, or a
/// generic line.
pub fn first_line_message(stderr: &str) -> (m: String)
    ensures
        m@ == first_line(stderr@, "git failed"@),
{
    first_line_of(stderr, "git failed")
}

/// What a finished fetch, pull or push amounts to.
pub fn remote_outcome(output: &Output) -> (r: Result<(), String>)
    ensures
        match r {
            Ok(()) => output.ok,
            Err(e) => !output.ok && e@ == first_line(output.stderr@, "git failed"@),
        },
{
    if output.ok {
        Ok(())
    } else {
        Err(first_line_message(output.stderr.as_str()))
    }
}

} // verus!
