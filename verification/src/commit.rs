//! Staging, unstaging, discarding, deleting untracked files and committing:
//! the argument lists that keep each of them to exactly the files chosen.
use vstd::prelude::*;

use crate::text::{
    chars_of, push_all, push_lit, push_str, push_string, string_from_chars, strings,
    whole_message, whole_message_of,
};

verus! {

/// Every path is handed to git as a literal pathspec, so `report[1].txt`
/// never also matches `report1.txt`.
pub open spec fn literal_pathspec_spec(path: Seq<char>) -> Seq<char> {
    ":(literal)"@ + path
}

pub fn literal_pathspec(path: &str) -> (r: String)
    ensures
        r@ == literal_pathspec_spec(path@),
{
    let mut v: Vec<char> = Vec::new();
    push_str(&mut v, ":(literal)");
    push_str(&mut v, path);
    string_from_chars(v.as_slice())
}

/// `restore`'s flags for discarding: the worktree from the index only — never
/// `--staged`, which would restore from HEAD and take staged work with it.
pub open spec fn discard_flags_spec() -> Seq<Seq<char>> {
    seq!["--worktree"@, "--"@]
}

pub fn discard_flags() -> (r: Vec<String>)
    ensures
        strings(r@) == discard_flags_spec(),
{
    let mut v: Vec<String> = Vec::new();
    push_lit(&mut v, "--worktree");
    push_lit(&mut v, "--");
    assert(strings(v@) =~= discard_flags_spec());
    v
}

/// `clean`'s flags: files only, never directories (`-d`) and never ignored
/// files (`-x`, `-X`).
pub open spec fn clean_flags_spec() -> Seq<Seq<char>> {
    seq!["--force"@, "--"@]
}

pub fn clean_flags() -> (r: Vec<String>)
    ensures
        strings(r@) == clean_flags_spec(),
{
    let mut v: Vec<String> = Vec::new();
    push_lit(&mut v, "--force");
    push_lit(&mut v, "--");
    assert(strings(v@) =~= clean_flags_spec());
    v
}

/// Discarding never reaches the index.
pub proof fn law_discard_keeps_staged_work()
    ensures
        !discard_flags_spec().contains("--staged"@),
{
    reveal_strlit("--staged");
    reveal_strlit("--worktree");
    reveal_strlit("--");
    let f = discard_flags_spec();
    assert forall|i: int| 0 <= i < f.len() implies f[i] != "--staged"@ by {
        if i == 0 {
            assert(f[0][2] != "--staged"@[2]);
        } else {
            assert(f[1].len() != "--staged"@.len());
        }
    }
}

/// Deleting untracked files never recurses into directories nor reaches
/// ignored files.
pub proof fn law_clean_stays_file_scoped()
    ensures
        !clean_flags_spec().contains("-d"@),
        !clean_flags_spec().contains("-x"@),
        !clean_flags_spec().contains("-X"@),
        !clean_flags_spec().contains("--directory"@),
{
    reveal_strlit("--force");
    reveal_strlit("--");
    reveal_strlit("-d");
    reveal_strlit("-x");
    reveal_strlit("-X");
    reveal_strlit("--directory");
    let f = clean_flags_spec();
    assert forall|i: int| 0 <= i < f.len() implies f[i] != "-d"@ && f[i] != "-x"@ && f[i] != "-X"@
        && f[i] != "--directory"@ by {
        if i == 0 {
            assert(f[0][1] != "-d"@[1]);
            assert(f[0][1] != "-x"@[1]);
            assert(f[0][1] != "-X"@[1]);
            assert(f[0].len() != "--directory"@.len());
        } else {
            assert(f[1][1] != "-d"@[1]);
            assert(f[1][1] != "-x"@[1]);
            assert(f[1][1] != "-X"@[1]);
            assert(f[1].len() != "--directory"@.len());
        }
    }
}

/// `<subcommand> <flags…> :(literal)<path>…`, or no command at all when there
/// are no paths: an empty selection runs no git.
pub open spec fn pathspec_args_spec(
    subcommand: Seq<char>,
    flags: Seq<Seq<char>>,
    paths: Seq<Seq<char>>,
) -> Option<Seq<Seq<char>>> {
    if paths.len() == 0 {
        None
    } else {
        Some(
            seq![subcommand] + flags + paths.map_values(|p: Seq<char>| literal_pathspec_spec(p)),
        )
    }
}

pub open spec fn opt_strings(o: Option<Vec<String>>) -> Option<Seq<Seq<char>>> {
    match o {
        Some(v) => Some(strings(v@)),
        None => None,
    }
}

pub fn pathspec_args(subcommand: &str, flags: &[String], paths: &[String]) -> (r: Option<
    Vec<String>,
>)
    ensures
        opt_strings(r) == pathspec_args_spec(subcommand@, strings(flags@), strings(paths@)),
{
    if paths.len() == 0 {
        return None;
    }
    let mut v: Vec<String> = Vec::new();
    push_lit(&mut v, subcommand);
    let mut i: usize = 0;
    while i < flags.len()
        invariant
            i <= flags@.len(),
            strings(v@) == seq![subcommand@] + strings(flags@.take(i as int)),
        decreases flags.len() - i,
    {
        push_string(&mut v, flags[i].clone());
        assert(strings(flags@.take(i + 1)) =~= strings(flags@.take(i as int)).push(
            flags@[i as int]@,
        ));
        i = i + 1;
        assert(strings(v@) =~= seq![subcommand@] + strings(flags@.take(i as int)));
    }
    assert(flags@.take(flags@.len() as int) =~= flags@);
    let ghost head = strings(v@);
    let mut j: usize = 0;
    while j < paths.len()
        invariant
            j <= paths@.len(),
            head == seq![subcommand@] + strings(flags@),
            strings(v@) == head + strings(paths@.take(j as int)).map_values(
                |p: Seq<char>| literal_pathspec_spec(p),
            ),
        decreases paths.len() - j,
    {
        push_string(&mut v, literal_pathspec(paths[j].as_str()));
        assert(strings(paths@.take(j + 1)) =~= strings(paths@.take(j as int)).push(
            paths@[j as int]@,
        ));
        j = j + 1;
        assert(strings(v@) =~= head + strings(paths@.take(j as int)).map_values(
            |p: Seq<char>| literal_pathspec_spec(p),
        ));
    }
    assert(paths@.take(paths@.len() as int) =~= paths@);
    Some(v)
}

/// The whole trimmed stderr of a failed write, or a generic line.
pub fn full_message(stderr: &str) -> (m: String)
    ensures
        m@ == whole_message(stderr@, "git failed"@),
{
    whole_message_of(stderr, "git failed")
}

} // verus!
