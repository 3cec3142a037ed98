//! Branch switching, creation, merging and deletion: the git arguments for
//! each, the decision between creating a tracking branch and switching to an
//! existing one, the two name lists the multi-repo dialogs read, and the
//! error text each failure shows.
use vstd::prelude::*;

use crate::git::Output;
use crate::text::{
    lacks, lemma_find_after,
    chars_eq, chars_of, contains, contains_of, lines, lines_of, push_all, push_lit, push_str,
    push_string, split_once, split_once_on, string_from_chars, strings, strip_prefix,
    strip_prefix_of, to_strings, trim, trimmed, views, whole_message, whole_message_of, is_lit,
};

verus! {

/// `git switch <branch>`: a local branch.
pub open spec fn switch_local_args_spec(branch: Seq<char>) -> Seq<Seq<char>> {
    seq!["switch"@, branch]
}

pub fn switch_local_args(branch: &str) -> (r: Vec<String>)
    ensures
        strings(r@) == switch_local_args_spec(branch@),
{
    let mut v: Vec<String> = Vec::new();
    push_lit(&mut v, "switch");
    push_lit(&mut v, branch);
    assert(strings(v@) =~= switch_local_args_spec(branch@));
    v
}

/// `origin/feature-x` → `feature-x`: only the first path segment is the
/// remote's name, so `origin/feature/x` keeps `feature/x`; a name with no
/// slash comes back whole.
pub open spec fn local_name_spec(remote_ref: Seq<char>) -> Seq<char> {
    match split_once(remote_ref, '/') {
        Some((_, rest)) => rest,
        None => remote_ref,
    }
}

pub fn local_name(remote_ref: &str) -> (r: String)
    ensures
        r@ == local_name_spec(remote_ref@),
{
    let r = chars_of(remote_ref);
    match split_once_on(r.as_slice(), '/') {
        Some((_, rest)) => string_from_chars(rest.as_slice()),
        None => remote_ref.to_owned(),
    }
}

/// Creating a local branch that tracks `remote_ref`, named without the remote.
pub open spec fn track_args_spec(remote_ref: Seq<char>) -> Seq<Seq<char>> {
    seq!["switch"@, "-c"@, local_name_spec(remote_ref), "--track"@, remote_ref]
}

pub fn track_args(remote_ref: &str) -> (r: Vec<String>)
    ensures
        strings(r@) == track_args_spec(remote_ref@),
{
    let mut v: Vec<String> = Vec::new();
    push_lit(&mut v, "switch");
    push_lit(&mut v, "-c");
    push_string(&mut v, local_name(remote_ref));
    push_lit(&mut v, "--track");
    push_lit(&mut v, remote_ref);
    assert(strings(v@) =~= track_args_spec(remote_ref@));
    v
}

/// Where switching to a remote-tracking ref stands after its first attempt.
#[derive(Debug, Clone, PartialEq, Eq)]
pub enum TrackingStep {
    /// The tracking branch was created and checked out.
    Done,
    /// A local branch of that name already exists: switch to it instead, with
    /// `switch_local_args` on the local name.
    SwitchToExisting,
    /// Any other refusal, as the user is shown it.
    Failed(String),
}

/// After `git switch -c <local> --track <remote_ref>`: done when it worked,
/// a plain switch when git refused because the branch already exists, and
/// otherwise git's whole complaint.
pub fn after_track_attempt(create: &Output) -> (r: TrackingStep)
    ensures
        create.ok ==> r == TrackingStep::Done,
        !create.ok && contains(create.stderr@, "already exists"@) ==> r
            == TrackingStep::SwitchToExisting,
        !create.ok && !contains(create.stderr@, "already exists"@) ==> (r matches TrackingStep::Failed(
            e,
        ) && e@ == whole_message(create.stderr@, "git switch failed"@)),
{
    if create.ok {
        return TrackingStep::Done;
    }
    let err = chars_of(create.stderr.as_str());
    let needle = chars_of("already exists");
    if !contains_of(err.as_slice(), needle.as_slice()) {
        return TrackingStep::Failed(full_message(create.stderr.as_str()));
    }
    TrackingStep::SwitchToExisting
}

/// `git switch --guess <name>`: a local branch is checked out, and a name
/// found on exactly one remote gets a tracking branch — resolved by git in
/// the repo at the moment of the switch.
pub open spec fn switch_args_spec(name: Seq<char>) -> Seq<Seq<char>> {
    seq!["switch"@, "--guess"@, name]
}

pub fn switch_args(name: &str) -> (r: Vec<String>)
    ensures
        strings(r@) == switch_args_spec(name@),
{
    let mut v: Vec<String> = Vec::new();
    push_lit(&mut v, "switch");
    push_lit(&mut v, "--guess");
    push_lit(&mut v, name);
    assert(strings(v@) =~= switch_args_spec(name@));
    v
}

/// A new branch at `start_point`, checked out atomically by `switch -c` or
/// left aside by `branch`; `--no-track` in both, so a remote start point never
/// becomes the new branch's upstream.
pub open spec fn create_args_spec(
    name: Seq<char>,
    start_point: Seq<char>,
    checkout: bool,
) -> Seq<Seq<char>> {
    if checkout {
        seq!["switch"@, "--no-track"@, "-c"@, name, start_point]
    } else {
        seq!["branch"@, "--no-track"@, name, start_point]
    }
}

pub fn create_args(name: &str, start_point: &str, checkout: bool) -> (r: Vec<String>)
    ensures
        strings(r@) == create_args_spec(name@, start_point@, checkout),
{
    let mut v: Vec<String> = Vec::new();
    if checkout {
        push_lit(&mut v, "switch");
        push_lit(&mut v, "--no-track");
        push_lit(&mut v, "-c");
    } else {
        push_lit(&mut v, "branch");
        push_lit(&mut v, "--no-track");
    }
    push_lit(&mut v, name);
    push_lit(&mut v, start_point);
    assert(strings(v@) =~= create_args_spec(name@, start_point@, checkout));
    v
}

/// Whatever `name` and `start_point` are, a created branch is asked for with
/// `--no-track`, and the new name comes right before the start point, last.
pub proof fn law_created_branches_track_nothing(name: Seq<char>, start_point: Seq<char>, checkout: bool)
    ensures
        create_args_spec(name, start_point, checkout).contains("--no-track"@),
        create_args_spec(name, start_point, checkout).last() == start_point,
        ({
            let a = create_args_spec(name, start_point, checkout);
            a[a.len() - 2] == name
        }),
{
    let a = create_args_spec(name, start_point, checkout);
    assert(a[1] == "--no-track"@);
}

/// The whole trimmed stderr of a failed switch, or a generic line.
pub fn full_message(stderr: &str) -> (m: String)
    ensures
        m@ == whole_message(stderr@, "git switch failed"@),
{
    whole_message_of(stderr, "git switch failed")
}

/// The same for a failed branch creation.
pub fn create_message(stderr: &str) -> (m: String)
    ensures
        m@ == whole_message(stderr@, "could not create the branch"@),
{
    whole_message_of(stderr, "could not create the branch")
}

// ---------------------------------------------------------------------------
// Branch names for the multi-repo dialogs
// ---------------------------------------------------------------------------

/// One repo's branch names: local ones as they are, remote ones without
/// their remote, each named once however many remotes carry it.
#[derive(Clone, Default, PartialEq, Eq, Debug)]
pub struct BranchSets {
    pub local: Vec<String>,
    pub remote: Vec<String>,
}

/// Full ref names of both namespaces, so a local branch called
/// `origin/develop` is never mistaken for a remote one.
pub open spec fn names_args_spec() -> Seq<Seq<char>> {
    seq!["for-each-ref"@, "--format=%(refname)"@, "refs/heads"@, "refs/remotes"@]
}

pub fn names_args() -> (r: Vec<String>)
    ensures
        strings(r@) == names_args_spec(),
{
    let mut v: Vec<String> = Vec::new();
    push_lit(&mut v, "for-each-ref");
    push_lit(&mut v, "--format=%(refname)");
    push_lit(&mut v, "refs/heads");
    push_lit(&mut v, "refs/remotes");
    assert(strings(v@) =~= names_args_spec());
    v
}

/// One line of the listing folded into the two name lists.
pub open spec fn names_step(
    st: (Seq<Seq<char>>, Seq<Seq<char>>),
    raw_line: Seq<char>,
) -> (Seq<Seq<char>>, Seq<Seq<char>>) {
    let line = trim(raw_line);
    if line.len() == 0 {
        st
    } else {
        match strip_prefix(line, "refs/heads/"@) {
            Some(name) => (st.0.push(name), st.1),
            None => match strip_prefix(line, "refs/remotes/"@) {
                None => st,
                Some(rest) => match split_once(rest, '/') {
                    None => st,
                    Some((_, name)) => if name == "HEAD"@ || st.1.contains(name) {
                        st
                    } else {
                        (st.0, st.1.push(name))
                    },
                },
            },
        }
    }
}

pub open spec fn names_fold(ls: Seq<Seq<char>>) -> (Seq<Seq<char>>, Seq<Seq<char>>)
    decreases ls.len(),
{
    if ls.len() == 0 {
        (seq![], seq![])
    } else {
        names_step(names_fold(ls.drop_last()), ls.last())
    }
}

/// The two name lists in a `for-each-ref --format=%(refname)` output.
pub open spec fn names_model(stdout: Seq<char>) -> (Seq<Seq<char>>, Seq<Seq<char>>) {
    names_fold(lines(stdout))
}

fn position_of(v: &Vec<Vec<char>>, x: &[char]) -> (r: bool)
    ensures
        r == views(v@).contains(x@),
{
    let mut j: usize = 0;
    while j < v.len()
        invariant
            j <= v@.len(),
            forall|k: int| 0 <= k < j ==> views(v@)[k] != x@,
        decreases v.len() - j,
    {
        if chars_eq(v[j].as_slice(), x) {
            assert(views(v@)[j as int] == x@);
            return true;
        }
        j = j + 1;
    }
    false
}

/// The local and remote branch names of one repo. Remote names come without
/// their remote, never twice, and never the remote's symbolic `HEAD`.
pub fn parse_names(stdout: &str) -> (sets: BranchSets)
    ensures
        (strings(sets.local@), strings(sets.remote@)) == names_model(stdout@),
        strings(sets.remote@).no_duplicates(),
        !strings(sets.remote@).contains("HEAD"@),
{
    let chars = chars_of(stdout);
    let ls = lines_of(chars.as_slice());
    let ghost lv = views(ls@);
    let heads = chars_of("refs/heads/");
    let remotes = chars_of("refs/remotes/");
    let mut local: Vec<Vec<char>> = Vec::new();
    let mut remote: Vec<Vec<char>> = Vec::new();
    let mut i: usize = 0;
    proof {
        reveal_strlit("HEAD");
        assert(lv.take(0) =~= Seq::<Seq<char>>::empty());
        assert(views(local@) =~= Seq::<Seq<char>>::empty());
        assert(views(remote@) =~= Seq::<Seq<char>>::empty());
    }
    while i < ls.len()
        invariant
            i <= ls@.len(),
            lv == views(ls@),
            lv == lines(stdout@),
            heads@ == "refs/heads/"@,
            remotes@ == "refs/remotes/"@,
            (views(local@), views(remote@)) == names_fold(lv.take(i as int)),
            views(remote@).no_duplicates(),
            !views(remote@).contains("HEAD"@),
        decreases ls.len() - i,
    {
        proof {
            assert(lv[i as int] == ls@[i as int]@);
            assert(lv.take(i + 1).drop_last() =~= lv.take(i as int));
            assert(lv.take(i + 1).last() == lv[i as int]);
        }
        let line = trimmed(ls[i].as_slice());
        if line.len() > 0 {
            match strip_prefix_of(line.as_slice(), heads.as_slice()) {
                Some(name) => {
                    let ghost prev = views(local@);
                    local.push(name);
                    assert(views(local@) =~= prev.push(name@));
                },
                None => match strip_prefix_of(line.as_slice(), remotes.as_slice()) {
                    None => {},
                    Some(rest) => match split_once_on(rest.as_slice(), '/') {
                        None => {},
                        Some((_, name)) => {
                            if !is_lit(name.as_slice(), "HEAD") && !position_of(
                                &remote,
                                name.as_slice(),
                            ) {
                                let ghost prev = views(remote@);
                                remote.push(name);
                                proof {
                                    assert(views(remote@) =~= prev.push(name@));
                                    assert forall|a: int, b: int|
                                        0 <= a < b < views(remote@).len() implies views(
                                        remote@,
                                    )[a] != views(remote@)[b] by {
                                        if b == prev.len() {
                                            assert(prev[a] == views(remote@)[a]);
                                        }
                                    }
                                    assert(!views(remote@).contains("HEAD"@)) by {
                                        if views(remote@).contains("HEAD"@) {
                                            let k = choose|k: int|
                                                0 <= k < views(remote@).len() && views(remote@)[k]
                                                    == "HEAD"@;
                                            if k < prev.len() {
                                                assert(prev[k] == views(remote@)[k]);
                                            }
                                        }
                                    }
                                }
                            }
                        },
                    },
                },
            }
        }
        i = i + 1;
    }
    proof {
        assert(lv.take(lv.len() as int) =~= lv);
    }
    BranchSets { local: to_strings(&local), remote: to_strings(&remote) }
}

/// The whole trimmed stderr of a failed listing, or a generic line.
pub fn names_message(stderr: &str) -> (m: String)
    ensures
        m@ == whole_message(stderr@, "could not list branches"@),
{
    whole_message_of(stderr, "could not list branches")
}

/// What a finished listing amounts to.
pub fn names_from_output(output: &Output) -> (r: Result<BranchSets, String>)
    ensures
        match r {
            Ok(sets) => output.ok && (strings(sets.local@), strings(sets.remote@)) == names_model(
                output.stdout@,
            ),
            Err(e) => !output.ok && e@ == whole_message(output.stderr@, "could not list branches"@),
        },
{
    if !output.ok {
        return Err(names_message(output.stderr.as_str()));
    }
    Ok(parse_names(output.stdout.as_str()))
}

// ---------------------------------------------------------------------------
// Deleting and merging
// ---------------------------------------------------------------------------

/// `git branch -d <name>`, or `-D` when the user chose to force it after git
/// refused the safe one.
pub open spec fn delete_args_spec(name: Seq<char>, force: bool) -> Seq<Seq<char>> {
    seq![
        "branch"@,
        if force {
            "-D"@
        } else {
            "-d"@
        },
        name,
    ]
}

pub fn delete_args(name: &str, force: bool) -> (r: Vec<String>)
    ensures
        strings(r@) == delete_args_spec(name@, force),
{
    let mut v: Vec<String> = Vec::new();
    push_lit(&mut v, "branch");
    if force {
        push_lit(&mut v, "-D");
    } else {
        push_lit(&mut v, "-d");
    }
    push_lit(&mut v, name);
    assert(strings(v@) =~= delete_args_spec(name@, force));
    v
}

/// The whole trimmed stderr of a failed delete — "not fully merged" must come
/// through whole, since the frontend reads it — or a generic line.
pub fn delete_message(stderr: &str) -> (m: String)
    ensures
        m@ == whole_message(stderr@, "could not delete the branch"@),
{
    whole_message_of(stderr, "could not delete the branch")
}

/// `git merge --no-edit <source>`: never an editor, which with no console
/// would be a hang with nothing on screen.
pub open spec fn merge_args_spec(source: Seq<char>) -> Seq<Seq<char>> {
    seq!["merge"@, "--no-edit"@, source]
}

pub fn merge_args(source: &str) -> (r: Vec<String>)
    ensures
        strings(r@) == merge_args_spec(source@),
{
    let mut v: Vec<String> = Vec::new();
    push_lit(&mut v, "merge");
    push_lit(&mut v, "--no-edit");
    push_lit(&mut v, source);
    assert(strings(v@) =~= merge_args_spec(source@));
    v
}

/// A failed merge's message: both streams trimmed, the blank ones dropped,
/// joined by a newline in the order git wrote them (a conflict is reported on
/// stdout with stderr empty) — or a generic line when both are blank.
pub open spec fn merge_message_spec(stdout: Seq<char>, stderr: Seq<char>) -> Seq<char> {
    let a = trim(stdout);
    let b = trim(stderr);
    if a.len() > 0 && b.len() > 0 {
        a + "\n"@ + b
    } else if a.len() > 0 {
        a
    } else if b.len() > 0 {
        b
    } else {
        "git merge failed"@
    }
}

pub fn merge_message(stdout: &str, stderr: &str) -> (m: String)
    ensures
        m@ == merge_message_spec(stdout@, stderr@),
{
    let o = chars_of(stdout);
    let e = chars_of(stderr);
    let a = trimmed(o.as_slice());
    let b = trimmed(e.as_slice());
    if a.len() > 0 && b.len() > 0 {
        let mut v: Vec<char> = Vec::new();
        push_all(&mut v, a.as_slice());
        push_str(&mut v, "\n");
        push_all(&mut v, b.as_slice());
        proof {
            assert(v@ =~= a@ + "\n"@ + b@);
        }
        string_from_chars(v.as_slice())
    } else if a.len() > 0 {
        string_from_chars(a.as_slice())
    } else if b.len() > 0 {
        string_from_chars(b.as_slice())
    } else {
        "git merge failed".to_owned()
    }
}

/// What a finished merge amounts to.
pub fn merge_outcome(output: &Output) -> (r: Result<(), String>)
    ensures
        match r {
            Ok(()) => output.ok,
            Err(e) => !output.ok && e@ == merge_message_spec(output.stdout@, output.stderr@),
        },
{
    if output.ok {
        Ok(())
    } else {
        Err(merge_message(output.stdout.as_str(), output.stderr.as_str()))
    }
}

/// A later line never takes a name off either list.
proof fn lemma_fold_keeps_names(ls: Seq<Seq<char>>, j: int, x: Seq<char>)
    requires
        0 <= j <= ls.len(),
        names_fold(ls.take(j)).1.contains(x),
    ensures
        names_fold(ls).1.contains(x),
    decreases ls.len(),
{
    if j == ls.len() {
        assert(ls.take(j) =~= ls);
    } else {
        let d = ls.drop_last();
        assert(d.take(j) =~= ls.take(j));
        lemma_fold_keeps_names(d, j, x);
        let st = names_fold(d);
        let k = choose|k: int| 0 <= k < st.1.len() && st.1[k] == x;
        let st2 = names_step(st, ls.last());
        assert(names_fold(ls) == st2);
        if st2.1 != st.1 {
            assert(st2.1[k] == x);
        }
    }
}

proof fn lemma_remote_line_listed(
    ls: Seq<Seq<char>>,
    i: int,
    remote: Seq<char>,
    name: Seq<char>,
)
    requires
        0 <= i < ls.len(),
        trim(ls[i]) == "refs/remotes/"@ + remote + seq!['/'] + name,
        lacks(remote, '/', 0, remote.len() as int),
        name != "HEAD"@,
    ensures
        names_fold(ls).1.contains(name),
{
    reveal_strlit("refs/heads/");
    reveal_strlit("refs/remotes/");
    let heads = "refs/heads/"@;
    let remotes = "refs/remotes/"@;
    assert(heads =~= seq!['r', 'e', 'f', 's', '/', 'h', 'e', 'a', 'd', 's', '/']);
    assert(remotes =~= seq!['r', 'e', 'f', 's', '/', 'r', 'e', 'm', 'o', 't', 'e', 's', '/']);
    let line = trim(ls[i]);
    let rest = remote + seq!['/'] + name;
    assert(line =~= remotes + rest);
    assert(line.take(11)[5] == 'r');
    assert(line.take(11) != heads);
    assert(strip_prefix(line, heads) is None);
    assert(line.take(13) =~= remotes);
    assert(line.skip(13) =~= rest);
    assert(strip_prefix(line, remotes) == Some(rest));
    lemma_find_after(remote, '/', name);
    assert(split_once(rest, '/') == Some((remote, name)));
    let upto = ls.take(i + 1);
    assert(upto.drop_last() =~= ls.take(i));
    assert(upto.last() == ls[i]);
    let st = names_fold(ls.take(i));
    let st2 = names_step(st, ls[i]);
    assert(names_fold(upto) == st2);
    if !st.1.contains(name) {
        assert(st2.1 == st.1.push(name));
        assert(st2.1[st.1.len() as int] == name);
    }
    assert(st2.1.contains(name));
    lemma_fold_keeps_names(ls, i + 1, name);
}

/// A listing line `refs/remotes/<remote>/<name>`, `<remote>` holding no `/`
/// and `<name>` not the remote's `HEAD`, puts `<name>` on the remote list:
/// the text after the first `/` past `refs/remotes/`, slashes in it kept.
pub proof fn law_remote_names_keep_their_slashes(
    stdout: Seq<char>,
    i: int,
    remote: Seq<char>,
    name: Seq<char>,
)
    requires
        0 <= i < lines(stdout).len(),
        trim(lines(stdout)[i]) == "refs/remotes/"@ + remote + seq!['/'] + name,
        lacks(remote, '/', 0, remote.len() as int),
        name != "HEAD"@,
    ensures
        names_model(stdout).1.contains(name),
{
    lemma_remote_line_listed(lines(stdout), i, remote, name);
}
proof fn lemma_local_line_listed(ls: Seq<Seq<char>>, i: int, name: Seq<char>)
    requires
        0 <= i < ls.len(),
        trim(ls[i]) == "refs/heads/"@ + name,
    ensures
        names_fold(ls).0.contains(name),
    decreases ls.len(),
{
    reveal_strlit("refs/heads/");
    let heads = "refs/heads/"@;
    assert(heads.len() == 11);
    let line = trim(ls[i]);
    assert(line.take(11) =~= heads);
    assert(line.skip(11) =~= name);
    assert(line.len() > 0);
    if i == ls.len() - 1 {
        let st = names_fold(ls.drop_last());
        assert(names_fold(ls) == names_step(st, ls.last()));
        assert(names_fold(ls).0 == st.0.push(name));
        assert(names_fold(ls).0[st.0.len() as int] == name);
    } else {
        let d = ls.drop_last();
        assert(d[i] == ls[i]);
        lemma_local_line_listed(d, i, name);
        let st = names_fold(d);
        let k = choose|k: int| 0 <= k < st.0.len() && st.0[k] == name;
        let st2 = names_step(st, ls.last());
        assert(names_fold(ls) == st2);
        assert(st2.0.len() >= st.0.len());
        assert(st2.0[k] == name);
    }
}

/// A listing line `refs/heads/<name>` puts the whole of `<name>` on the local
/// list, slashes kept.
pub proof fn law_local_names_keep_their_slashes(stdout: Seq<char>, i: int, name: Seq<char>)
    requires
        0 <= i < lines(stdout).len(),
        trim(lines(stdout)[i]) == "refs/heads/"@ + name,
    ensures
        names_model(stdout).0.contains(name),
{
    lemma_local_line_listed(lines(stdout), i, name);
}

} // verus!
