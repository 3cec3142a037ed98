//! Depth-one repo discovery: the repos a root holds, in the order the list
//! shows them. Reading the folder and canonicalising paths are the caller's.
use vstd::prelude::*;

use crate::text::{char_code, chars_of, lowercase, str_eq, to_lower};

verus! {

#[derive(Debug, Clone, PartialEq, Eq)]
pub struct Repo {
    /// Canonicalised path; write queues are keyed by it, so one repo reached
    /// through two overlapping roots is one repo.
    pub id: String,
    pub name: String,
    pub path: String,
}

/// Lexicographic order on texts, character by character.
pub open spec fn text_le(a: Seq<char>, b: Seq<char>) -> bool
    decreases a.len(),
{
    if a.len() == 0 {
        true
    } else if b.len() == 0 {
        false
    } else if (a[0] as int) < (b[0] as int) {
        true
    } else if a[0] == b[0] {
        text_le(a.skip(1), b.skip(1))
    } else {
        false
    }
}

pub proof fn lemma_text_le_total(a: Seq<char>, b: Seq<char>)
    ensures
        text_le(a, b) || text_le(b, a),
    decreases a.len(),
{
    if a.len() > 0 && b.len() > 0 {
        if a[0] == b[0] {
            lemma_text_le_total(a.skip(1), b.skip(1));
        } else {
            assert((a[0] as int) != (b[0] as int));
        }
    }
}

pub proof fn lemma_text_le_trans(a: Seq<char>, b: Seq<char>, c: Seq<char>)
    requires
        text_le(a, b),
        text_le(b, c),
    ensures
        text_le(a, c),
    decreases a.len(),
{
    if a.len() > 0 && b.len() > 0 && c.len() > 0 && a[0] == b[0] && b[0] == c[0] {
        lemma_text_le_trans(a.skip(1), b.skip(1), c.skip(1));
    }
}

/// The key the list is ordered by: the name, lower-cased.
pub open spec fn sort_key(r: Repo) -> Seq<char> {
    lowercase(r.name@)
}

/// `sorted` with `r` placed after every entry whose key is not above its own.
pub open spec fn insert_by_key(sorted: Seq<Repo>, r: Repo) -> Seq<Repo>
    decreases sorted.len(),
{
    if sorted.len() == 0 {
        seq![r]
    } else if text_le(sort_key(sorted.last()), sort_key(r)) {
        sorted.push(r)
    } else {
        insert_by_key(sorted.drop_last(), r).push(sorted.last())
    }
}

/// The repos ordered by lower-cased name; repos with equal keys keep the
/// order they came in.
pub open spec fn sort_by_name(rs: Seq<Repo>) -> Seq<Repo>
    decreases rs.len(),
{
    if rs.len() == 0 {
        seq![]
    } else {
        insert_by_key(sort_by_name(rs.drop_last()), rs.last())
    }
}

/// Consecutive entries with the same id reduced to the first of them.
pub open spec fn dedup_ids(rs: Seq<Repo>) -> Seq<Repo>
    decreases rs.len(),
{
    if rs.len() <= 1 {
        rs
    } else {
        let d = dedup_ids(rs.drop_last());
        if d.last().id@ == rs.last().id@ {
            d
        } else {
            d.push(rs.last())
        }
    }
}

/// The list a scan shows: sorted by name without regard to case, then with
/// consecutive duplicates of one repo dropped.
pub open spec fn ordered_repos(rs: Seq<Repo>) -> Seq<Repo> {
    dedup_ids(sort_by_name(rs))
}

pub open spec fn sorted_by_key(rs: Seq<Repo>) -> bool {
    forall|i: int, j: int| 0 <= i < j < rs.len() ==> text_le(sort_key(rs[i]), sort_key(rs[j]))
}

proof fn lemma_insert_at(sorted: Seq<Repo>, r: Repo, j: int)
    requires
        0 <= j <= sorted.len(),
        forall|m: int| j <= m < sorted.len() ==> !text_le(sort_key(#[trigger] sorted[m]), sort_key(r)),
        j > 0 ==> text_le(sort_key(sorted[j - 1]), sort_key(r)),
    ensures
        insert_by_key(sorted, r) == sorted.insert(j, r),
    decreases sorted.len(),
{
    if sorted.len() == 0 {
        assert(sorted.insert(j, r) =~= seq![r]);
    } else if j == sorted.len() {
        assert(sorted.insert(j, r) =~= sorted.push(r));
    } else {
        let n = sorted.len() - 1;
        assert(!text_le(sort_key(sorted[n]), sort_key(r)));
        assert(sorted.last() == sorted[n]);
        let d = sorted.drop_last();
        assert forall|m: int| j <= m < d.len() implies !text_le(sort_key(#[trigger] d[m]), sort_key(r)) by {
            assert(d[m] == sorted[m]);
        }
        if j > 0 {
            assert(d[j - 1] == sorted[j - 1]);
        }
        lemma_insert_at(d, r, j);
        assert(d.insert(j, r).push(sorted.last()) =~= sorted.insert(j, r));
    }
}

proof fn lemma_insert_sorted(sorted: Seq<Repo>, r: Repo)
    requires
        sorted_by_key(sorted),
    ensures
        sorted_by_key(insert_by_key(sorted, r)),
        insert_by_key(sorted, r).len() == sorted.len() + 1,
    decreases sorted.len(),
{
    if sorted.len() == 0 {
    } else if text_le(sort_key(sorted.last()), sort_key(r)) {
        let s = sorted.push(r);
        assert forall|i: int, j: int| 0 <= i < j < s.len() implies text_le(sort_key(s[i]), sort_key(s[j])) by {
            if j == s.len() - 1 {
                if i < sorted.len() - 1 {
                    lemma_text_le_trans(sort_key(sorted[i]), sort_key(sorted.last()), sort_key(r));
                }
            }
        }
    } else {
        let d = sorted.drop_last();
        let last = sorted.last();
        assert(sorted_by_key(d)) by {
            assert forall|i: int, j: int| 0 <= i < j < d.len() implies text_le(sort_key(d[i]), sort_key(d[j])) by {
                assert(d[i] == sorted[i] && d[j] == sorted[j]);
            }
        }
        lemma_insert_sorted(d, r);
        let t = insert_by_key(d, r);
        let s = t.push(last);
        lemma_text_le_total(sort_key(last), sort_key(r));
        // every element of t is an element of d or r, all at or below `last`
        lemma_insert_members(d, r);
        assert forall|i: int, j: int| 0 <= i < j < s.len() implies text_le(sort_key(s[i]), sort_key(s[j])) by {
            if j == s.len() - 1 {
                assert(s[j] == last);
                assert(s[i] == t[i]);
                if t[i] == r {
                } else {
                    let k = choose|k: int| 0 <= k < d.len() && d[k] == t[i];
                    assert(sorted[k] == d[k]);
                    assert(sorted.len() - 1 == d.len());
                    assert(text_le(sort_key(sorted[k]), sort_key(sorted[sorted.len() - 1])));
                }
            } else {
                assert(s[i] == t[i] && s[j] == t[j]);
            }
        }
    }
}

proof fn lemma_insert_members(sorted: Seq<Repo>, r: Repo)
    ensures
        forall|i: int|
            0 <= i < insert_by_key(sorted, r).len() ==> #[trigger] insert_by_key(sorted, r)[i] == r
                || exists|k: int| 0 <= k < sorted.len() && sorted[k] == insert_by_key(sorted, r)[i],
        insert_by_key(sorted, r).len() == sorted.len() + 1,
    decreases sorted.len(),
{
    if sorted.len() == 0 {
    } else if text_le(sort_key(sorted.last()), sort_key(r)) {
        let s = sorted.push(r);
        assert forall|i: int| 0 <= i < s.len() implies #[trigger] s[i] == r || exists|k: int|
            0 <= k < sorted.len() && sorted[k] == s[i] by {
            if i < sorted.len() {
                assert(sorted[i] == s[i]);
            }
        }
    } else {
        let d = sorted.drop_last();
        lemma_insert_members(d, r);
        let t = insert_by_key(d, r);
        let s = t.push(sorted.last());
        assert forall|i: int| 0 <= i < s.len() implies #[trigger] s[i] == r || exists|k: int|
            0 <= k < sorted.len() && sorted[k] == s[i] by {
            if i == s.len() - 1 {
                assert(sorted[sorted.len() - 1] == s[i]);
            } else {
                assert(s[i] == t[i]);
                if t[i] != r {
                    let k = choose|k: int| 0 <= k < d.len() && d[k] == t[i];
                    assert(sorted[k] == d[k]);
                }
            }
        }
    }
}

proof fn lemma_sort_sorted(rs: Seq<Repo>)
    ensures
        sorted_by_key(sort_by_name(rs)),
        sort_by_name(rs).len() == rs.len(),
    decreases rs.len(),
{
    if rs.len() > 0 {
        lemma_sort_sorted(rs.drop_last());
        lemma_insert_sorted(sort_by_name(rs.drop_last()), rs.last());
    }
}

pub open spec fn in_list(rs: Seq<Repo>, x: Repo) -> bool {
    exists|k: int| 0 <= k < rs.len() && rs[k] == x
}

proof fn lemma_dedup_subsequence(rs: Seq<Repo>)
    requires
        sorted_by_key(rs),
    ensures
        sorted_by_key(dedup_ids(rs)),
        forall|i: int| 0 <= i < dedup_ids(rs).len() - 1 ==> dedup_ids(rs)[i].id@ != #[trigger] dedup_ids(rs)[i + 1].id@,
        dedup_ids(rs).len() <= rs.len(),
        rs.len() > 0 ==> dedup_ids(rs).len() > 0,
        forall|i: int| 0 <= i < dedup_ids(rs).len() ==> in_list(rs, #[trigger] dedup_ids(rs)[i]),
    decreases rs.len(),
{
    if rs.len() <= 1 {
        assert forall|i: int| 0 <= i < dedup_ids(rs).len() implies in_list(rs, #[trigger] dedup_ids(rs)[i]) by {
            assert(rs[i] == dedup_ids(rs)[i]);
            assert(in_list(rs, rs[i]));
        }
    } else {
        let p = rs.drop_last();
        assert(sorted_by_key(p)) by {
            assert forall|i: int, j: int| 0 <= i < j < p.len() implies text_le(sort_key(p[i]), sort_key(p[j])) by {
                assert(p[i] == rs[i] && p[j] == rs[j]);
            }
        }
        lemma_dedup_subsequence(p);
        let d = dedup_ids(p);
        assert forall|i: int| 0 <= i < d.len() implies in_list(rs, #[trigger] d[i]) by {
            assert(in_list(p, d[i]));
            let k = choose|k: int| 0 <= k < p.len() && p[k] == d[i];
            assert(rs[k] == p[k]);
        }
        if d.last().id@ != rs.last().id@ {
            let s = d.push(rs.last());
            assert forall|i: int, j: int| 0 <= i < j < s.len() implies text_le(sort_key(s[i]), sort_key(s[j])) by {
                if j == s.len() - 1 {
                    assert(s[i] == d[i]);
                    assert(in_list(p, d[i]));
                    let k2 = choose|k2: int| 0 <= k2 < p.len() && p[k2] == d[i];
                    assert(rs[k2] == p[k2]);
                    assert(s[j] == rs[rs.len() - 1]);
                } else {
                    assert(s[i] == d[i] && s[j] == d[j]);
                }
            }
            assert forall|i: int| 0 <= i < s.len() implies in_list(rs, #[trigger] s[i]) by {
                if i == s.len() - 1 {
                    assert(rs[rs.len() - 1] == s[i]);
                    assert(in_list(rs, rs[rs.len() - 1]));
                } else {
                    assert(s[i] == d[i]);
                }
            }
            assert forall|i: int| 0 <= i < s.len() - 1 implies s[i].id@ != #[trigger] s[i + 1].id@ by {
                if i + 1 == s.len() - 1 {
                    assert(s[i] == d.last());
                } else {
                    assert(s[i] == d[i] && s[i + 1] == d[i + 1]);
                }
            }
            assert(dedup_ids(rs) == s);
            assert forall|i: int| 0 <= i < dedup_ids(rs).len() implies in_list(rs, #[trigger] dedup_ids(rs)[i]) by {
                assert(dedup_ids(rs)[i] == s[i]);
            }
        } else {
            assert(dedup_ids(rs) == d);
            assert forall|i: int| 0 <= i < dedup_ids(rs).len() implies in_list(rs, #[trigger] dedup_ids(rs)[i]) by {
                assert(dedup_ids(rs)[i] == d[i]);
            }
        }
    }
}

/// The order is by name without regard to case, and no repo is listed twice
/// in a row.
pub proof fn law_scan_order(rs: Seq<Repo>)
    ensures
        sorted_by_key(ordered_repos(rs)),
        forall|i: int|
            0 <= i < ordered_repos(rs).len() - 1 ==> ordered_repos(rs)[i].id@
                != #[trigger] ordered_repos(rs)[i + 1].id@,
{
    lemma_sort_sorted(rs);
    lemma_dedup_subsequence(sort_by_name(rs));
}

fn text_le_of(a: &[char], b: &[char]) -> (r: bool)
    ensures
        r == text_le(a@, b@),
{
    let mut i: usize = 0;
    assert(a@.skip(0) =~= a@);
    assert(b@.skip(0) =~= b@);
    while i < a.len() && i < b.len() && a[i] == b[i]
        invariant
            i <= a@.len(),
            i <= b@.len(),
            text_le(a@, b@) == text_le(a@.skip(i as int), b@.skip(i as int)),
        decreases a.len() - i,
    {
        proof {
            assert(a@.skip(i as int)[0] == a@[i as int]);
            assert(b@.skip(i as int)[0] == b@[i as int]);
            assert(a@.skip(i as int).skip(1) =~= a@.skip(i + 1));
            assert(b@.skip(i as int).skip(1) =~= b@.skip(i + 1));
        }
        i = i + 1;
    }
    if i == a.len() {
        return true;
    }
    if i == b.len() {
        return false;
    }
    proof {
        assert(a@.skip(i as int)[0] == a@[i as int]);
        assert(b@.skip(i as int)[0] == b@[i as int]);
    }
    char_code(a[i]) < char_code(b[i])
}

/// The repos a scan found, in the order the list shows them: by name
/// without regard to case (equal names keeping the order they were found
/// in), with consecutive entries for the same repo reduced to one.
pub fn order_repos(found: Vec<Repo>) -> (r: Vec<Repo>)
    ensures
        r@ == ordered_repos(found@),
{
    let ghost input = found@;
    let mut sorted: Vec<Repo> = Vec::new();
    let mut keys: Vec<Vec<char>> = Vec::new();
    let mut rest = found;
    let ghost done: Seq<Repo> = Seq::empty();
    proof {
        assert(input =~= done + rest@);
    }
    while rest.len() > 0
        invariant
            input == done + rest@,
            sorted@ == sort_by_name(done),
            keys@.len() == sorted@.len(),
            forall|m: int| 0 <= m < keys@.len() ==> (#[trigger] keys@[m])@ == sort_key(sorted@[m]),
        decreases rest.len(),
    {
        let r = rest.remove(0);
        let ghost prev = done;
        proof {
            done = done.push(r);
            assert(input =~= done + rest@);
            assert(done.drop_last() =~= prev);
        }
        let lower = to_lower(r.name.as_str());
        let k = chars_of(lower.as_str());
        let mut j = sorted.len();
        while j > 0 && !text_le_of(keys[j - 1].as_slice(), k.as_slice())
            invariant
                j <= sorted@.len(),
                keys@.len() == sorted@.len(),
                k@ == sort_key(r),
                forall|m: int| 0 <= m < keys@.len() ==> (#[trigger] keys@[m])@ == sort_key(sorted@[m]),
                forall|m: int| j <= m < sorted@.len() ==> !text_le(sort_key(#[trigger] sorted@[m]), sort_key(r)),
            decreases j,
        {
            j = j - 1;
        }
        proof {
            if j > 0 {
                assert(keys@[j - 1]@ == sort_key(sorted@[j - 1]));
            }
            lemma_insert_at(sorted@, r, j as int);
        }
        let ghost before_keys = keys@;
        let ghost before_sorted = sorted@;
        sorted.insert(j, r);
        keys.insert(j, k);
        proof {
            assert forall|m: int| 0 <= m < keys@.len() implies (#[trigger] keys@[m])@ == sort_key(sorted@[m]) by {
                if m < j {
                    assert(keys@[m] == before_keys[m] && sorted@[m] == before_sorted[m]);
                } else if m > j {
                    assert(keys@[m] == before_keys[m - 1] && sorted@[m] == before_sorted[m - 1]);
                }
            }
        }
    }
    proof {
        assert(done =~= input);
    }
    // consecutive duplicates by id
    let ghost s = sorted@;
    let mut out: Vec<Repo> = Vec::new();
    let mut rest2 = sorted;
    let ghost seen: Seq<Repo> = Seq::empty();
    proof {
        assert(s =~= seen + rest2@);
    }
    while rest2.len() > 0
        invariant
            s == seen + rest2@,
            out@ == dedup_ids(seen),
            seen.len() > 0 ==> out@.len() > 0,
        decreases rest2.len(),
    {
        let r = rest2.remove(0);
        let ghost prev = seen;
        proof {
            seen = seen.push(r);
            assert(s =~= seen + rest2@);
            assert(seen.drop_last() =~= prev);
        }
        if out.len() == 0 {
            proof {
                assert(prev.len() == 0);
                assert(seen =~= seq![r]);
            }
            out.push(r);
        } else {
            let n = out.len();
            let same = str_eq(out[n - 1].id.as_str(), r.id.as_str());
            proof {
                assert(out@.last() == out@[n - 1]);
            }
            if !same {
                out.push(r);
            }
        }
    }
    proof {
        assert(seen =~= s);
    }
    out
}

/// The repos come out ordered by their names lower-cased: for any two, the
/// earlier one's lower-cased name is at or before the later one's.
pub proof fn law_listed_by_lower_cased_name(rs: Seq<Repo>)
    ensures
        forall|i: int, j: int|
            0 <= i < j < ordered_repos(rs).len() ==> text_le(
                lowercase(#[trigger] ordered_repos(rs)[i].name@),
                lowercase(#[trigger] ordered_repos(rs)[j].name@),
            ),
{
    law_scan_order(rs);
    let o = ordered_repos(rs);
    assert forall|i: int, j: int| 0 <= i < j < o.len() implies text_le(
        lowercase(#[trigger] o[i].name@),
        lowercase(#[trigger] o[j].name@),
    ) by {
        assert(text_le(sort_key(o[i]), sort_key(o[j])));
    }
}

proof fn lemma_insert_keeps(sorted: Seq<Repo>, r: Repo)
    ensures
        forall|k: int| 0 <= k < sorted.len() ==> in_list(insert_by_key(sorted, r), #[trigger] sorted[k]),
        in_list(insert_by_key(sorted, r), r),
    decreases sorted.len(),
{
    let t = insert_by_key(sorted, r);
    if sorted.len() == 0 {
        assert(t[0] == r);
    } else if text_le(sort_key(sorted.last()), sort_key(r)) {
        assert(t == sorted.push(r));
        assert(t[sorted.len() as int] == r);
        assert forall|k: int| 0 <= k < sorted.len() implies in_list(t, #[trigger] sorted[k]) by {
            assert(t[k] == sorted[k]);
        }
    } else {
        let d = sorted.drop_last();
        lemma_insert_keeps(d, r);
        let u = insert_by_key(d, r);
        assert(t == u.push(sorted.last()));
        assert forall|k: int| 0 <= k < sorted.len() implies in_list(t, #[trigger] sorted[k]) by {
            if k == sorted.len() - 1 {
                assert(t[u.len() as int] == sorted[k]);
            } else {
                assert(sorted[k] == d[k]);
                assert(in_list(u, d[k]));
                let i = choose|i: int| 0 <= i < u.len() && u[i] == d[k];
                assert(t[i] == u[i]);
            }
        }
        let i = choose|i: int| 0 <= i < u.len() && u[i] == r;
        assert(t[i] == u[i]);
    }
}

proof fn lemma_sort_members(rs: Seq<Repo>)
    ensures
        forall|k: int| 0 <= k < rs.len() ==> in_list(sort_by_name(rs), #[trigger] rs[k]),
        forall|i: int| 0 <= i < sort_by_name(rs).len() ==> in_list(rs, #[trigger] sort_by_name(rs)[i]),
    decreases rs.len(),
{
    if rs.len() > 0 {
        let d = rs.drop_last();
        lemma_sort_members(d);
        let sd = sort_by_name(d);
        lemma_insert_keeps(sd, rs.last());
        lemma_insert_members(sd, rs.last());
        let t = sort_by_name(rs);
        assert(t == insert_by_key(sd, rs.last()));
        assert forall|k: int| 0 <= k < rs.len() implies in_list(t, #[trigger] rs[k]) by {
            if k < rs.len() - 1 {
                assert(rs[k] == d[k]);
                let j = choose|j: int| 0 <= j < sd.len() && sd[j] == d[k];
                assert(in_list(t, sd[j]));
            }
        }
        assert forall|i: int| 0 <= i < t.len() implies in_list(rs, #[trigger] t[i]) by {
            if t[i] == rs.last() {
                assert(rs[rs.len() - 1] == t[i]);
            } else {
                let k = choose|k: int| 0 <= k < sd.len() && sd[k] == t[i];
                assert(in_list(d, sd[k]));
                let m = choose|m: int| 0 <= m < d.len() && d[m] == sd[k];
                assert(rs[m] == d[m]);
            }
        }
    }
}

/// Whether some entry of `rs` has id `id`.
pub open spec fn has_id(rs: Seq<Repo>, id: Seq<char>) -> bool {
    exists|i: int| 0 <= i < rs.len() && (#[trigger] rs[i]).id@ == id
}

proof fn lemma_dedup_covers(rs: Seq<Repo>)
    ensures
        forall|k: int|
            0 <= k < rs.len() ==> has_id(dedup_ids(rs), (#[trigger] rs[k]).id@),
        rs.len() > 0 ==> dedup_ids(rs).len() > 0,
    decreases rs.len(),
{
    let o = dedup_ids(rs);
    if rs.len() <= 1 {
        assert(o == rs);
        assert forall|k: int| 0 <= k < rs.len() implies has_id(o, (#[trigger] rs[k]).id@) by {
            assert(o[k].id@ == rs[k].id@);
        }
    } else {
        let p = rs.drop_last();
        lemma_dedup_covers(p);
        let d = dedup_ids(p);
        assert(d.len() > 0);
        let same = d.last().id@ == rs.last().id@;
        if same {
            assert(o == d);
        } else {
            assert(o == d.push(rs.last()));
        }
        assert forall|k: int| 0 <= k < rs.len() implies has_id(o, (#[trigger] rs[k]).id@) by {
            if k < rs.len() - 1 {
                assert(rs[k] == p[k]);
                assert(has_id(d, p[k].id@));
                let i = choose|i: int| 0 <= i < d.len() && (#[trigger] d[i]).id@ == p[k].id@;
                assert(o[i] == d[i]);
                assert(o[i].id@ == rs[k].id@);
            } else {
                if same {
                    assert(o[d.len() - 1] == d.last());
                    assert(o[d.len() - 1].id@ == rs[k].id@);
                } else {
                    assert(o[d.len() as int] == rs.last());
                    assert(o[d.len() as int].id@ == rs[k].id@);
                }
            }
        }
    }
}

/// A scan's list holds only repos that were found, and every repo found is
/// in it: the one dropped for a repeat of the same repo leaves an entry with
/// the same id.
pub proof fn law_scan_keeps_every_repo(rs: Seq<Repo>)
    ensures
        forall|i: int| 0 <= i < ordered_repos(rs).len() ==> in_list(rs, #[trigger] ordered_repos(rs)[i]),
        forall|k: int|
            0 <= k < rs.len() ==> has_id(ordered_repos(rs), (#[trigger] rs[k]).id@),
{
    let t = sort_by_name(rs);
    lemma_sort_sorted(rs);
    lemma_sort_members(rs);
    lemma_dedup_subsequence(t);
    lemma_dedup_covers(t);
    let o = ordered_repos(rs);
    assert forall|i: int| 0 <= i < o.len() implies in_list(rs, #[trigger] o[i]) by {
        assert(in_list(t, o[i]));
        let k = choose|k: int| 0 <= k < t.len() && t[k] == o[i];
        assert(in_list(rs, t[k]));
    }
    assert forall|k: int| 0 <= k < rs.len() implies has_id(o, (#[trigger] rs[k]).id@) by {
        assert(in_list(t, rs[k]));
        let j = choose|j: int| 0 <= j < t.len() && t[j] == rs[k];
        assert(has_id(o, t[j].id@));
    }
}

} // verus!
