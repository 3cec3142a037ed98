//! Handing paths to the desktop: the argument Explorer is given, and the
//! extensions a bare program name is tried with. Spawning is the caller's.
use vstd::prelude::*;

use crate::text::{chars_of, keep_some, lemma_keep_some_step, split, split_on, string_from_chars, strings, trim, trimmed, views};

verus! {

/// `path` with every `/` turned into `\`: Explorer parses its argument rather
/// than opening it, and gives up on a mixed-separator path.
pub open spec fn explorer_arg_spec(path: Seq<char>) -> Seq<char> {
    path.map_values(|c: char| if c == '/' { '\\' } else { c })
}

pub fn explorer_arg(path: &str) -> (r: String)
    ensures
        r@ == explorer_arg_spec(path@),
{
    let p = chars_of(path);
    let mut out: Vec<char> = Vec::new();
    let mut i: usize = 0;
    while i < p.len()
        invariant
            i <= p@.len(),
            p@ == path@,
            out@ == explorer_arg_spec(p@.take(i as int)),
        decreases p.len() - i,
    {
        let c = p[i];
        if c == '/' {
            out.push('\\');
        } else {
            out.push(c);
        }
        assert(explorer_arg_spec(p@.take(i + 1)) =~= explorer_arg_spec(p@.take(i as int)).push(
            if c == '/' {
                '\\'
            } else {
                c
            },
        ));
        i = i + 1;
    }
    assert(p@.take(p@.len() as int) =~= p@);
    string_from_chars(out.as_slice())
}

/// The documented default every Windows install ships with.
pub open spec fn default_pathext() -> Seq<char> {
    ".COM;.EXE;.BAT;.CMD"@
}

/// The `PATHEXT` value used: the given one trimmed, or the default when
/// there is none or it is blank.
pub open spec fn pathext_value(pathext: Option<Seq<char>>) -> Seq<char> {
    match pathext {
        Some(v) => if trim(v).len() > 0 {
            trim(v)
        } else {
            default_pathext()
        },
        None => default_pathext(),
    }
}

/// The extensions, in the order `PATHEXT` gives them, each trimmed, blank
/// entries dropped.
pub open spec fn extensions_spec(pathext: Option<Seq<char>>) -> Seq<Seq<char>> {
    keep_some(
        split(pathext_value(pathext), ';').map_values(
            |e: Seq<char>|
                if trim(e).len() > 0 {
                    Some(trim(e))
                } else {
                    None
                },
        ),
    )
}

pub open spec fn opt_str(o: Option<&str>) -> Option<Seq<char>> {
    match o {
        Some(s) => Some(s@),
        None => None,
    }
}

pub fn path_extensions(pathext: Option<&str>) -> (r: Vec<String>)
    ensures
        strings(r@) == extensions_spec(opt_str(pathext)),
{
    let value: Vec<char> = match pathext {
        Some(v) => {
            let c = chars_of(v);
            let t = trimmed(c.as_slice());
            if t.len() > 0 {
                t
            } else {
                chars_of(".COM;.EXE;.BAT;.CMD")
            }
        },
        None => chars_of(".COM;.EXE;.BAT;.CMD"),
    };
    assert(value@ == pathext_value(opt_str(pathext)));
    let parts = split_on(value.as_slice(), ';');
    let ghost all = split(value@, ';').map_values(
        |e: Seq<char>|
            if trim(e).len() > 0 {
                Some(trim(e))
            } else {
                None
            },
    );
    let mut out: Vec<String> = Vec::new();
    let mut i: usize = 0;
    while i < parts.len()
        invariant
            i <= parts@.len(),
            views(parts@) == split(value@, ';'),
            all == split(value@, ';').map_values(
                |e: Seq<char>|
                    if trim(e).len() > 0 {
                        Some(trim(e))
                    } else {
                        None
                    },
            ),
            strings(out@) == keep_some(all.take(i as int)),
        decreases parts.len() - i,
    {
        proof {
            assert(views(parts@)[i as int] == parts@[i as int]@);
            lemma_keep_some_step(all, i as int);
        }
        let t = trimmed(parts[i].as_slice());
        if t.len() > 0 {
            let ghost prev = out@;
            out.push(string_from_chars(t.as_slice()));
            assert(strings(out@) =~= strings(prev).push(t@));
        }
        i = i + 1;
    }
    assert(all.take(all.len() as int) =~= all);
    out
}

} // verus!
