//! Text primitives over `Seq<char>`: the handful of `str` operations the
//! parsers are written in terms of, each with a spec function saying what it
//! means and an executable version proved against it.
use vstd::prelude::*;
use vstd::utf8::*;

verus! {

// ---------------------------------------------------------------------------
// Conversions
// ---------------------------------------------------------------------------

/// The characters of `s`, in order.
pub fn chars_of(s: &str) -> (v: Vec<char>)
    ensures
        v@ == s@,
{
    let mut v: Vec<char> = Vec::new();
    for c in it: s.chars()
        invariant
            v@ == it.seq().take(it.index() as int),
    {
        v.push(c);
    }
    v
}

/// `chars.iter().collect::<String>()`: a `String` holding exactly these
/// characters, as std documents for `String: FromIterator<char>`.
#[verifier::external_body]
pub(crate) fn string_from_chars(chars: &[char]) -> (s: String)
    ensures
        s@ == chars@,
{
    chars.iter().collect()
}

/// A copy of `s[lo..hi]`.
pub fn copy_range(s: &[char], lo: usize, hi: usize) -> (v: Vec<char>)
    requires
        lo <= hi <= s@.len(),
    ensures
        v@ == s@.subrange(lo as int, hi as int),
{
    let mut v: Vec<char> = Vec::new();
    let mut i = lo;
    while i < hi
        invariant
            lo <= i <= hi <= s@.len(),
            v@ == s@.subrange(lo as int, i as int),
        decreases hi - i,
    {
        v.push(s[i]);
        i = i + 1;
    }
    v
}

/// The `String` holding `s[lo..hi]`.
pub fn string_of_range(s: &[char], lo: usize, hi: usize) -> (r: String)
    requires
        lo <= hi <= s@.len(),
    ensures
        r@ == s@.subrange(lo as int, hi as int),
{
    let v = copy_range(s, lo, hi);
    string_from_chars(v.as_slice())
}

/// Whether two character sequences are equal.
pub fn chars_eq(a: &[char], b: &[char]) -> (r: bool)
    ensures
        r == (a@ == b@),
{
    if a.len() != b.len() {
        return false;
    }
    let mut i: usize = 0;
    while i < a.len()
        invariant
            a@.len() == b@.len(),
            i <= a@.len(),
            forall|j: int| 0 <= j < i ==> a@[j] == b@[j],
        decreases a.len() - i,
    {
        if a[i] != b[i] {
            return false;
        }
        i = i + 1;
    }
    assert(a@ =~= b@);
    true
}

/// Whether two texts are equal.
pub fn str_eq(a: &str, b: &str) -> (r: bool)
    ensures
        r == (a@ == b@),
{
    let x = chars_of(a);
    let y = chars_of(b);
    chars_eq(x.as_slice(), y.as_slice())
}

/// A character's code point.
pub fn char_code(c: char) -> (r: u32)
    ensures
        r as int == c as int,
{
    c as u32
}

/// Whether `s` equals the literal `lit`.
pub fn is_lit(s: &[char], lit: &str) -> (r: bool)
    ensures
        r == (s@ == lit@),
{
    let l = chars_of(lit);
    chars_eq(s, l.as_slice())
}

/// The texts of a list of strings.
pub open spec fn strings(v: Seq<String>) -> Seq<Seq<char>> {
    v.map_values(|s: String| s@)
}

/// Appends the characters of `s` to `v`.
pub fn push_all(v: &mut Vec<char>, s: &[char])
    ensures
        final(v)@ == old(v)@ + s@,
{
    let ghost start = v@;
    let mut i: usize = 0;
    while i < s.len()
        invariant
            i <= s@.len(),
            v@ == start + s@.take(i as int),
        decreases s.len() - i,
    {
        v.push(s[i]);
        i = i + 1;
        assert(v@ =~= start + s@.take(i as int));
    }
    assert(s@.take(s@.len() as int) =~= s@);
}

/// Appends the characters of the literal `lit` to `v`.
pub fn push_str(v: &mut Vec<char>, lit: &str)
    ensures
        final(v)@ == old(v)@ + lit@,
{
    let l = chars_of(lit);
    push_all(v, l.as_slice());
}

/// Appends `s` to a list of strings.
pub fn push_string(v: &mut Vec<String>, s: String)
    ensures
        strings(final(v)@) == strings(old(v)@).push(s@),
{
    let ghost prev = v@;
    v.push(s);
    assert(strings(v@) =~= strings(prev).push(s@));
}

/// Appends the literal `lit` to a list of strings.
pub fn push_lit(v: &mut Vec<String>, lit: &str)
    ensures
        strings(final(v)@) == strings(old(v)@).push(lit@),
{
    push_string(v, lit.to_owned());
}

/// What `String::from_utf8_lossy` gives for a byte string.
pub uninterp spec fn utf8_lossy(bytes: Seq<u8>) -> Seq<char>;

/// `String::from_utf8_lossy`: the text the bytes encode, with each invalid
/// sequence replaced by U+FFFD. The replacement rule is named rather than
/// spelled out; std documents that valid UTF-8 comes back unchanged.
#[verifier::external_body]
pub(crate) fn lossy_text(bytes: &[u8]) -> (s: String)
    ensures
        s@ == utf8_lossy(bytes@),
        valid_utf8(bytes@) ==> s@ == decode_utf8(bytes@),
{
    String::from_utf8_lossy(bytes).into_owned()
}

// ---------------------------------------------------------------------------
// Searching for one character
// ---------------------------------------------------------------------------

/// The first index at or after `i` holding `c`.
pub open spec fn find_from(s: Seq<char>, c: char, i: int) -> Option<int>
    decreases s.len() - i,
{
    if i < 0 || i >= s.len() {
        None
    } else if s[i] == c {
        Some(i)
    } else {
        find_from(s, c, i + 1)
    }
}

/// The first index holding `c`, if any.
pub open spec fn find_char(s: Seq<char>, c: char) -> Option<int> {
    find_from(s, c, 0)
}

pub open spec fn lacks(s: Seq<char>, c: char, lo: int, hi: int) -> bool {
    forall|j: int| lo <= j < hi ==> s[j] != c
}

pub proof fn lemma_find_from(s: Seq<char>, c: char, i: int)
    requires
        0 <= i <= s.len(),
    ensures
        match find_from(s, c, i) {
            Some(k) => i <= k < s.len() && s[k] == c && lacks(s, c, i, k),
            None => lacks(s, c, i, s.len() as int),
        },
    decreases s.len() - i,
{
    if i < s.len() && s[i] != c {
        lemma_find_from(s, c, i + 1);
    }
}

/// `find_char` characterised: the first occurrence, or none at all.
pub proof fn lemma_find_char(s: Seq<char>, c: char)
    ensures
        match find_char(s, c) {
            Some(k) => 0 <= k < s.len() && s[k] == c && lacks(s, c, 0, k),
            None => lacks(s, c, 0, s.len() as int),
        },
{
    lemma_find_from(s, c, 0);
}

/// The converse direction: an occurrence preceded by none is what `find_char` finds.
pub proof fn lemma_find_char_is(s: Seq<char>, c: char, k: int)
    requires
        0 <= k < s.len(),
        s[k] == c,
        lacks(s, c, 0, k),
    ensures
        find_char(s, c) == Some(k),
{
    lemma_find_char(s, c);
}

pub proof fn lemma_find_char_none(s: Seq<char>, c: char)
    requires
        lacks(s, c, 0, s.len() as int),
    ensures
        find_char(s, c) is None,
{
    lemma_find_char(s, c);
}

/// The first index of `c` in `s`.
pub fn find(s: &[char], c: char) -> (r: Option<usize>)
    ensures
        r == (match find_char(s@, c) {
            Some(k) => Some(k as usize),
            None => None::<usize>,
        }),
{
    let mut i: usize = 0;
    while i < s.len()
        invariant
            i <= s@.len(),
            lacks(s@, c, 0, i as int),
        decreases s.len() - i,
    {
        if s[i] == c {
            proof {
                lemma_find_char_is(s@, c, i as int);
            }
            return Some(i);
        }
        i = i + 1;
    }
    proof {
        lemma_find_char_none(s@, c);
    }
    None
}

// ---------------------------------------------------------------------------
// split, split_once, strip_prefix
// ---------------------------------------------------------------------------

/// `str::split(c)`: the pieces between occurrences of `c`, empty ones
/// included — so a `c`-terminated text ends in an empty piece.
pub open spec fn split(s: Seq<char>, c: char) -> Seq<Seq<char>>
    decreases s.len(),
{
    match find_char(s, c) {
        Some(k) => if 0 <= k < s.len() {
            seq![s.take(k)] + split(s.skip(k + 1), c)
        } else {
            seq![s]
        },
        None => seq![s],
    }
}

/// `str::splitn(n, c)`: at most `n` pieces, the last holding the rest of the
/// text, separators and all.
pub open spec fn splitn(s: Seq<char>, c: char, n: nat) -> Seq<Seq<char>>
    decreases n,
{
    if n == 0 {
        seq![]
    } else if n == 1 {
        seq![s]
    } else {
        match find_char(s, c) {
            Some(k) => if 0 <= k < s.len() {
                seq![s.take(k)] + splitn(s.skip(k + 1), c, (n - 1) as nat)
            } else {
                seq![s]
            },
            None => seq![s],
        }
    }
}

pub proof fn lemma_splitn_len(s: Seq<char>, c: char, n: nat)
    ensures
        n >= 1 ==> 1 <= splitn(s, c, n).len() <= n,
        n == 0 ==> splitn(s, c, n).len() == 0,
    decreases n,
{
    if n >= 2 {
        match find_char(s, c) {
            Some(k) => {
                if 0 <= k < s.len() {
                    lemma_splitn_len(s.skip(k + 1), c, (n - 1) as nat);
                }
            },
            None => {},
        }
    }
}

/// `s.splitn(n, c)`, each piece copied out.
pub fn splitn_of(s: &[char], c: char, n: usize) -> (r: Vec<Vec<char>>)
    ensures
        views(r@) == splitn(s@, c, n as nat),
{
    if n == 0 {
        let r: Vec<Vec<char>> = Vec::new();
        assert(views(r@) =~= Seq::<Seq<char>>::empty());
        return r;
    }
    let mut r: Vec<Vec<char>> = Vec::new();
    let mut start: usize = 0;
    let mut i: usize = 0;
    assert(s@.skip(0) =~= s@);
    assert(views(r@) =~= Seq::<Seq<char>>::empty());
    while i < s.len() && r.len() + 1 < n
        invariant
            start <= i <= s@.len(),
            r@.len() < n,
            lacks(s@, c, start as int, i as int),
            views(r@) + splitn(s@.skip(start as int), c, (n - r@.len()) as nat) == splitn(
                s@,
                c,
                n as nat,
            ),
        decreases s.len() - i,
    {
        if s[i] == c {
            let piece = copy_range(s, start, i);
            proof {
                let t = s@.skip(start as int);
                let k = i - start;
                assert forall|j: int| 0 <= j < k implies t[j] != c by {
                    assert(t[j] == s@[start + j]);
                }
                lemma_find_char_is(t, c, k as int);
                assert(t.take(k as int) =~= piece@);
                assert(t.skip(k + 1) =~= s@.skip(i + 1));
                assert(views(r@.push(piece)) =~= views(r@) + seq![piece@]);
                assert((n - r@.len() - 1) as nat == ((n - r@.len()) as nat - 1) as nat);
            }
            r.push(piece);
            start = i + 1;
        }
        i = i + 1;
    }
    let last = copy_range(s, start, s.len());
    proof {
        let t = s@.skip(start as int);
        assert(t =~= last@);
        if r@.len() + 1 < n {
            assert forall|j: int| 0 <= j < t.len() implies t[j] != c by {
                assert(t[j] == s@[start + j]);
            }
            lemma_find_char_none(t, c);
        }
        assert(splitn(t, c, (n - r@.len()) as nat) == seq![t]);
        assert(views(r@.push(last)) =~= views(r@) + seq![last@]);
    }
    r.push(last);
    r
}

/// The values of the `Some`s among `s`, in order.
pub open spec fn keep_some<A>(s: Seq<Option<A>>) -> Seq<A>
    decreases s.len(),
{
    if s.len() == 0 {
        seq![]
    } else {
        let rest = keep_some(s.drop_last());
        match s.last() {
            Some(a) => rest.push(a),
            None => rest,
        }
    }
}

pub proof fn lemma_keep_some_step<A>(s: Seq<Option<A>>, i: int)
    requires
        0 <= i < s.len(),
    ensures
        keep_some(s.take(i + 1)) == match s[i] {
            Some(a) => keep_some(s.take(i)).push(a),
            None => keep_some(s.take(i)),
        },
{
    assert(s.take(i + 1).drop_last() =~= s.take(i));
    assert(s.take(i + 1).last() == s[i]);
}

/// Each character list as a `String`.
pub fn to_strings(v: &Vec<Vec<char>>) -> (r: Vec<String>)
    ensures
        strings(r@) == views(v@),
{
    let mut r: Vec<String> = Vec::new();
    let mut i: usize = 0;
    while i < v.len()
        invariant
            i <= v@.len(),
            strings(r@) == views(v@.take(i as int)),
        decreases v.len() - i,
    {
        let ghost prev = r@;
        r.push(string_from_chars(v[i].as_slice()));
        proof {
            assert(strings(r@) =~= strings(prev).push(v@[i as int]@));
            assert(views(v@.take(i + 1)) =~= views(v@.take(i as int)).push(v@[i as int]@));
        }
        i = i + 1;
    }
    assert(v@.take(v@.len() as int) =~= v@);
    r
}

/// `str::split_once(c)`.
pub open spec fn split_once(s: Seq<char>, c: char) -> Option<(Seq<char>, Seq<char>)> {
    match find_char(s, c) {
        Some(k) => Some((s.take(k), s.skip(k + 1))),
        None => None,
    }
}

/// `str::strip_prefix(p)`.
pub open spec fn strip_prefix(s: Seq<char>, p: Seq<char>) -> Option<Seq<char>> {
    if p.len() <= s.len() && s.take(p.len() as int) == p {
        Some(s.skip(p.len() as int))
    } else {
        None
    }
}

pub open spec fn starts_with(s: Seq<char>, p: Seq<char>) -> bool {
    p.len() <= s.len() && s.take(p.len() as int) == p
}

pub open spec fn views(v: Seq<Vec<char>>) -> Seq<Seq<char>> {
    v.map_values(|x: Vec<char>| x@)
}

pub proof fn lemma_split_step(s: Seq<char>, c: char, k: int)
    requires
        0 <= k < s.len(),
        s[k] == c,
        lacks(s, c, 0, k),
    ensures
        split(s, c) == seq![s.take(k)] + split(s.skip(k + 1), c),
{
    lemma_find_char_is(s, c, k);
}

pub proof fn lemma_split_last(s: Seq<char>, c: char)
    requires
        lacks(s, c, 0, s.len() as int),
    ensures
        split(s, c) == seq![s],
{
    lemma_find_char_none(s, c);
}

pub proof fn lemma_split_len(s: Seq<char>, c: char)
    ensures
        1 <= split(s, c).len() <= s.len() + 1,
    decreases s.len(),
{
    lemma_find_char(s, c);
    match find_char(s, c) {
        Some(k) => {
            lemma_split_len(s.skip(k + 1), c);
        },
        None => {},
    }
}

/// `s.split(c)`, each piece copied out.
pub fn split_on(s: &[char], c: char) -> (r: Vec<Vec<char>>)
    ensures
        views(r@) == split(s@, c),
{
    let mut r: Vec<Vec<char>> = Vec::new();
    let mut start: usize = 0;
    let mut i: usize = 0;
    assert(s@.skip(0) =~= s@);
    assert(views(r@) =~= Seq::<Seq<char>>::empty());
    while i < s.len()
        invariant
            start <= i <= s@.len(),
            lacks(s@, c, start as int, i as int),
            views(r@) + split(s@.skip(start as int), c) == split(s@, c),
        decreases s.len() - i,
    {
        if s[i] == c {
            let piece = copy_range(s, start, i);
            proof {
                let t = s@.skip(start as int);
                let k = i - start;
                assert forall|j: int| 0 <= j < k implies t[j] != c by {
                    assert(t[j] == s@[start + j]);
                }
                lemma_split_step(t, c, k as int);
                assert(t.take(k as int) =~= piece@);
                assert(t.skip(k + 1) =~= s@.skip(i + 1));
                assert(views(r@.push(piece)) =~= views(r@) + seq![piece@]);
            }
            r.push(piece);
            start = i + 1;
        }
        i = i + 1;
    }
    let last = copy_range(s, start, s.len());
    proof {
        let t = s@.skip(start as int);
        assert forall|j: int| 0 <= j < t.len() implies t[j] != c by {
            assert(t[j] == s@[start + j]);
        }
        lemma_split_last(t, c);
        assert(t =~= last@);
        assert(views(r@.push(last)) =~= views(r@) + seq![last@]);
    }
    r.push(last);
    r
}

/// `s.split_once(c)`, both halves copied out.
pub fn split_once_on(s: &[char], c: char) -> (r: Option<(Vec<char>, Vec<char>)>)
    ensures
        match r {
            Some((a, b)) => split_once(s@, c) == Some((a@, b@)),
            None => split_once(s@, c) is None,
        },
{
    proof {
        lemma_find_char(s@, c);
    }
    let n = s.len();
    let found = find(s, c);
    match found {
        Some(k) => {
            assert(k < n);
            let a = copy_range(s, 0, k);
            let b = copy_range(s, k + 1, s.len());
            assert(a@ =~= s@.take(k as int));
            assert(b@ =~= s@.skip(k + 1));
            Some((a, b))
        },
        None => None,
    }
}

/// `s.strip_prefix(p)`, the rest copied out.
pub fn strip_prefix_of(s: &[char], p: &[char]) -> (r: Option<Vec<char>>)
    ensures
        match r {
            Some(rest) => strip_prefix(s@, p@) == Some(rest@),
            None => strip_prefix(s@, p@) is None,
        },
{
    if p.len() > s.len() {
        return None;
    }
    let head = copy_range(s, 0, p.len());
    if !chars_eq(head.as_slice(), p) {
        assert(head@ =~= s@.take(p@.len() as int));
        return None;
    }
    assert(head@ =~= s@.take(p@.len() as int));
    let rest = copy_range(s, p.len(), s.len());
    assert(rest@ =~= s@.skip(p@.len() as int));
    Some(rest)
}

/// `s.starts_with(p)`.
pub fn has_prefix(s: &[char], p: &[char]) -> (r: bool)
    ensures
        r == starts_with(s@, p@),
{
    if p.len() > s.len() {
        return false;
    }
    let mut i: usize = 0;
    while i < p.len()
        invariant
            p@.len() <= s@.len(),
            i <= p@.len(),
            forall|j: int| 0 <= j < i ==> s@[j] == p@[j],
        decreases p.len() - i,
    {
        if s[i] != p[i] {
            assert(s@.take(p@.len() as int)[i as int] != p@[i as int]);
            return false;
        }
        i = i + 1;
    }
    assert(s@.take(p@.len() as int) =~= p@);
    true
}

/// `s.starts_with(lit)` for a literal.
pub fn has_lit_prefix(s: &[char], lit: &str) -> (r: bool)
    ensures
        r == starts_with(s@, lit@),
{
    let p = chars_of(lit);
    has_prefix(s, p.as_slice())
}


// ---------------------------------------------------------------------------
// Whitespace: trim, split_whitespace
// ---------------------------------------------------------------------------

/// `char::is_whitespace`: the Unicode `White_Space` property, which std
/// documents as the definition.
pub open spec fn is_ws(c: char) -> bool {
    let u = c as u32;
    ||| 0x09 <= u <= 0x0D
    ||| u == 0x20
    ||| u == 0x85
    ||| u == 0xA0
    ||| u == 0x1680
    ||| 0x2000 <= u <= 0x200A
    ||| u == 0x2028
    ||| u == 0x2029
    ||| u == 0x202F
    ||| u == 0x205F
    ||| u == 0x3000
}

pub fn is_whitespace(c: char) -> (r: bool)
    ensures
        r == is_ws(c),
{
    let u = c as u32;
    (0x09 <= u && u <= 0x0D) || u == 0x20 || u == 0x85 || u == 0xA0 || u == 0x1680 || (0x2000
        <= u && u <= 0x200A) || u == 0x2028 || u == 0x2029 || u == 0x202F || u == 0x205F || u
        == 0x3000
}

/// The first index at or after `i` whose character is not whitespace.
pub open spec fn ws_end(s: Seq<char>, i: int) -> int
    decreases s.len() - i,
{
    if i >= s.len() || i < 0 {
        i
    } else if is_ws(s[i]) {
        ws_end(s, i + 1)
    } else {
        i
    }
}

/// The first index at or after `i` whose character is whitespace.
pub open spec fn word_end(s: Seq<char>, i: int) -> int
    decreases s.len() - i,
{
    if i >= s.len() || i < 0 {
        i
    } else if is_ws(s[i]) {
        i
    } else {
        word_end(s, i + 1)
    }
}

/// The length of the whitespace run ending `s`.
pub open spec fn trailing_ws(s: Seq<char>) -> nat
    decreases s.len(),
{
    if s.len() == 0 {
        0
    } else if is_ws(s.last()) {
        1 + trailing_ws(s.drop_last())
    } else {
        0
    }
}

/// `str::trim_start`.
pub open spec fn trim_start(s: Seq<char>) -> Seq<char> {
    s.skip(ws_end(s, 0))
}

/// `str::trim_end`.
pub open spec fn trim_end(s: Seq<char>) -> Seq<char> {
    s.take(s.len() - trailing_ws(s))
}

/// `str::trim`.
pub open spec fn trim(s: Seq<char>) -> Seq<char> {
    trim_end(trim_start(s))
}

pub proof fn lemma_ws_end(s: Seq<char>, i: int)
    requires
        0 <= i <= s.len(),
    ensures
        i <= ws_end(s, i) <= s.len(),
        forall|j: int| i <= j < ws_end(s, i) ==> is_ws(#[trigger] s[j]),
        ws_end(s, i) < s.len() ==> !is_ws(s[ws_end(s, i)]),
    decreases s.len() - i,
{
    if i < s.len() && is_ws(s[i]) {
        lemma_ws_end(s, i + 1);
    }
}

pub proof fn lemma_word_end(s: Seq<char>, i: int)
    requires
        0 <= i <= s.len(),
    ensures
        i <= word_end(s, i) <= s.len(),
        forall|j: int| i <= j < word_end(s, i) ==> !is_ws(#[trigger] s[j]),
        word_end(s, i) < s.len() ==> is_ws(s[word_end(s, i)]),
    decreases s.len() - i,
{
    if i < s.len() && !is_ws(s[i]) {
        lemma_word_end(s, i + 1);
    }
}

pub proof fn lemma_trailing_ws(s: Seq<char>)
    ensures
        trailing_ws(s) <= s.len(),
        forall|j: int| s.len() - trailing_ws(s) <= j < s.len() ==> is_ws(#[trigger] s[j]),
        trailing_ws(s) < s.len() ==> !is_ws(s[s.len() - trailing_ws(s) - 1]),
    decreases s.len(),
{
    if s.len() > 0 && is_ws(s.last()) {
        lemma_trailing_ws(s.drop_last());
        assert forall|j: int| s.len() - trailing_ws(s) <= j < s.len() implies is_ws(
            #[trigger] s[j],
        ) by {
            if j < s.len() - 1 {
                assert(s[j] == s.drop_last()[j]);
            }
        }
        if trailing_ws(s) < s.len() {
            assert(s[s.len() - trailing_ws(s) - 1] == s.drop_last()[s.len() - trailing_ws(s) - 1]);
        }
    }
}

/// Where the trimmed text starts and ends, as indices into `s`.
pub fn trim_bounds(s: &[char]) -> (r: (usize, usize))
    ensures
        r.0 <= r.1 <= s@.len(),
        r.0 == ws_end(s@, 0),
        s@.subrange(r.0 as int, r.1 as int) == trim(s@),
{
    let mut lo: usize = 0;
    while lo < s.len() && is_whitespace(s[lo])
        invariant
            lo <= s@.len(),
            ws_end(s@, lo as int) == ws_end(s@, 0),
        decreases s.len() - lo,
    {
        lo = lo + 1;
    }
    let mut hi: usize = s.len();
    let ghost t = s@.skip(lo as int);
    proof {
        lemma_ws_end(s@, 0);
    }
    while hi > lo && is_whitespace(s[hi - 1])
        invariant
            lo <= hi <= s@.len(),
            t == s@.skip(lo as int),
            trailing_ws(t) == trailing_ws(s@.subrange(lo as int, hi as int)) + (s@.len() - hi),
        decreases hi,
    {
        proof {
            let u = s@.subrange(lo as int, hi as int);
            assert(u.drop_last() =~= s@.subrange(lo as int, hi - 1));
        }
        hi = hi - 1;
    }
    proof {
        let u = s@.subrange(lo as int, hi as int);
        assert(t.skip(0) =~= t);
        if hi > lo {
            assert(!is_ws(u.last()));
        }
        assert(trailing_ws(u) == 0);
        assert(trim_start(s@) =~= t);
        assert(trim(s@) =~= u);
    }
    (lo, hi)
}

/// `s.trim()`, copied out.
pub fn trimmed(s: &[char]) -> (r: Vec<char>)
    ensures
        r@ == trim(s@),
{
    let (lo, hi) = trim_bounds(s);
    copy_range(s, lo, hi)
}

/// `str::trim_end`, copied out.
pub fn trimmed_end(s: &[char]) -> (r: Vec<char>)
    ensures
        r@ == trim_end(s@),
{
    let mut hi: usize = s.len();
    assert(s@.take(s@.len() as int) =~= s@);
    while hi > 0 && is_whitespace(s[hi - 1])
        invariant
            hi <= s@.len(),
            trailing_ws(s@) == trailing_ws(s@.take(hi as int)) + (s@.len() - hi),
        decreases hi,
    {
        proof {
            assert(s@.take(hi as int).drop_last() =~= s@.take(hi - 1));
        }
        hi = hi - 1;
    }
    proof {
        assert(s@.take(s@.len() as int) =~= s@);
        if hi > 0 {
            assert(!is_ws(s@.take(hi as int).last()));
        }
    }
    copy_range(s, 0, hi)
}

/// `str::split_whitespace` from index `i` on.
pub open spec fn split_ws_from(s: Seq<char>, i: int) -> Seq<Seq<char>>
    decreases s.len() - i,
{
    if i < 0 || i > s.len() {
        seq![]
    } else {
        let a = ws_end(s, i);
        if a >= s.len() {
            seq![]
        } else {
            let b = word_end(s, a);
            proof {
                lemma_ws_end(s, i);
                lemma_word_end(s, a);
                lemma_word_end(s, a + 1);
            }
            if b <= i {
                seq![]
            } else {
                seq![s.subrange(a, b)] + split_ws_from(s, b)
            }
        }
    }
}

/// `str::split_whitespace`: the maximal non-whitespace runs, in order.
pub open spec fn split_ws(s: Seq<char>) -> Seq<Seq<char>> {
    split_ws_from(s, 0)
}

/// `s.split_whitespace()`, each word copied out.
pub fn split_whitespace_of(s: &[char]) -> (r: Vec<Vec<char>>)
    ensures
        views(r@) == split_ws(s@),
{
    let mut r: Vec<Vec<char>> = Vec::new();
    let mut i: usize = 0;
    assert(views(r@) =~= Seq::<Seq<char>>::empty());
    while i < s.len()
        invariant
            i <= s@.len(),
            views(r@) + split_ws_from(s@, i as int) == split_ws(s@),
        decreases s.len() - i,
    {
        let mut a = i;
        while a < s.len() && is_whitespace(s[a])
            invariant
                i <= a <= s@.len(),
                ws_end(s@, a as int) == ws_end(s@, i as int),
            decreases s.len() - a,
        {
            a = a + 1;
        }
        if a == s.len() {
            proof {
                assert(split_ws_from(s@, i as int) =~= Seq::<Seq<char>>::empty());
                assert(split_ws_from(s@, a as int) =~= Seq::<Seq<char>>::empty());
            }
            i = a;
        } else {
            let mut b = a;
            while b < s.len() && !is_whitespace(s[b])
                invariant
                    a <= b <= s@.len(),
                    word_end(s@, b as int) == word_end(s@, a as int),
                decreases s.len() - b,
            {
                b = b + 1;
            }
            proof {
                lemma_ws_end(s@, i as int);
                lemma_word_end(s@, a as int);
            }
            let w = copy_range(s, a, b);
            proof {
                assert(b > a);
                assert(split_ws_from(s@, i as int) == seq![s@.subrange(a as int, b as int)]
                    + split_ws_from(s@, b as int));
                assert(views(r@.push(w)) =~= views(r@) + seq![w@]);
                assert(views(r@.push(w)) + split_ws_from(s@, b as int) =~= views(r@)
                    + split_ws_from(s@, i as int));
            }
            r.push(w);
            i = b;
        }
    }
    proof {
        assert(split_ws_from(s@, i as int) =~= Seq::<Seq<char>>::empty());
        assert(views(r@) + Seq::<Seq<char>>::empty() =~= views(r@));
    }
    r
}


// ---------------------------------------------------------------------------
// lines, splitn, rsplit
// ---------------------------------------------------------------------------

/// A line with one trailing carriage return removed, as `str::lines` does.
pub open spec fn strip_cr(l: Seq<char>) -> Seq<char> {
    if l.len() > 0 && l.last() == '\r' {
        l.drop_last()
    } else {
        l
    }
}

/// `str::lines`: split at each `\n`, dropping a `\r` just before it; a final
/// line ending is optional, and an empty text has no lines.
pub open spec fn lines(s: Seq<char>) -> Seq<Seq<char>>
    decreases s.len(),
{
    if s.len() == 0 {
        seq![]
    } else {
        match find_char(s, '\n') {
            Some(k) => if 0 <= k < s.len() {
                seq![strip_cr(s.take(k))] + lines(s.skip(k + 1))
            } else {
                seq![s]
            },
            None => seq![s],
        }
    }
}

/// `s.lines()`, each line copied out.
pub fn lines_of(s: &[char]) -> (r: Vec<Vec<char>>)
    ensures
        views(r@) == lines(s@),
{
    let mut r: Vec<Vec<char>> = Vec::new();
    let mut start: usize = 0;
    let mut i: usize = 0;
    assert(s@.skip(0) =~= s@);
    assert(views(r@) =~= Seq::<Seq<char>>::empty());
    while i < s.len()
        invariant
            start <= i <= s@.len(),
            lacks(s@, '\n', start as int, i as int),
            views(r@) + lines(s@.skip(start as int)) == lines(s@),
        decreases s.len() - i,
    {
        if s[i] == '\n' {
            let hi = if i > start && s[i - 1] == '\r' {
                i - 1
            } else {
                i
            };
            let piece = copy_range(s, start, hi);
            proof {
                let t = s@.skip(start as int);
                let k = i - start;
                assert forall|j: int| 0 <= j < k implies t[j] != '\n' by {
                    assert(t[j] == s@[start + j]);
                }
                lemma_find_char_is(t, '\n', k as int);
                assert(strip_cr(t.take(k as int)) =~= piece@);
                assert(t.skip(k + 1) =~= s@.skip(i + 1));
                assert(views(r@.push(piece)) =~= views(r@) + seq![piece@]);
            }
            r.push(piece);
            start = i + 1;
        }
        i = i + 1;
    }
    if start < s.len() {
        let last = copy_range(s, start, s.len());
        proof {
            let t = s@.skip(start as int);
            assert forall|j: int| 0 <= j < t.len() implies t[j] != '\n' by {
                assert(t[j] == s@[start + j]);
            }
            lemma_find_char_none(t, '\n');
            assert(t =~= last@);
            assert(views(r@.push(last)) =~= views(r@) + seq![last@]);
        }
        r.push(last);
    } else {
        proof {
            assert(s@.skip(start as int) =~= Seq::<char>::empty());
            assert(views(r@) + Seq::<Seq<char>>::empty() =~= views(r@));
        }
    }
    r
}

/// `str::splitn(n, c).last()`: what is left after the first `n - 1`
/// occurrences of `c` (fewer if there are not that many) — the whole text when
/// `n` is 1.
pub open spec fn splitn_last(s: Seq<char>, c: char, n: nat) -> Seq<char>
    decreases n,
{
    if n <= 1 {
        s
    } else {
        match find_char(s, c) {
            Some(k) => if 0 <= k < s.len() {
                splitn_last(s.skip(k + 1), c, (n - 1) as nat)
            } else {
                s
            },
            None => s,
        }
    }
}

/// `s.splitn(n, c).last()` for `n >= 1`, copied out.
pub fn splitn_last_of(s: &[char], c: char, n: usize) -> (r: Vec<char>)
    requires
        n >= 1,
    ensures
        r@ == splitn_last(s@, c, n as nat),
{
    let mut start: usize = 0;
    let mut left: usize = n;
    let mut i: usize = 0;
    assert(s@.skip(0) =~= s@);
    while i < s.len() && left > 1
        invariant
            start <= i <= s@.len(),
            left >= 1,
            lacks(s@, c, start as int, i as int),
            splitn_last(s@.skip(start as int), c, left as nat) == splitn_last(s@, c, n as nat),
        decreases s.len() - i,
    {
        if s[i] == c {
            proof {
                let t = s@.skip(start as int);
                let k = i - start;
                assert forall|j: int| 0 <= j < k implies t[j] != c by {
                    assert(t[j] == s@[start + j]);
                }
                lemma_find_char_is(t, c, k as int);
                assert(t.skip(k + 1) =~= s@.skip(i + 1));
            }
            start = i + 1;
            left = left - 1;
        }
        i = i + 1;
    }
    proof {
        let t = s@.skip(start as int);
        if left > 1 {
            assert forall|j: int| 0 <= j < t.len() implies t[j] != c by {
                assert(t[j] == s@[start + j]);
            }
            lemma_find_char_none(t, c);
        }
        assert(t =~= s@.subrange(start as int, s@.len() as int));
    }
    copy_range(s, start, s.len())
}

/// `str::rsplit(c).next()`: the text after the last `c`, or all of it.
pub open spec fn last_piece(s: Seq<char>, c: char) -> Seq<char> {
    split(s, c).last()
}

pub proof fn lemma_last_piece(s: Seq<char>, c: char, k: int)
    requires
        0 <= k <= s.len(),
        k == 0 || s[k - 1] == c,
        lacks(s, c, k, s.len() as int),
    ensures
        last_piece(s, c) == s.skip(k),
    decreases s.len(),
{
    lemma_find_char(s, c);
    lemma_split_len(s, c);
    match find_char(s, c) {
        Some(f) => {
            if k == 0 {
                assert(false);
            }
            assert(f < k);
            let t = s.skip(f + 1);
            assert forall|j: int| k - f - 1 <= j < t.len() implies t[j] != c by {
                assert(t[j] == s[f + 1 + j]);
            }
            if k - f - 1 > 0 {
                assert(t[k - f - 2] == s[k - 1]);
            }
            lemma_last_piece(t, c, k - f - 1);
            lemma_split_len(t, c);
            assert(t.skip(k - f - 1) =~= s.skip(k));
        },
        None => {
            if k > 0 {
                assert(s[k - 1] == c);
            }
            assert(s.skip(0) =~= s);
        },
    }
}

/// `s.rsplit(c).next()`, copied out.
pub fn last_piece_of(s: &[char], c: char) -> (r: Vec<char>)
    ensures
        r@ == last_piece(s@, c),
{
    let mut k: usize = s.len();
    while k > 0 && s[k - 1] != c
        invariant
            k <= s@.len(),
            lacks(s@, c, k as int, s@.len() as int),
        decreases k,
    {
        k = k - 1;
    }
    proof {
        lemma_last_piece(s@, c, k as int);
    }
    copy_range(s, k, s.len())
}

// ---------------------------------------------------------------------------
// Substrings
// ---------------------------------------------------------------------------

pub open spec fn occurs_at(s: Seq<char>, p: Seq<char>, i: int) -> bool {
    0 <= i && i + p.len() <= s.len() && s.subrange(i, i + p.len()) == p
}

/// `str::contains(p)`.
pub open spec fn contains(s: Seq<char>, p: Seq<char>) -> bool {
    exists|i: int| occurs_at(s, p, i)
}

pub fn contains_of(s: &[char], p: &[char]) -> (r: bool)
    ensures
        r == contains(s@, p@),
{
    if p.len() > s.len() {
        return false;
    }
    let n = s.len();
    let mut i: usize = 0;
    while i <= n - p.len()
        invariant
            n == s@.len(),
            p@.len() <= s@.len(),
            i <= s@.len() - p@.len() + 1,
            forall|j: int| 0 <= j < i ==> !occurs_at(s@, p@, j),
        decreases s.len() - p.len() + 1 - i,
    {
        let mut m: usize = 0;
        let mut same = true;
        while m < p.len()
            invariant
                n == s@.len(),
                i + p@.len() <= s@.len(),
                m <= p@.len(),
                same == forall|j: int| 0 <= j < m ==> s@[i + j] == p@[j],
            decreases p.len() - m,
        {
            if s[i + m] != p[m] {
                same = false;
            }
            m = m + 1;
        }
        if same {
            assert(s@.subrange(i as int, i + p@.len()) =~= p@);
            assert(occurs_at(s@, p@, i as int));
            return true;
        }
        proof {
            if occurs_at(s@, p@, i as int) {
                let k = choose|j: int| 0 <= j < p@.len() && s@[i + j] != p@[j];
                assert(s@.subrange(i as int, i + p@.len())[k] == s@[i + k]);
            }
        }
        i = i + 1;
    }
    false
}

// ---------------------------------------------------------------------------
// Decimal numbers
// ---------------------------------------------------------------------------

pub open spec fn is_digit(c: char) -> bool {
    '0' <= c <= '9'
}

pub open spec fn all_digits(d: Seq<char>) -> bool {
    forall|i: int| 0 <= i < d.len() ==> is_digit(#[trigger] d[i])
}

pub open spec fn digit_value(c: char) -> nat {
    (c as u32 - '0' as u32) as nat
}

/// The number a run of decimal digits spells, most significant first.
pub open spec fn digits_value(d: Seq<char>) -> nat
    decreases d.len(),
{
    if d.len() == 0 {
        0
    } else {
        digits_value(d.drop_last()) * 10 + digit_value(d.last())
    }
}

/// The digits after an optional leading `+`, as integer `FromStr` reads them.
pub open spec fn unsigned_digits(s: Seq<char>) -> Seq<char> {
    if s.len() > 0 && s[0] == '+' {
        s.skip(1)
    } else {
        s
    }
}

/// `str::parse::<u32>()`.
pub open spec fn parse_u32(s: Seq<char>) -> Option<u32> {
    let d = unsigned_digits(s);
    if d.len() > 0 && all_digits(d) && digits_value(d) <= u32::MAX {
        Some(digits_value(d) as u32)
    } else {
        None
    }
}

/// `str::parse::<i64>()`.
pub open spec fn parse_i64(s: Seq<char>) -> Option<i64> {
    if s.len() > 0 && s[0] == '-' {
        let d = s.skip(1);
        if d.len() > 0 && all_digits(d) && digits_value(d) <= 0x8000_0000_0000_0000 {
            Some((-digits_value(d)) as i64)
        } else {
            None
        }
    } else {
        let d = unsigned_digits(s);
        if d.len() > 0 && all_digits(d) && digits_value(d) <= i64::MAX {
            Some(digits_value(d) as i64)
        } else {
            None
        }
    }
}

pub proof fn lemma_digits_value_monotone(d: Seq<char>, k: int)
    requires
        0 <= k <= d.len(),
        all_digits(d),
    ensures
        digits_value(d.take(k)) <= digits_value(d),
    decreases d.len() - k,
{
    if k < d.len() {
        lemma_digits_value_monotone(d, k + 1);
        assert(d.take(k + 1).drop_last() =~= d.take(k));
        assert(is_digit(d[k]));
    } else {
        assert(d.take(k) =~= d);
    }
}

/// The value of `s[lo..]` as decimal digits, if every character is a digit
/// and the value is at most `cap`.
fn digits_upto(s: &[char], lo: usize, cap: u64) -> (r: Option<u64>)
    requires
        lo <= s@.len(),
        9 <= cap <= u64::MAX / 10 * 10 - 1,
    ensures
        ({
            let d = s@.skip(lo as int);
            match r {
                Some(v) => all_digits(d) && digits_value(d) <= cap && v == digits_value(d),
                None => !(all_digits(d) && digits_value(d) <= cap),
            }
        }),
{
    let ghost d = s@.skip(lo as int);
    let mut v: u64 = 0;
    let mut i: usize = lo;
    assert(d.take(0) =~= Seq::<char>::empty());
    while i < s.len()
        invariant
            lo <= i <= s@.len(),
            d == s@.skip(lo as int),
            9 <= cap <= u64::MAX / 10 * 10 - 1,
            all_digits(d.take(i - lo)),
            v == digits_value(d.take(i - lo)),
            v <= cap,
        decreases s.len() - i,
    {
        let c = s[i];
        if !('0' <= c && c <= '9') {
            proof {
                assert(d[i - lo] == c);
            }
            return None;
        }
        let dv = (c as u32 - '0' as u32) as u64;
        proof {
            assert(d.take(i - lo + 1).drop_last() =~= d.take(i - lo));
            assert(d.take(i - lo + 1).last() == c);
            assert(all_digits(d.take(i - lo + 1)));
        }
        if v > (cap - dv) / 10 {
            proof {
                assert(v * 10 + dv > cap) by (nonlinear_arith)
                    requires
                        v > (cap - dv) / 10,
                        dv <= 9,
                        dv <= cap,
                ;
                if all_digits(d) {
                    lemma_digits_value_monotone(d, i - lo + 1);
                }
            }
            return None;
        }
        proof {
            assert(v * 10 + dv <= cap) by (nonlinear_arith)
                requires
                    v <= (cap - dv) / 10,
                    dv <= cap,
            ;
        }
        v = v * 10 + dv;
        i = i + 1;
    }
    assert(d.take(i - lo) =~= d);
    Some(v)
}

/// `s.parse::<u32>()`.
pub fn parse_u32_of(s: &[char]) -> (r: Option<u32>)
    ensures
        r == parse_u32(s@),
{
    let lo: usize = if s.len() > 0 && s[0] == '+' {
        1
    } else {
        0
    };
    assert(unsigned_digits(s@) =~= s@.skip(lo as int));
    if lo >= s.len() {
        return None;
    }
    match digits_upto(s, lo, 0xFFFF_FFFF) {
        Some(v) => Some(v as u32),
        None => None,
    }
}

/// `s.parse::<i64>()`.
pub fn parse_i64_of(s: &[char]) -> (r: Option<i64>)
    ensures
        r == parse_i64(s@),
{
    if s.len() > 0 && s[0] == '-' {
        if s.len() == 1 {
            return None;
        }
        match digits_upto(s, 1, 0x8000_0000_0000_0000) {
            Some(v) => {
                if v == 0x8000_0000_0000_0000 {
                    Some(i64::MIN)
                } else {
                    Some(-(v as i64))
                }
            },
            None => None,
        }
    } else {
        let lo: usize = if s.len() > 0 && s[0] == '+' {
            1
        } else {
            0
        };
        assert(unsigned_digits(s@) =~= s@.skip(lo as int));
        if lo >= s.len() {
            return None;
        }
        match digits_upto(s, lo, 0x7FFF_FFFF_FFFF_FFFF) {
            Some(v) => Some(v as i64),
            None => None,
        }
    }
}

pub open spec fn digit_char(d: nat) -> char {
    (('0' as u32) + d) as char
}

/// `n` in decimal, as `Display` for integers writes it.
pub open spec fn decimal(n: nat) -> Seq<char>
    decreases n,
{
    if n < 10 {
        seq![digit_char(n)]
    } else {
        decimal(n / 10) + seq![digit_char(n % 10)]
    }
}

fn digit_of(d: u64) -> (c: char)
    requires
        d < 10,
    ensures
        c == digit_char(d as nat),
{
    let b: u8 = (48 + d) as u8;
    let c = b as char;
    assert(c as u32 == 48 + d);
    c
}

/// The decimal digits of `n`.
pub fn decimal_of(n: u64) -> (v: Vec<char>)
    ensures
        v@ == decimal(n as nat),
    decreases n,
{
    if n < 10 {
        let mut v = Vec::new();
        v.push(digit_of(n));
        v
    } else {
        let mut v = decimal_of(n / 10);
        v.push(digit_of(n % 10));
        v
    }
}

// ---------------------------------------------------------------------------
// Lower-casing
// ---------------------------------------------------------------------------

/// What `str::to_lowercase` returns for a given text.
pub uninterp spec fn lowercase(s: Seq<char>) -> Seq<char>;

/// `str::to_lowercase`. Its result is a function of the text alone — std's
/// Unicode case tables — and is named rather than spelled out here.
#[verifier::external_body]
pub(crate) fn to_lower(s: &str) -> (r: String)
    ensures
        r@ == lowercase(s@),
{
    s.to_lowercase()
}

// ---------------------------------------------------------------------------
// UTF-8
// ---------------------------------------------------------------------------

/// `char::len_utf8`.
pub open spec fn width(c: char) -> nat {
    encode_scalar(c as u32).len()
}

/// The UTF-8 encoding of one character.
pub fn encode_char(c: char) -> (v: Vec<u8>)
    ensures
        v@ == encode_scalar(c as u32),
{
    let u = c as u32;
    if u <= 0x7F {
        let b0: u8 = (u & 0x7F) as u8;
        vec![b0]
    } else if u <= 0x7FF {
        let b0: u8 = 0xC0 | ((u >> 6) & 0x1F) as u8;
        let b1: u8 = 0x80 | (u & 0x3F) as u8;
        vec![b0, b1]
    } else if u <= 0xFFFF {
        proof {
            char_is_scalar(c);
        }
        let b0: u8 = 0xE0 | ((u >> 12) & 0x0F) as u8;
        let b1: u8 = 0x80 | ((u >> 6) & 0x3F) as u8;
        let b2: u8 = 0x80 | (u & 0x3F) as u8;
        vec![b0, b1, b2]
    } else {
        proof {
            char_is_scalar(c);
        }
        let b0: u8 = 0xF0 | ((u >> 18) & 0x7) as u8;
        let b1: u8 = 0x80 | ((u >> 12) & 0x3F) as u8;
        let b2: u8 = 0x80 | ((u >> 6) & 0x3F) as u8;
        let b3: u8 = 0x80 | (u & 0x3F) as u8;
        vec![b0, b1, b2, b3]
    }
}

pub proof fn lemma_encode_utf8_add(a: Seq<char>, b: Seq<char>)
    ensures
        encode_utf8(a + b) == encode_utf8(a) + encode_utf8(b),
    decreases a.len(),
{
    if a.len() == 0 {
        assert(a + b =~= b);
    } else {
        assert((a + b).drop_first() =~= a.drop_first() + b);
        lemma_encode_utf8_add(a.drop_first(), b);
        assert((a + b)[0] == a[0]);
    }
}

pub proof fn lemma_encode_one(c: char)
    ensures
        encode_utf8(seq![c]) == encode_scalar(c as u32),
{
    reveal_with_fuel(encode_utf8, 2);
    assert(seq![c].drop_first() =~= Seq::<char>::empty());
    assert(encode_scalar(c as u32) + Seq::<u8>::empty() =~= encode_scalar(c as u32));
}

pub proof fn lemma_encode_utf8_len(a: Seq<char>)
    ensures
        encode_utf8(a).len() >= a.len(),
    decreases a.len(),
{
    if a.len() > 0 {
        lemma_encode_utf8_len(a.drop_first());
    }
}

/// The UTF-8 encoding of `s`, as `str::as_bytes` has it.
pub fn encode_chars(s: &[char]) -> (v: Vec<u8>)
    ensures
        v@ == encode_utf8(s@),
{
    let mut v: Vec<u8> = Vec::new();
    let mut i: usize = 0;
    assert(s@.take(0) =~= Seq::<char>::empty());
    while i < s.len()
        invariant
            i <= s@.len(),
            v@ == encode_utf8(s@.take(i as int)),
        decreases s.len() - i,
    {
        let e = encode_char(s[i]);
        proof {
            assert(s@.take(i + 1) =~= s@.take(i as int) + seq![s@[i as int]]);
            lemma_encode_utf8_add(s@.take(i as int), seq![s@[i as int]]);
            lemma_encode_one(s@[i as int]);
        }
        let mut j: usize = 0;
        let ghost base = v@;
        while j < e.len()
            invariant
                j <= e@.len(),
                v@ == base + e@.take(j as int),
            decreases e.len() - j,
        {
            v.push(e[j]);
            j = j + 1;
            assert(e@.take(j as int) =~= e@.take(j - 1) + seq![e@[j - 1]]);
        }
        assert(e@.take(e@.len() as int) =~= e@);
        i = i + 1;
    }
    assert(s@.take(s@.len() as int) =~= s@);
    v
}

/// `str::get(..n)`: the characters whose encodings exactly fill the first `n`
/// bytes, if `n` falls on a character boundary.
pub open spec fn byte_prefix(s: Seq<char>, n: int) -> Option<Seq<char>>
    decreases s.len(),
{
    if n == 0 {
        Some(seq![])
    } else if n < 0 || s.len() == 0 {
        None
    } else if width(s[0]) > n {
        None
    } else {
        match byte_prefix(s.drop_first(), n - width(s[0])) {
            Some(p) => Some(seq![s[0]] + p),
            None => None,
        }
    }
}

pub proof fn lemma_width(c: char)
    ensures
        1 <= width(c) <= 4,
{
    char_is_scalar(c);
}

pub proof fn lemma_byte_prefix_step(s: Seq<char>, k: int, n: int, acc: int)
    requires
        0 <= k <= s.len(),
        acc == encode_utf8(s.take(k)).len(),
        acc <= n,
    ensures
        byte_prefix(s, n) == (match byte_prefix(s.skip(k), n - acc) {
            Some(p) => Some(s.take(k) + p),
            None => None,
        }),
    decreases k,
{
    if k == 0 {
        assert(s.skip(0) =~= s);
        match byte_prefix(s, n) {
            Some(p) => {
                assert(s.take(0) + p =~= p);
            },
            None => {},
        }
    } else {
        let t = s.drop_first();
        assert(s.take(k) =~= seq![s[0]] + t.take(k - 1));
        lemma_encode_utf8_add(seq![s[0]], t.take(k - 1));
        lemma_encode_one(s[0]);
        lemma_width(s[0]);
        assert(encode_utf8(seq![s[0]]).len() == width(s[0]));
        lemma_byte_prefix_step(t, k - 1, n - width(s[0]), acc - width(s[0]));
        assert(t.skip(k - 1) =~= s.skip(k));
        if n == 0 {
            lemma_encode_utf8_len(s.take(k));
        }
        match byte_prefix(s.skip(k), n - acc) {
            Some(p) => {
                assert(seq![s[0]] + (t.take(k - 1) + p) =~= s.take(k) + p);
            },
            None => {},
        }
    }
}

/// `s.get(..n)`, copied out.
pub fn byte_prefix_of(s: &[char], n: usize) -> (r: Option<Vec<char>>)
    ensures
        match r {
            Some(p) => byte_prefix(s@, n as int) == Some(p@),
            None => byte_prefix(s@, n as int) is None,
        },
{
    let mut k: usize = 0;
    let mut acc: usize = 0;
    assert(s@.take(0) =~= Seq::<char>::empty());
    while k < s.len() && acc < n
        invariant
            k <= s@.len(),
            acc == encode_utf8(s@.take(k as int)).len(),
            acc <= n,
        decreases s.len() - k,
    {
        let w = encode_char(s[k]).len();
        proof {
            assert(s@.take(k + 1) =~= s@.take(k as int) + seq![s@[k as int]]);
            lemma_encode_utf8_add(s@.take(k as int), seq![s@[k as int]]);
            lemma_encode_one(s@[k as int]);
            lemma_width(s@[k as int]);
        }
        if w > n - acc {
            proof {
                lemma_byte_prefix_step(s@, k as int, n as int, acc as int);
            }
            return None;
        }
        acc = acc + w;
        k = k + 1;
    }
    proof {
        lemma_byte_prefix_step(s@, k as int, n as int, acc as int);
    }
    if acc == n {
        let p = copy_range(s, 0, k);
        assert(s@.take(k as int) + Seq::<char>::empty() =~= p@);
        Some(p)
    } else {
        assert(s@.skip(k as int).len() == 0);
        None
    }
}


// ---------------------------------------------------------------------------
// Error messages
// ---------------------------------------------------------------------------

/// The whole trimmed stderr, or `fallback` when there is nothing in it.
pub open spec fn whole_message(stderr: Seq<char>, fallback: Seq<char>) -> Seq<char> {
    if trim(stderr).len() == 0 {
        fallback
    } else {
        trim(stderr)
    }
}

pub fn whole_message_of(stderr: &str, fallback: &str) -> (r: String)
    ensures
        r@ == whole_message(stderr@, fallback@),
{
    let s = chars_of(stderr);
    let t = trimmed(s.as_slice());
    if t.len() == 0 {
        fallback.to_owned()
    } else {
        string_from_chars(t.as_slice())
    }
}

/// The first line that is not blank, trimmed — or `fallback`.
pub open spec fn first_line(stderr: Seq<char>, fallback: Seq<char>) -> Seq<char> {
    let ls = lines(stderr);
    if exists|i: int| 0 <= i < ls.len() && trim(#[trigger] ls[i]).len() > 0 {
        let i = choose|i: int|
            0 <= i < ls.len() && trim(#[trigger] ls[i]).len() > 0 && forall|j: int|
                0 <= j < i ==> trim(#[trigger] ls[j]).len() == 0;
        trim(ls[i])
    } else {
        trim(fallback)
    }
}

pub fn first_line_of(stderr: &str, fallback: &str) -> (r: String)
    ensures
        r@ == first_line(stderr@, fallback@),
{
    let s = chars_of(stderr);
    let ls = lines_of(s.as_slice());
    let ghost lv = views(ls@);
    let mut i: usize = 0;
    while i < ls.len()
        invariant
            i <= ls@.len(),
            lv == views(ls@),
            lv == lines(stderr@),
            forall|j: int| 0 <= j < i ==> trim(#[trigger] lv[j]).len() == 0,
        decreases ls.len() - i,
    {
        let t = trimmed(ls[i].as_slice());
        if t.len() > 0 {
            proof {
                assert(lv[i as int] == ls@[i as int]@);
                assert(trim(lv[i as int]).len() > 0);
                let k = choose|k: int|
                    0 <= k < lv.len() && trim(#[trigger] lv[k]).len() > 0 && forall|j: int|
                        0 <= j < k ==> trim(#[trigger] lv[j]).len() == 0;
                if k < i {
                } else if k > i {
                    assert(trim(lv[i as int]).len() == 0);
                }
                assert(k == i);
            }
            return string_from_chars(t.as_slice());
        }
        proof {
            assert(lv[i as int] == ls@[i as int]@);
        }
        i = i + 1;
    }
    let f = chars_of(fallback);
    let t = trimmed(f.as_slice());
    string_from_chars(t.as_slice())
}

/// In `a`, then `c`, then `b`, with no `c` in `a`: the first `c` is the one
/// after `a`.
pub proof fn lemma_find_after(a: Seq<char>, c: char, b: Seq<char>)
    requires
        lacks(a, c, 0, a.len() as int),
    ensures
        find_char(a + seq![c] + b, c) == Some(a.len() as int),
        (a + seq![c] + b).take(a.len() as int) == a,
        (a + seq![c] + b).skip(a.len() as int + 1) == b,
        split_once(a + seq![c] + b, c) == Some((a, b)),
{
    let s = a + seq![c] + b;
    assert(lacks(s, c, 0, a.len() as int)) by {
        assert forall|j: int| 0 <= j < a.len() implies s[j] != c by {
            assert(s[j] == a[j]);
        }
    }
    assert(s[a.len() as int] == c);
    lemma_find_char_is(s, c, a.len() as int);
    assert(s.take(a.len() as int) =~= a);
    assert(s.skip(a.len() as int + 1) =~= b);
}

/// `splitn` on `a`, then `c`, then `b`, with no `c` in `a`: `a` is the first
/// piece and the rest is `b` split one piece fewer.
pub proof fn lemma_splitn_after(a: Seq<char>, c: char, b: Seq<char>, n: nat)
    requires
        lacks(a, c, 0, a.len() as int),
        n >= 2,
    ensures
        splitn(a + seq![c] + b, c, n) == seq![a] + splitn(b, c, (n - 1) as nat),
{
    lemma_find_after(a, c, b);
}

/// `ws_end` pinned: a whitespace run from `i` up to `e`, and no whitespace at `e`.
pub proof fn lemma_ws_end_is(s: Seq<char>, i: int, e: int)
    requires
        0 <= i <= e <= s.len(),
        forall|k: int| i <= k < e ==> is_ws(#[trigger] s[k]),
        e < s.len() ==> !is_ws(s[e]),
    ensures
        ws_end(s, i) == e,
{
    lemma_ws_end(s, i);
    let w = ws_end(s, i);
    if w < e {
        assert(is_ws(s[w]));
    }
    if w > e {
        assert(is_ws(s[e]));
    }
}

/// `word_end` pinned: no whitespace from `i` up to `e`, and whitespace at `e`.
pub proof fn lemma_word_end_is(s: Seq<char>, i: int, e: int)
    requires
        0 <= i <= e <= s.len(),
        forall|k: int| i <= k < e ==> !is_ws(#[trigger] s[k]),
        e < s.len() ==> is_ws(s[e]),
    ensures
        word_end(s, i) == e,
{
    lemma_word_end(s, i);
    let w = word_end(s, i);
    if w < e {
        assert(!is_ws(s[w]));
    }
    if w > e {
        assert(!is_ws(s[e]));
    }
}

} // verus!
