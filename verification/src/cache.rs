//! The per-root status cache: the key a root's files are stored under, and
//! which decoded cache is still worth seeding a root from. Reading, writing
//! and decoding the file are the caller's.
use vstd::prelude::*;
use vstd::utf8::*;

use crate::ids::IdMap;
use crate::status::RepoStatus;
use crate::text::{chars_of, encode_chars, lowercase, push_str, push_all, string_from_chars, to_lower};

verus! {

/// Bumped whenever a field the cache depends on changes meaning; a file with
/// any other version is thrown away.
pub const CACHE_VERSION: u32 = 2;

/// FNV-1a's 64-bit offset basis.
pub const FNV_OFFSET: u64 = 0xcbf2_9ce4_8422_2325;

/// FNV-1a's 64-bit prime.
pub const FNV_PRIME: u64 = 0x0000_0100_0000_01b3;

/// 64-bit FNV-1a over `bytes`: for each byte, xor it in, then multiply by the
/// prime, wrapping.
pub open spec fn fnv1a(bytes: Seq<u8>) -> u64
    decreases bytes.len(),
{
    if bytes.len() == 0 {
        FNV_OFFSET
    } else {
        (fnv1a(bytes.drop_last()) ^ (bytes.last() as u64)).wrapping_mul(FNV_PRIME)
    }
}

/// The lower-case hex digit for `d` (taken modulo 16).
pub open spec fn hex_digit(d: u64) -> char {
    seq!['0', '1', '2', '3', '4', '5', '6', '7', '8', '9', 'a', 'b', 'c', 'd', 'e', 'f'][(d % 16) as int]
}

/// The last `n` hex digits of `h`, most significant first, zero-padded.
pub open spec fn hex(h: u64, n: nat) -> Seq<char>
    decreases n,
{
    if n == 0 {
        seq![]
    } else {
        hex(h / 16, (n - 1) as nat).push(hex_digit(h % 16))
    }
}

/// `format!("{h:016x}")`: all sixteen hex digits of a `u64`.
pub open spec fn hex16(h: u64) -> Seq<char> {
    hex(h, 16)
}

fn hex_digit_of(d: u64) -> (c: char)
    requires
        d < 16,
    ensures
        c == hex_digit(d),
{
    match d {
        0 => '0',
        1 => '1',
        2 => '2',
        3 => '3',
        4 => '4',
        5 => '5',
        6 => '6',
        7 => '7',
        8 => '8',
        9 => '9',
        10 => 'a',
        11 => 'b',
        12 => 'c',
        13 => 'd',
        14 => 'e',
        _ => 'f',
    }
}

fn hex_of(h: u64, n: usize) -> (v: Vec<char>)
    ensures
        v@ == hex(h, n as nat),
    decreases n,
{
    if n == 0 {
        Vec::new()
    } else {
        let mut v = hex_of(h / 16, n - 1);
        v.push(hex_digit_of(h % 16));
        v
    }
}

/// Sixteen lower-case hex digits of `h`.
pub fn hex16_of(h: u64) -> (s: String)
    ensures
        s@ == hex16(h),
{
    let v = hex_of(h, 16);
    string_from_chars(v.as_slice())
}

/// The key for an already lower-cased root path: FNV-1a over its UTF-8
/// bytes, in sixteen hex digits.
pub open spec fn key_of(lower: Seq<char>) -> Seq<char> {
    hex16(fnv1a(encode_utf8(lower)))
}

pub fn hash_key(lower: &str) -> (k: String)
    ensures
        k@ == key_of(lower@),
{
    let chars = chars_of(lower);
    let bytes = encode_chars(chars.as_slice());
    let mut h: u64 = FNV_OFFSET;
    let mut i: usize = 0;
    while i < bytes.len()
        invariant
            i <= bytes@.len(),
            h == fnv1a(bytes@.take(i as int)),
        decreases bytes.len() - i,
    {
        proof {
            assert(bytes@.take(i + 1).drop_last() =~= bytes@.take(i as int));
            assert(bytes@.take(i + 1).last() == bytes@[i as int]);
        }
        h = (h ^ (bytes[i] as u64)).wrapping_mul(FNV_PRIME);
        i = i + 1;
    }
    assert(bytes@.take(bytes@.len() as int) =~= bytes@);
    hex16_of(h)
}

/// The key a root's per-root files are stored under: its path lower-cased
/// (the same folder reached with different casing is one folder on
/// Windows), hashed with FNV-1a — a hash fixed here rather than left to the
/// toolchain, so an upgrade never moves a user's files.
pub fn hash_root(root: &str) -> (k: String)
    ensures
        k@ == key_of(lowercase(root@)),
{
    let lower = to_lower(root);
    hash_key(lower.as_str())
}

/// What std's default hasher gives for a text: a fresh `DefaultHasher`, the
/// text fed through `<str as Hash>::hash`, then `finish()`.
pub uninterp spec fn default_hash_of(key: Seq<char>) -> u64;

/// `DefaultHasher::new()`, fed the text through `<str as Hash>::hash`, then
/// `finish()`. std documents that every `DefaultHasher::new()` in a program
/// starts in the same state (it is not seeded per process), so within one
/// build the value depends on the text alone and is named; std leaves the
/// algorithm itself unspecified across releases, so nothing more is claimed.
#[verifier::external_body]
fn default_hash(key: &str) -> (h: u64)
    ensures
        h == default_hash_of(key@),
{
    let mut hasher = std::collections::hash_map::DefaultHasher::new();
    std::hash::Hash::hash(key, &mut hasher);
    std::hash::Hasher::finish(&hasher)
}

/// The key earlier builds stored per-root files under: std's default hasher
/// over the same lower-cased path, in sixteen hex digits. Kept only so those
/// files can be found once and moved to the current key.
pub fn legacy_hash_root(root: &str) -> (k: String)
    ensures
        k@ == hex16(default_hash_of(lowercase(root@))),
{
    let lower = to_lower(root);
    let h = default_hash(lower.as_str());
    hex16_of(h)
}

/// The file name of a root's cache: its key and `.json`.
pub fn file_name(root: &str) -> (n: String)
    ensures
        n@ == key_of(lowercase(root@)) + ".json"@,
{
    let key = hash_root(root);
    let mut v = chars_of(key.as_str());
    push_str(&mut v, ".json");
    string_from_chars(v.as_slice())
}

/// One root's cached state: the last status of each repo, and when each was
/// last fetched (Unix seconds), both keyed by repo id.
pub struct RootCache {
    pub version: u32,
    pub statuses: IdMap<RepoStatus>,
    pub last_fetch_at: IdMap<i64>,
}

impl Default for RootCache {
    fn default() -> (c: Self)
        ensures
            c.version == 0,
            c.statuses@ == Map::<Seq<char>, RepoStatus>::empty(),
            c.last_fetch_at@ == Map::<Seq<char>, i64>::empty(),
    {
        RootCache { version: 0, statuses: IdMap::new(), last_fetch_at: IdMap::new() }
    }
}

/// A decoded cache file is used only when it carries the current version;
/// any other — or none that decoded at all — means the file is deleted and
/// the root starts cold.
pub fn current_cache(decoded: Option<RootCache>) -> (r: Option<RootCache>)
    ensures
        r == match decoded {
            Some(c) => if c.version == CACHE_VERSION {
                Some(c)
            } else {
                None
            },
            None => None,
        },
{
    match decoded {
        Some(c) => if c.version == CACHE_VERSION {
            Some(c)
        } else {
            None
        },
        None => None,
    }
}

} // verus!
