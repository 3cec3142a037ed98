//! Per-root settings: the pins and the last selection, stored in a file of
//! their own under the same key as the root's cache. Reading and writing the
//! file are the caller's.
use vstd::prelude::*;

use crate::cache::{default_hash_of, hash_root, hex16, key_of, legacy_hash_root};
use crate::ids::IdSet;
use crate::text::{chars_of, lowercase, push_str, string_from_chars};

verus! {

pub const ROOTS_VERSION: u32 = 1;

/// The folder, under the config folder, that holds one file per root.
pub const DIR_NAME: &'static str = "roots";

/// One root's settings: the user's pins, which no sweep can regenerate, and
/// the repo that was selected when the root was last open.
pub struct RootSettings {
    pub version: u32,
    pub pins: IdSet,
    pub last_selected: Option<String>,
}

impl Default for RootSettings {
    fn default() -> (s: Self)
        ensures
            s.version == ROOTS_VERSION,
            s.pins@ == Set::<Seq<char>>::empty(),
            s.last_selected is None,
    {
        RootSettings { version: ROOTS_VERSION, pins: IdSet::new(), last_selected: None }
    }
}

/// The file name a root's settings are stored under: the root's key and
/// `.json`.
pub fn file_name(root: &str) -> (n: String)
    ensures
        n@ == key_of(lowercase(root@)) + ".json"@,
{
    let key = hash_root(root);
    let mut v = chars_of(key.as_str());
    push_str(&mut v, ".json");
    string_from_chars(v.as_slice())
}

/// The file name earlier builds stored a root's settings under, found once
/// and moved to the current name so that no pin is lost across the change of
/// key.
pub fn legacy_file_name(root: &str) -> (n: String)
    ensures
        n@ == hex16(default_hash_of(lowercase(root@))) + ".json"@,
{
    let key = legacy_hash_root(root);
    let mut v = chars_of(key.as_str());
    push_str(&mut v, ".json");
    string_from_chars(v.as_slice())
}

/// A decoded settings file is used only when it carries the current version;
/// otherwise, or when none decoded, the root starts with no pins.
pub fn current_settings(decoded: Option<RootSettings>) -> (s: RootSettings)
    ensures
        match decoded {
            Some(d) => if d.version == ROOTS_VERSION {
                s == d
            } else {
                s.version == ROOTS_VERSION && s.pins@ == Set::<Seq<char>>::empty()
                    && s.last_selected is None
            },
            None => s.version == ROOTS_VERSION && s.pins@ == Set::<Seq<char>>::empty()
                && s.last_selected is None,
        },
{
    match decoded {
        Some(d) => if d.version == ROOTS_VERSION {
            d
        } else {
            RootSettings::default()
        },
        None => RootSettings::default(),
    }
}

} // verus!
