//! The cache of parse results: a graph stored under the fingerprint of the
//! content it was parsed from and the time that content was last modified.
//!
//! A stored graph is handed out only when both still hold of the file.

use vstd::prelude::*;
use std::path::PathBuf;
use std::collections::hash_map::DefaultHasher;
use std::hash::Hasher;
use vstd::std_specs::hash::DefaultHasherAdditionalSpecFns;
use crate::graph::{CallGraph, FnModel};

verus! {

/// The fingerprint of `text`: the standard hasher's digest of the bytes of
/// `text`, closed by one byte that no text holds.
pub open spec fn digest(text: Seq<char>) -> u64 {
    DefaultHasher::spec_finish(seq![vstd::utf8::encode_utf8(text), seq![0xffu8]])
}

/// The 64-bit fingerprint of `s`.
pub fn hash_string(s: &str) -> (hash: u64)
    ensures
        hash == digest(s@),
{
    let mut hasher = DefaultHasher::new();
    hasher.write(s.as_bytes());
    let closing: [u8; 1] = [0xffu8];
    hasher.write(closing.as_slice());
    assert(closing@ =~= seq![0xffu8]);
    assert(hasher@ =~= seq![vstd::utf8::encode_utf8(s@), seq![0xffu8]]);
    hasher.finish()
}

/// `path` with the extension of its file name replaced by `extension`, or
/// given that extension where it had none.
pub uninterp spec fn with_extension(path: PathBuf, extension: Seq<char>) -> PathBuf;

/// Calls `Path::with_extension`. Trusted: the result is the path that the
/// library refers to as `with_extension`. An extension that holds a path
/// separator is left out, since std refuses it.
#[verifier::external_body]
fn path_with_extension(path: &PathBuf, extension: &str) -> (changed: PathBuf)
    requires
        forall|i: int|
            0 <= i < extension@.len() ==> (#[trigger] extension@[i]) != '/' && extension@[i]
                != '\\',
    ensures
        changed == with_extension(*path, extension@),
{
    path.with_extension(extension)
}

/// Where the cache of a source file lies: beside it, under the same stem,
/// with the extension `funcparse_cache`.
pub fn get_cache_path(source_path: &PathBuf) -> (cache_path: PathBuf)
    ensures
        cache_path == with_extension(*source_path, "funcparse_cache"@),
{
    proof {
        reveal_strlit("funcparse_cache");
    }
    path_with_extension(source_path, "funcparse_cache")
}

/// A stored parse result.
#[derive(Debug)]
pub struct CacheEntry {
    /// Fingerprint of the content that was parsed.
    pub file_hash: u64,
    /// When that content was last modified, in seconds since the epoch.
    pub last_modified: u64,
    pub functions: CallGraph,
}

/// Model of a stored parse result.
pub struct EntryModel {
    pub file_hash: u64,
    pub last_modified: u64,
    pub functions: Seq<FnModel>,
}

impl View for CacheEntry {
    type V = EntryModel;

    open spec fn view(&self) -> EntryModel {
        EntryModel {
            file_hash: self.file_hash,
            last_modified: self.last_modified,
            functions: self.functions@,
        }
    }
}

/// The entry under which the graph `functions` of `content`, last modified
/// at `modified`, is stored.
pub open spec fn stored(content: Seq<char>, modified: u64, functions: Seq<FnModel>) -> EntryModel {
    EntryModel { file_hash: digest(content), last_modified: modified, functions }
}

/// What `entry` yields for a file that holds `content` and was last modified
/// at `modified`: its graph, if fingerprint and time both agree.
pub open spec fn cached(entry: EntryModel, content: Seq<char>, modified: u64) -> Option<
    Seq<FnModel>,
> {
    if entry.file_hash == digest(content) && entry.last_modified == modified {
        Some(entry.functions)
    } else {
        None
    }
}

/// A graph that was stored is found again while the file stays as it is, and
/// is not found once the modification time differs, even with the content
/// unchanged.
pub proof fn lemma_cache_round_trip(
    content: Seq<char>,
    modified: u64,
    later: u64,
    functions: Seq<FnModel>,
)
    ensures
        cached(stored(content, modified, functions), content, modified) == Some(functions),
        later != modified ==> cached(stored(content, modified, functions), content, later)
            is None,
{
}

/// The graph that `entry` holds for a file with `content`, last modified at
/// `modified`; none without an entry, or when the entry is stale.
pub fn load_cache(entry: Option<CacheEntry>, content: &str, modified: u64) -> (found: Option<
    CallGraph,
>)
    ensures
        match found {
            Some(g) => entry matches Some(e) && cached(e@, content@, modified) == Some(g@),
            None => entry matches Some(e) ==> cached(e@, content@, modified) is None,
        },
{
    match entry {
        Some(e) => {
            let current = hash_string(content);
            if e.file_hash == current && e.last_modified == modified {
                Some(e.functions)
            } else {
                None
            }
        },
        None => None,
    }
}

/// The entry to store for the graph `functions` of `content`, last modified
/// at `modified`.
pub fn save_cache(content: &str, modified: u64, functions: &CallGraph) -> (entry: CacheEntry)
    ensures
        entry@ == stored(content@, modified, functions@),
{
    CacheEntry {
        file_hash: hash_string(content),
        last_modified: modified,
        functions: functions.clone(),
    }
}

} // verus!
