//! Which entries of a file tree every traversal passes over.

use vstd::prelude::*;
use crate::path::{file_name, final_name_chars, is_entry_name, join, lemma_join_components};
use crate::text::{is_text, to_chars};

verus! {

/// The names of the entries that are passed over.
pub open spec fn excluded_names() -> Set<Seq<char>> {
    set![
        ".git"@,
        "target"@,
        "node_modules"@,
        "bundle.js"@,
        "bundle.js.map"@,
        ".DS_Store"@,
    ]
}

/// Whether the entry at `path` is passed over: its name is one of the
/// excluded names, or the path leads to no named entry at all.
pub open spec fn excluded(path: Seq<char>) -> bool {
    match file_name(path) {
        Some(name) => excluded_names().contains(name),
        None => true,
    }
}

/// An entry is excluded exactly if its name is one of the excluded names,
/// wherever it lies: what leads up to the name does not count.
pub proof fn lemma_excluded_by_name(base: Seq<char>, name: Seq<char>)
    requires
        is_entry_name(name),
    ensures
        excluded(join(base, name)) == excluded_names().contains(name),
        excluded(name) == excluded_names().contains(name),
{
    lemma_join_components(base, name);
    lemma_join_components(Seq::empty(), name);
    assert(join(Seq::empty(), name) =~= name);
}

/// A path that leads to a named entry is excluded exactly if that name is one
/// of the excluded names.
pub proof fn lemma_excluded_named(path: Seq<char>)
    requires
        file_name(path) is Some,
    ensures
        excluded(path) == excluded_names().contains(file_name(path).unwrap()),
{
}

/// Whether `name` is one of the excluded names.
pub fn is_excluded_name(name: &Vec<char>) -> (b: bool)
    ensures
        b == excluded_names().contains(name@),
{
    is_text(name, ".git") || is_text(name, "target") || is_text(name, "node_modules") || is_text(
        name,
        "bundle.js",
    ) || is_text(name, "bundle.js.map") || is_text(name, ".DS_Store")
}

/// Whether the entry at `dir` is passed over by every traversal.
///
/// Only the name of the entry counts, not where it lies. A path that leads to
/// no named entry (the root, an empty path, one that ends in `..`) is passed
/// over too.
pub fn in_black_list(dir: &str) -> (b: bool)
    ensures
        b == excluded(dir@),
{
    let p = to_chars(dir);
    match final_name_chars(&p) {
        Some(name) => is_excluded_name(&name),
        None => true,
    }
}

} // verus!
