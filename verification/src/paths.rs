//! Paths as text: cleaning, joining and taking a path relative to a directory.

use crate::text::{to_chars, SEPARATOR};
use vstd::prelude::*;
use vstd::string::StringExecFns;

verus! {

/// The name that a configuration file has where no other is asked for.
pub const DEFAULT_CONFIG_NAME: &'static str = ".editorconfig";

/// What `path_clean::clean` makes of a path.
pub uninterp spec fn cleaned(path: Seq<char>) -> Seq<char>;

/// Calls `path_clean::clean`, which rewrites a path lexically, without looking
/// at the file system: it drops `.` components and repeated separators and
/// resolves `..` against the component before it. The contract only gives the
/// outcome its name; the text that comes back is the cleaned path as it
/// stands, since a path made of the components of a string is a string.
#[verifier::external_body]
fn clean_path(path: &str) -> (r: String)
    ensures
        r@ == cleaned(path@),
{
    path_clean::clean(path).to_string_lossy().into_owned()
}

/// Cleans every path of the list, keeping their order.
pub fn make_absolute_paths(filepaths: Vec<String>) -> (r: Vec<String>)
    ensures
        r@.len() == filepaths@.len(),
        forall|i: int| 0 <= i < r@.len() ==> (#[trigger] r@[i])@ == cleaned(filepaths@[i]@),
{
    let mut r: Vec<String> = Vec::new();
    let mut i: usize = 0;
    while i < filepaths.len()
        invariant
            i <= filepaths.len(),
            r@.len() == i,
            forall|j: int| 0 <= j < i ==> (#[trigger] r@[j])@ == cleaned(filepaths@[j]@),
        decreases filepaths.len() - i,
    {
        r.push(clean_path(filepaths[i].as_str()));
        i += 1;
    }
    r
}

/// A directory as the start of the paths below it: the directory itself where
/// it is empty or ends in a separator, else the directory and a separator.
pub open spec fn directory_prefix(directory: Seq<char>) -> Seq<char> {
    if directory.len() == 0 || directory.last() == SEPARATOR {
        directory
    } else {
        directory.push(SEPARATOR)
    }
}

/// The path of the entry `name` of `directory`.
pub open spec fn joined(directory: Seq<char>, name: Seq<char>) -> Seq<char> {
    directory_prefix(directory) + name
}

/// `target` as seen from `directory`, where `target` lies below it.
pub open spec fn relative_to(directory: Seq<char>, target: Seq<char>) -> Option<Seq<char>> {
    let prefix = directory_prefix(directory);
    if prefix.is_prefix_of(target) {
        Some(target.skip(prefix.len() as int))
    } else {
        None
    }
}

fn prefix_chars(directory: &str) -> (r: Vec<char>)
    ensures
        r@ == directory_prefix(directory@),
{
    let mut chars = to_chars(directory);
    if chars.len() > 0 && chars[chars.len() - 1] != SEPARATOR {
        chars.push(SEPARATOR);
    }
    chars
}

/// The path of the configuration file `filename` in `directory`.
pub fn config_file_path(directory: &str, filename: &str) -> (r: String)
    ensures
        r@ == joined(directory@, filename@),
{
    let chars = to_chars(directory);
    let mut r = directory.to_owned();
    if chars.len() > 0 && chars[chars.len() - 1] != SEPARATOR {
        proof {
            reveal_strlit("/");
            assert("/"@ =~= seq![SEPARATOR]);
        }
        r.append("/");
    }
    r.append(filename);
    r
}

/// `target` as seen from `directory`: what follows the directory and its
/// separator, or `None` where `target` does not lie below `directory`.
pub fn relative_path(directory: &str, target: &str) -> (r: Option<String>)
    ensures
        match r {
            Some(rel) => relative_to(directory@, target@) == Some(rel@),
            None => relative_to(directory@, target@) is None,
        },
{
    let prefix = prefix_chars(directory);
    let chars = to_chars(target);
    if prefix.len() > chars.len() {
        return None;
    }
    let mut i: usize = 0;
    while i < prefix.len()
        invariant
            i <= prefix.len() <= chars.len(),
            chars@ == target@,
            prefix@ == directory_prefix(directory@),
            forall|j: int| 0 <= j < i ==> prefix@[j] == chars@[j],
        decreases prefix.len() - i,
    {
        if prefix[i] != chars[i] {
            assert(chars@.subrange(0, prefix@.len() as int)[i as int] != prefix@[i as int]);
            return None;
        }
        i += 1;
    }
    assert(prefix@ =~= chars@.subrange(0, prefix@.len() as int));
    Some(target.substring_char(prefix.len(), chars.len()).to_owned())
}

} // verus!
