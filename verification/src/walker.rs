//! The walk from a target path up through its ancestor directories.

use crate::text::{after_last_separator, lemma_after_last_separator, to_chars, SEPARATOR};
use vstd::prelude::*;

verus! {

/// The directory that holds `path`: what stands before its last separator,
/// or the root where that separator leads the path. The root has no parent,
/// nor has a path without a separator.
pub open spec fn parent(path: Seq<char>) -> Option<Seq<char>> {
    let start = after_last_separator(path);
    if start == 0 {
        None
    } else if start == 1 {
        if path.len() == 1 {
            None
        } else {
            Some(seq![SEPARATOR])
        }
    } else {
        Some(path.take(start - 1))
    }
}

/// A parent is shorter than its child and is the start of it.
pub proof fn lemma_parent(path: Seq<char>)
    ensures
        parent(path) matches Some(dir) ==> 0 < dir.len() < path.len() && dir.is_prefix_of(path),
{
    lemma_after_last_separator(path);
    let start = after_last_separator(path);
    if start == 1 && path.len() > 1 {
        assert(seq![SEPARATOR] =~= path.take(1));
    }
}

/// The ancestor directories of `path`, the nearest first, the root last.
pub open spec fn ancestors(path: Seq<char>) -> Seq<Seq<char>>
    decreases path.len(),
{
    match parent(path) {
        Some(dir) => {
            proof {
                lemma_parent(path);
            }
            seq![dir] + ancestors(dir)
        },
        None => Seq::empty(),
    }
}

/// The directory that holds `path`, if it has one.
pub fn parent_of(path: &str) -> (r: Option<String>)
    ensures
        match r {
            Some(dir) => parent(path@) == Some(dir@),
            None => parent(path@) is None,
        },
{
    let chars = to_chars(path);
    let mut start: usize = chars.len();
    assert(chars@.take(chars.len() as int) == chars@);
    while start > 0 && chars[start - 1] != SEPARATOR
        invariant
            start <= chars.len(),
            after_last_separator(chars@) == after_last_separator(chars@.take(start as int)),
        decreases start,
    {
        assert(chars@.take(start as int).drop_last() == chars@.take(start - 1));
        start -= 1;
    }
    if start == 0 {
        None
    } else if start == 1 {
        if chars.len() == 1 {
            None
        } else {
            proof {
                reveal_strlit("/");
                assert("/"@ =~= seq![SEPARATOR]);
            }
            Some("/".to_owned())
        }
    } else {
        Some(path.substring_char(0, start - 1).to_owned())
    }
}

/// All the ancestor directories of `path`, the nearest first.
pub fn ancestors_of(path: &str) -> (dirs: Vec<String>)
    ensures
        dirs@.len() == ancestors(path@).len(),
        forall|i: int| 0 <= i < dirs@.len() ==> (#[trigger] dirs@[i])@ == ancestors(path@)[i],
{
    let mut dirs: Vec<String> = Vec::new();
    let mut walker = DirectoryWalker::new(path);
    loop
        invariant
            ancestors(path@) == Seq::new(dirs@.len(), |i: int| dirs@[i]@) + walker.remaining(),
        decreases walker.remaining().len(),
    {
        match walker.next_directory() {
            Some(dir) => {
                let ghost before = Seq::new(dirs@.len(), |i: int| dirs@[i]@);
                dirs.push(dir);
                assert(Seq::new(dirs@.len(), |i: int| dirs@[i]@) =~= before.push(dir@));
                assert(ancestors(path@) =~= Seq::new(dirs@.len(), |i: int| dirs@[i]@)
                    + walker.remaining());
            },
            None => {
                assert(ancestors(path@) =~= Seq::new(dirs@.len(), |i: int| dirs@[i]@));
                return dirs;
            },
        }
    }
}

/// A walk in progress: it hands out one ancestor directory at a time, and can
/// be halted before the root is reached and started again.
#[derive(Debug)]
pub struct DirectoryWalker {
    target: String,
    current: String,
    halted: bool,
}

impl DirectoryWalker {
    /// The path whose ancestors are walked.
    pub closed spec fn target(&self) -> Seq<char> {
        self.target@
    }

    /// The directories that are still to come, the next one first.
    pub closed spec fn remaining(&self) -> Seq<Seq<char>> {
        if self.halted {
            Seq::empty()
        } else {
            ancestors(self.current@)
        }
    }

    /// A walk that has all the ancestors of `target` before it.
    pub fn new(target: &str) -> (walker: DirectoryWalker)
        ensures
            walker.target() == target@,
            walker.remaining() == ancestors(target@),
    {
        DirectoryWalker { target: target.to_owned(), current: target.to_owned(), halted: false }
    }

    /// Hands out the next directory, or `None` when the walk is over.
    pub fn next_directory(&mut self) -> (r: Option<String>)
        ensures
            final(self).target() == old(self).target(),
            match r {
                Some(dir) => old(self).remaining().len() > 0 && dir@ == old(self).remaining()[0]
                    && final(self).remaining() == old(self).remaining().drop_first(),
                None => old(self).remaining().len() == 0 && final(self).remaining().len() == 0,
            },
    {
        if self.halted {
            return None;
        }
        match parent_of(self.current.as_str()) {
            Some(dir) => {
                proof {
                    assert((seq![dir@] + ancestors(dir@)).drop_first() =~= ancestors(dir@));
                }
                self.current = dir.clone();
                Some(dir)
            },
            None => None,
        }
    }

    /// Ends the walk: no directory is handed out after this.
    pub fn halt(&mut self)
        ensures
            final(self).target() == old(self).target(),
            final(self).remaining().len() == 0,
    {
        self.halted = true;
    }

    /// Starts the walk again from the target.
    pub fn restart(&mut self)
        ensures
            final(self).target() == old(self).target(),
            final(self).remaining() == ancestors(old(self).target()),
    {
        self.current = self.target.clone();
        self.halted = false;
    }
}

} // verus!
