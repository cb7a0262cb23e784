//! Character-level helpers shared by the matcher and the property rules.

use vstd::prelude::*;
use vstd::std_specs::iter::IteratorSpec;

verus! {

/// The characters of `s`, in order.
pub fn to_chars(s: &str) -> (chars: Vec<char>)
    ensures
        chars@ == s@,
{
    let mut chars: Vec<char> = Vec::new();
    for c in it: s.chars()
        invariant
            chars@ == it.seq().take(it.index() as int),
            it.seq() == s@,
    {
        chars.push(c);
    }
    chars
}

/// The character that separates the components of a path.
pub const SEPARATOR: char = '/';

/// Index at which the final component of `path` begins: just past the last
/// separator, or 0 where there is none.
pub open spec fn after_last_separator(path: Seq<char>) -> int
    decreases path.len(),
{
    if path.len() == 0 {
        0
    } else if path.last() == SEPARATOR {
        path.len() as int
    } else {
        after_last_separator(path.drop_last())
    }
}

/// The final component begins inside the path, right after a separator
/// unless it begins the path, and holds no separator.
pub proof fn lemma_after_last_separator(path: Seq<char>)
    ensures
        0 <= after_last_separator(path) <= path.len(),
        after_last_separator(path) > 0 ==> path[after_last_separator(path) - 1] == SEPARATOR,
        forall|i: int| after_last_separator(path) <= i < path.len() ==> path[i] != SEPARATOR,
    decreases path.len(),
{
    if path.len() > 0 && path.last() != SEPARATOR {
        lemma_after_last_separator(path.drop_last());
        assert forall|i: int| after_last_separator(path) <= i < path.len() implies path[i]
            != SEPARATOR by {
            if i < path.len() - 1 {
                assert(path.drop_last()[i] == path[i]);
            }
        }
    }
}

/// The final component of `path`: what follows its last separator.
pub fn final_component(path: &Vec<char>) -> (name: Vec<char>)
    ensures
        name@ == path@.skip(after_last_separator(path@)),
{
    let mut start: usize = path.len();
    assert(path@.take(path.len() as int) == path@);
    while start > 0 && path[start - 1] != SEPARATOR
        invariant
            start <= path.len(),
            after_last_separator(path@) == after_last_separator(path@.take(start as int)),
        decreases start,
    {
        assert(path@.take(start as int).drop_last() == path@.take(start - 1));
        start -= 1;
    }
    let mut name: Vec<char> = Vec::new();
    let mut k: usize = start;
    while k < path.len()
        invariant
            start <= k <= path.len(),
            name@ == path@.subrange(start as int, k as int),
        decreases path.len() - k,
    {
        name.push(path[k]);
        k += 1;
    }
    name
}

/// Whether two texts hold the same characters.
pub fn same_text(a: &str, b: &str) -> (r: bool)
    ensures
        r == (a@ == b@),
{
    a.to_owned() == b.to_owned()
}

/// A number is one or more decimal digits.
pub open spec fn is_number(s: Seq<char>) -> bool {
    s.len() > 0 && forall|i: int| 0 <= i < s.len() ==> '0' <= #[trigger] s[i] <= '9'
}

/// Whether `s` is a number.
pub fn is_number_str(s: &str) -> (r: bool)
    ensures
        r == is_number(s@),
{
    let chars = to_chars(s);
    if chars.len() == 0 {
        return false;
    }
    let mut i: usize = 0;
    while i < chars.len()
        invariant
            chars@ == s@,
            forall|j: int| 0 <= j < i ==> '0' <= #[trigger] chars@[j] <= '9',
        decreases chars.len() - i,
    {
        if !('0' <= chars[i] && chars[i] <= '9') {
            assert(!('0' <= s@[i as int] <= '9'));
            return false;
        }
        i += 1;
    }
    true
}

} // verus!
