//! The section-header glob dialect.
//!
//! A pattern is read left to right. `*` stands for any run of characters that
//! holds no separator, `**` for any run at all, `?` for one character other
//! than the separator, `[...]` and `[!...]` for one character inside or outside
//! a set, and `{a,b,...}` for any one of its alternatives, each of which is a
//! pattern of its own. Every other character stands for itself. A match always
//! covers the whole candidate.

use crate::text::{after_last_separator, final_component, to_chars, SEPARATOR};
use vstd::prelude::*;

verus! {

/// Index of the first `]` at or after `i`.
pub open spec fn first_bracket_close(p: Seq<char>, i: int) -> Option<int>
    decreases p.len() - i,
{
    if i < 0 || i >= p.len() {
        None
    } else if p[i] == ']' {
        Some(i)
    } else {
        first_bracket_close(p, i + 1)
    }
}

/// A closing bracket that is found lies at or after `i`, and nothing before it
/// from `i` on is one.
pub proof fn lemma_first_bracket_close(p: Seq<char>, i: int)
    ensures
        first_bracket_close(p, i) matches Some(e) ==> i <= e < p.len() && p[e] == ']' && forall|
            m: int,
        | i <= m < e ==> p[m] != ']',
        first_bracket_close(p, i) is None ==> forall|m: int| 0 <= i <= m < p.len() ==> p[m] != ']',
    decreases p.len() - i,
{
    if 0 <= i < p.len() && p[i] != ']' {
        lemma_first_bracket_close(p, i + 1);
    }
}

/// Where the members of the class opened at `i` begin: after the `[` and
/// after a `!` that negates the class.
pub open spec fn class_body_start(p: Seq<char>, i: int) -> int {
    if i + 1 < p.len() && p[i + 1] == '!' {
        i + 2
    } else {
        i + 1
    }
}

/// Whether the class opened at `i` is negated.
pub open spec fn class_negated(p: Seq<char>, i: int) -> bool {
    i + 1 < p.len() && p[i + 1] == '!'
}

/// Index of the `]` that closes the class opened at `i`: the first one after
/// the opening bracket and the negation mark.
pub open spec fn class_end(p: Seq<char>, i: int) -> Option<int> {
    first_bracket_close(p, class_body_start(p, i))
}

/// Whether `c` is among the members listed in `p[lo..hi]`. Three characters
/// `a-z` list every character from `a` to `z`; any other character lists
/// itself.
pub open spec fn class_lists(p: Seq<char>, lo: int, hi: int, c: char) -> bool
    decreases hi - lo,
{
    if lo < 0 || hi > p.len() || lo >= hi {
        false
    } else if lo + 2 < hi && p[lo + 1] == '-' {
        (p[lo] <= c && c <= p[lo + 2]) || class_lists(p, lo + 3, hi, c)
    } else {
        p[lo] == c || class_lists(p, lo + 1, hi, c)
    }
}

/// Whether the class opened at `i` and closed at `end` accepts `c`.
pub open spec fn class_accepts(p: Seq<char>, i: int, end: int, c: char) -> bool {
    class_lists(p, class_body_start(p, i), end, c) != class_negated(p, i)
}

/// Scanning inside a brace group from `i`, with `depth` inner groups open:
/// the index of the next `,` or `}` that belongs to the group itself. A class
/// is skipped as a whole, so its members never delimit anything.
pub open spec fn next_delimiter(p: Seq<char>, i: int, depth: nat) -> Option<int>
    decreases p.len() - i,
{
    if i < 0 || i >= p.len() {
        None
    } else if p[i] == '[' {
        match class_end(p, i) {
            Some(e) => {
                proof {
                    lemma_first_bracket_close(p, class_body_start(p, i));
                }
                next_delimiter(p, e + 1, depth)
            },
            None => None,
        }
    } else if p[i] == '{' {
        next_delimiter(p, i + 1, depth + 1)
    } else if p[i] == '}' {
        if depth == 0 {
            Some(i)
        } else {
            next_delimiter(p, i + 1, (depth - 1) as nat)
        }
    } else if p[i] == ',' && depth == 0 {
        Some(i)
    } else {
        next_delimiter(p, i + 1, depth)
    }
}

/// A delimiter that is found lies at or after `i` and is a `,` or a `}`.
pub proof fn lemma_next_delimiter(p: Seq<char>, i: int, depth: nat)
    ensures
        next_delimiter(p, i, depth) matches Some(d) ==> i <= d < p.len() && (p[d] == '}' || p[d]
            == ','),
    decreases p.len() - i,
{
    if 0 <= i < p.len() {
        if p[i] == '[' {
            lemma_first_bracket_close(p, class_body_start(p, i));
            match class_end(p, i) {
                Some(e) => lemma_next_delimiter(p, e + 1, depth),
                None => {},
            }
        } else if p[i] == '{' {
            lemma_next_delimiter(p, i + 1, depth + 1);
        } else if p[i] == '}' {
            if depth > 0 {
                lemma_next_delimiter(p, i + 1, (depth - 1) as nat);
            }
        } else if p[i] == ',' && depth == 0 {
        } else {
            lemma_next_delimiter(p, i + 1, depth);
        }
    }
}

/// Index of the `}` that closes the group whose content is being read at
/// `from`.
pub open spec fn group_end(p: Seq<char>, from: int) -> Option<int>
    decreases p.len() - from,
{
    match next_delimiter(p, from, 0) {
        Some(d) => {
            proof {
                lemma_next_delimiter(p, from, 0);
            }
            if p[d] == '}' {
                Some(d)
            } else {
                group_end(p, d + 1)
            }
        },
        None => None,
    }
}

/// A closing brace that is found lies at or after `from`.
pub proof fn lemma_group_end(p: Seq<char>, from: int)
    ensures
        group_end(p, from) matches Some(e) ==> from <= e < p.len() && p[e] == '}',
    decreases p.len() - from,
{
    lemma_next_delimiter(p, from, 0);
    match next_delimiter(p, from, 0) {
        Some(d) => {
            if p[d] != '}' {
                lemma_group_end(p, d + 1);
            }
        },
        None => {},
    }
}

/// Index of the first opener at or after `i`, outside any class or group,
/// that is never closed.
pub open spec fn first_unclosed(p: Seq<char>, i: int) -> Option<int>
    decreases p.len() - i,
{
    if i < 0 || i >= p.len() {
        None
    } else if p[i] == '[' {
        match class_end(p, i) {
            Some(e) => {
                proof {
                    lemma_first_bracket_close(p, class_body_start(p, i));
                }
                first_unclosed(p, e + 1)
            },
            None => Some(i),
        }
    } else if p[i] == '{' {
        match group_end(p, i + 1) {
            Some(e) => {
                proof {
                    lemma_group_end(p, i + 1);
                }
                first_unclosed(p, e + 1)
            },
            None => Some(i),
        }
    } else {
        first_unclosed(p, i + 1)
    }
}

/// A pattern is well formed when every class and every group in it is closed.
pub open spec fn well_formed(p: Seq<char>) -> bool {
    first_unclosed(p, 0) is None
}

/// Whether `p[i..end]` matches exactly `s[j..stop]`. A star matches the empty
/// run, or one character (no separator, for a single star) and then a further
/// run. A group matches where one of its alternatives matches the start of
/// the text and what follows the group matches the rest.
pub open spec fn matches_range(p: Seq<char>, i: int, end: int, s: Seq<char>, j: int, stop: int) -> bool
    decreases end - i, 2int, stop - j,
{
    if !(0 <= i <= end <= p.len() && 0 <= j <= stop <= s.len()) {
        false
    } else if i == end {
        j == stop
    } else if p[i] == '*' {
        if i + 1 < end && p[i + 1] == '*' {
            matches_range(p, i + 2, end, s, j, stop) || (j < stop && matches_range(
                p,
                i,
                end,
                s,
                j + 1,
                stop,
            ))
        } else {
            matches_range(p, i + 1, end, s, j, stop) || (j < stop && s[j] != SEPARATOR
                && matches_range(p, i, end, s, j + 1, stop))
        }
    } else if p[i] == '?' {
        j < stop && s[j] != SEPARATOR && matches_range(p, i + 1, end, s, j + 1, stop)
    } else if p[i] == '[' {
        match class_end(p, i) {
            Some(e) => {
                proof {
                    lemma_first_bracket_close(p, class_body_start(p, i));
                }
                e < end && j < stop && class_accepts(p, i, e, s[j]) && matches_range(
                    p,
                    e + 1,
                    end,
                    s,
                    j + 1,
                    stop,
                )
            },
            None => false,
        }
    } else if p[i] == '{' {
        match group_end(p, i + 1) {
            Some(close) => close < end && some_alternative_matches(
                p,
                i + 1,
                close,
                end,
                s,
                j,
                stop,
            ),
            None => false,
        }
    } else {
        j < stop && s[j] == p[i] && matches_range(p, i + 1, end, s, j + 1, stop)
    }
}

/// Whether one of the alternatives that begin at or after `start`, in the
/// group closed at `close`, matches the start of `s[j..stop]` while
/// `p[close + 1..end]` matches the rest.
pub open spec fn some_alternative_matches(
    p: Seq<char>,
    start: int,
    close: int,
    end: int,
    s: Seq<char>,
    j: int,
    stop: int,
) -> bool
    decreases end - start + 1, 1int, 0int,
{
    match next_delimiter(p, start, 0) {
        Some(d) => 1 <= start <= d <= close < end <= p.len() && (some_split_matches(
            p,
            start,
            d,
            close,
            end,
            s,
            j,
            j,
            stop,
        ) || (d < close && some_alternative_matches(p, d + 1, close, end, s, j, stop))),
        None => false,
    }
}

/// Whether for some `k` from `from` on the alternative `p[start..d]` matches
/// `s[j..k]` and `p[close + 1..end]` matches `s[k..stop]`.
pub open spec fn some_split_matches(
    p: Seq<char>,
    start: int,
    d: int,
    close: int,
    end: int,
    s: Seq<char>,
    j: int,
    from: int,
    stop: int,
) -> bool
    decreases end - start + 1, 0int, stop - from,
{
    1 <= start <= d <= close < end <= p.len() && 0 <= j <= from <= stop <= s.len() && ((
    matches_range(p, start, d, s, j, from) && matches_range(p, close + 1, end, s, from, stop)) || (
    from < stop && some_split_matches(p, start, d, close, end, s, j, from + 1, stop)))
}

/// Whether the whole of `p` matches the whole of `s`.
pub open spec fn matches_whole(p: Seq<char>, s: Seq<char>) -> bool {
    matches_range(p, 0, p.len() as int, s, 0, s.len() as int)
}

/// No separator in `s[from..to]`.
pub open spec fn separator_free(s: Seq<char>, from: int, to: int) -> bool {
    forall|m: int| from <= m < to ==> s[m] != SEPARATOR
}

/// A single star stands for any run of characters that holds no separator:
/// the pattern matches exactly when what follows the star matches after some
/// such run.
pub proof fn lemma_star_matches_any_run_in_a_component(
    p: Seq<char>,
    i: int,
    end: int,
    s: Seq<char>,
    j: int,
    stop: int,
)
    requires
        0 <= i < end <= p.len(),
        p[i] == '*',
        !(i + 1 < end && p[i + 1] == '*'),
        0 <= j <= stop <= s.len(),
    ensures
        matches_range(p, i, end, s, j, stop) <==> exists|k: int|
            j <= k <= stop && separator_free(s, j, k) && #[trigger] matches_range(
                p,
                i + 1,
                end,
                s,
                k,
                stop,
            ),
    decreases stop - j,
{
    if j < stop {
        lemma_star_matches_any_run_in_a_component(p, i, end, s, j + 1, stop);
    }
    if matches_range(p, i, end, s, j, stop) {
        if matches_range(p, i + 1, end, s, j, stop) {
            assert(separator_free(s, j, j));
        } else {
            let k = choose|k: int|
                j + 1 <= k <= stop && separator_free(s, j + 1, k) && #[trigger] matches_range(
                    p,
                    i + 1,
                    end,
                    s,
                    k,
                    stop,
                );
            assert(separator_free(s, j, k));
        }
    }
    if exists|k: int|
        j <= k <= stop && separator_free(s, j, k) && #[trigger] matches_range(
            p,
            i + 1,
            end,
            s,
            k,
            stop,
        ) {
        let k = choose|k: int|
            j <= k <= stop && separator_free(s, j, k) && #[trigger] matches_range(
                p,
                i + 1,
                end,
                s,
                k,
                stop,
            );
        if k > j {
            assert(s[j] != SEPARATOR);
            assert(separator_free(s, j + 1, k));
        }
    }
}

/// A double star stands for any run of characters at all: the pattern
/// matches exactly when what follows the two stars matches after some run.
pub proof fn lemma_double_star_matches_any_run(
    p: Seq<char>,
    i: int,
    end: int,
    s: Seq<char>,
    j: int,
    stop: int,
)
    requires
        0 <= i < end <= p.len(),
        p[i] == '*',
        i + 1 < end && p[i + 1] == '*',
        0 <= j <= stop <= s.len(),
    ensures
        matches_range(p, i, end, s, j, stop) <==> exists|k: int|
            j <= k <= stop && #[trigger] matches_range(p, i + 2, end, s, k, stop),
    decreases stop - j,
{
    if j < stop {
        lemma_double_star_matches_any_run(p, i, end, s, j + 1, stop);
    }
    if matches_range(p, i, end, s, j, stop) && !matches_range(p, i + 2, end, s, j, stop) {
        let k = choose|k: int|
            j + 1 <= k <= stop && #[trigger] matches_range(p, i + 2, end, s, k, stop);
        assert(j <= k <= stop && matches_range(p, i + 2, end, s, k, stop));
    }
    if exists|k: int| j <= k <= stop && #[trigger] matches_range(p, i + 2, end, s, k, stop) {
        let k = choose|k: int| j <= k <= stop && #[trigger] matches_range(p, i + 2, end, s, k, stop);
        if k > j {
            assert(j + 1 <= k <= stop && matches_range(p, i + 2, end, s, k, stop));
        }
    }
}

/// A group matches exactly when one of its alternatives matches some start
/// of the text and what follows the group matches the rest.
pub proof fn lemma_split_matches_some_cut(
    p: Seq<char>,
    start: int,
    d: int,
    close: int,
    end: int,
    s: Seq<char>,
    j: int,
    from: int,
    stop: int,
)
    requires
        1 <= start <= d <= close < end <= p.len(),
        0 <= j <= from <= stop <= s.len(),
    ensures
        some_split_matches(p, start, d, close, end, s, j, from, stop) <==> exists|k: int|
            from <= k <= stop && #[trigger] matches_range(p, start, d, s, j, k) && matches_range(
                p,
                close + 1,
                end,
                s,
                k,
                stop,
            ),
    decreases stop - from,
{
    if from < stop {
        lemma_split_matches_some_cut(p, start, d, close, end, s, j, from + 1, stop);
    }
    let here = matches_range(p, start, d, s, j, from) && matches_range(
        p,
        close + 1,
        end,
        s,
        from,
        stop,
    );
    if some_split_matches(p, start, d, close, end, s, j, from, stop) && !here {
        let k = choose|k: int|
            from + 1 <= k <= stop && #[trigger] matches_range(p, start, d, s, j, k)
                && matches_range(p, close + 1, end, s, k, stop);
        assert(from <= k <= stop && matches_range(p, start, d, s, j, k));
    }
    if exists|k: int|
        from <= k <= stop && #[trigger] matches_range(p, start, d, s, j, k) && matches_range(
            p,
            close + 1,
            end,
            s,
            k,
            stop,
        ) {
        let k = choose|k: int|
            from <= k <= stop && #[trigger] matches_range(p, start, d, s, j, k) && matches_range(
                p,
                close + 1,
                end,
                s,
                k,
                stop,
            );
        if k > from {
            assert(from + 1 <= k <= stop && matches_range(p, start, d, s, j, k));
        }
    }
}

/// Whether `c` opens a construct of the dialect.
pub open spec fn is_special(c: char) -> bool {
    c == '*' || c == '?' || c == '[' || c == '{'
}

/// No character of `p[i..end]` opens a construct.
pub open spec fn plain(p: Seq<char>, i: int, end: int) -> bool {
    forall|m: int| i <= m < end ==> !is_special(#[trigger] p[m])
}

/// A stretch of plain characters matches the same characters and nothing
/// else.
pub proof fn lemma_plain_range_matches_itself(
    p: Seq<char>,
    i: int,
    end: int,
    s: Seq<char>,
    j: int,
    stop: int,
)
    requires
        0 <= i <= end <= p.len(),
        0 <= j <= stop <= s.len(),
        plain(p, i, end),
    ensures
        matches_range(p, i, end, s, j, stop) <==> p.subrange(i, end) == s.subrange(j, stop),
    decreases end - i,
{
    if i == end {
        assert(p.subrange(i, end).len() == 0);
        assert(j == stop <==> s.subrange(j, stop) =~= p.subrange(i, end));
    } else {
        assert(!is_special(p[i]));
        assert(p.subrange(i, end)[0] == p[i]);
        if j < stop {
            assert(s.subrange(j, stop)[0] == s[j]);
            lemma_plain_range_matches_itself(p, i + 1, end, s, j + 1, stop);
            assert(p.subrange(i + 1, end) =~= p.subrange(i, end).drop_first());
            assert(s.subrange(j + 1, stop) =~= s.subrange(j, stop).drop_first());
            if p[i] == s[j] && p.subrange(i + 1, end) == s.subrange(j + 1, stop) {
                let a = p.subrange(i, end);
                let b = s.subrange(j, stop);
                assert(a.drop_first().len() == b.drop_first().len());
                assert forall|m: int| 0 <= m < a.len() implies a[m] == b[m] by {
                    if m > 0 {
                        assert(a[m] == a.drop_first()[m - 1]);
                        assert(b[m] == b.drop_first()[m - 1]);
                    }
                }
                assert(a =~= b);
            }
        } else {
            assert(s.subrange(j, stop).len() == 0);
        }
    }
}

/// A pattern of plain characters is well formed.
pub proof fn lemma_plain_is_well_formed(p: Seq<char>, i: int)
    requires
        0 <= i <= p.len(),
        plain(p, i, p.len() as int),
    ensures
        first_unclosed(p, i) is None,
    decreases p.len() - i,
{
    if i < p.len() {
        assert(!is_special(p[i]));
        lemma_plain_is_well_formed(p, i + 1);
    }
}

/// The match is anchored at both ends: a pattern of plain characters matches
/// the text that is the pattern, and no other.
pub proof fn lemma_plain_pattern_matches_itself(pattern: Seq<char>, text: Seq<char>)
    requires
        plain(pattern, 0, pattern.len() as int),
    ensures
        glob_matches(pattern, text) <==> pattern == text,
{
    lemma_plain_is_well_formed(pattern, 0);
    lemma_plain_range_matches_itself(
        pattern,
        0,
        pattern.len() as int,
        text,
        0,
        text.len() as int,
    );
    assert(pattern.subrange(0, pattern.len() as int) =~= pattern);
    assert(text.subrange(0, text.len() as int) =~= text);
}

/// The part of the path that a pattern is held against: the whole path for a
/// pattern that names a separator, the final component for any other.
pub open spec fn candidate(pattern: Seq<char>, path: Seq<char>) -> Seq<char> {
    if pattern.contains(SEPARATOR) {
        path
    } else {
        path.skip(after_last_separator(path))
    }
}

/// Whether `pattern` matches the whole of `text`. A malformed pattern matches
/// nothing.
pub open spec fn glob_matches(pattern: Seq<char>, text: Seq<char>) -> bool {
    well_formed(pattern) && matches_whole(pattern, text)
}

/// Whether a section headed by `pattern` applies to `path`, a path relative
/// to the directory of the file that holds the section.
pub open spec fn applies_to_path(pattern: Seq<char>, path: Seq<char>) -> bool {
    glob_matches(pattern, candidate(pattern, path))
}

/// The kind of opener that a malformed pattern leaves unclosed.
#[derive(Debug, Clone, Copy, PartialEq, Eq, Structural)]
pub enum Opener {
    Class,
    Group,
}

/// What is wrong with a pattern: the opener at `position` is never closed.
#[derive(Debug, Clone, Copy, PartialEq, Eq, Structural)]
pub struct InvalidPattern {
    pub opener: Opener,
    pub position: usize,
}

fn find_bracket_close(p: &Vec<char>, i: usize) -> (r: Option<usize>)
    ensures
        match r {
            Some(e) => first_bracket_close(p@, i as int) == Some(e as int),
            None => first_bracket_close(p@, i as int) is None,
        },
{
    let mut k: usize = i;
    while k < p.len()
        invariant
            i <= k,
            first_bracket_close(p@, i as int) == first_bracket_close(p@, k as int),
        decreases p.len() - k,
    {
        if p[k] == ']' {
            return Some(k);
        }
        k += 1;
    }
    None
}

fn find_class_end(p: &Vec<char>, i: usize) -> (r: Option<usize>)
    requires
        i < p.len(),
    ensures
        match r {
            Some(e) => class_end(p@, i as int) == Some(e as int) && i < e < p.len(),
            None => class_end(p@, i as int) is None,
        },
{
    proof {
        lemma_first_bracket_close(p@, class_body_start(p@, i as int));
    }
    if i + 1 < p.len() && p[i + 1] == '!' {
        find_bracket_close(p, i + 2)
    } else {
        find_bracket_close(p, i + 1)
    }
}

fn class_has(p: &Vec<char>, lo: usize, hi: usize, c: char) -> (r: bool)
    requires
        hi <= p.len(),
    ensures
        r == class_lists(p@, lo as int, hi as int, c),
{
    let mut k: usize = lo;
    while k < hi
        invariant
            hi <= p.len(),
            lo <= k,
            class_lists(p@, lo as int, hi as int, c) == class_lists(p@, k as int, hi as int, c),
        decreases hi - k,
    {
        if hi - k > 2 && p[k + 1] == '-' {
            if p[k] <= c && c <= p[k + 2] {
                return true;
            }
            k += 3;
        } else {
            if p[k] == c {
                return true;
            }
            k += 1;
        }
    }
    false
}

fn find_delimiter(p: &Vec<char>, i: usize) -> (r: Option<usize>)
    ensures
        match r {
            Some(d) => next_delimiter(p@, i as int, 0) == Some(d as int) && i <= d < p.len(),
            None => next_delimiter(p@, i as int, 0) is None,
        },
{
    proof {
        lemma_next_delimiter(p@, i as int, 0);
    }
    let mut k: usize = i;
    let mut depth: usize = 0;
    while k < p.len()
        invariant
            i <= k,
            depth <= k - i,
            next_delimiter(p@, i as int, 0) == next_delimiter(p@, k as int, depth as nat),
        decreases p.len() - k,
    {
        let c = p[k];
        if c == '[' {
            match find_class_end(p, k) {
                Some(e) => {
                    k = e + 1;
                },
                None => {
                    return None;
                },
            }
        } else if c == '{' {
            depth += 1;
            k += 1;
        } else if c == '}' {
            if depth == 0 {
                return Some(k);
            }
            depth -= 1;
            k += 1;
        } else if c == ',' && depth == 0 {
            return Some(k);
        } else {
            k += 1;
        }
    }
    None
}

fn find_group_end(p: &Vec<char>, from: usize) -> (r: Option<usize>)
    ensures
        match r {
            Some(e) => group_end(p@, from as int) == Some(e as int) && from <= e < p.len(),
            None => group_end(p@, from as int) is None,
        },
{
    let mut k: usize = from;
    loop
        invariant
            from <= k,
            group_end(p@, from as int) == group_end(p@, k as int),
        decreases p.len() - k,
    {
        match find_delimiter(p, k) {
            Some(d) => {
                if p[d] == '}' {
                    return Some(d);
                }
                k = d + 1;
            },
            None => {
                return None;
            },
        }
    }
}

fn find_unclosed(p: &Vec<char>) -> (r: Option<usize>)
    ensures
        match r {
            Some(at) => first_unclosed(p@, 0) == Some(at as int) && at < p.len() && (p[at as int]
                == '[' || p[at as int] == '{'),
            None => well_formed(p@),
        },
{
    let mut k: usize = 0;
    while k < p.len()
        invariant
            first_unclosed(p@, 0) == first_unclosed(p@, k as int),
        decreases p.len() - k,
    {
        let c = p[k];
        if c == '[' {
            match find_class_end(p, k) {
                Some(e) => {
                    k = e + 1;
                },
                None => {
                    return Some(k);
                },
            }
        } else if c == '{' {
            match find_group_end(p, k + 1) {
                Some(e) => {
                    k = e + 1;
                },
                None => {
                    return Some(k);
                },
            }
        } else {
            k += 1;
        }
    }
    None
}

fn match_range(p: &Vec<char>, i: usize, end: usize, s: &Vec<char>, j: usize, stop: usize) -> (r:
    bool)
    requires
        i <= end <= p.len(),
        j <= stop <= s.len(),
    ensures
        r == matches_range(p@, i as int, end as int, s@, j as int, stop as int),
    decreases end - i, 2int, stop - j,
{
    if i == end {
        return j == stop;
    }
    let c = p[i];
    if c == '*' {
        let any_run = i + 1 < end && p[i + 1] == '*';
        let next: usize = if any_run {
            i + 2
        } else {
            i + 1
        };
        let mut k: usize = j;
        loop
            invariant
                i < end <= p.len(),
                stop <= s.len(),
                p@[i as int] == '*',
                any_run == (i + 1 < end && p@[i + 1] == '*'),
                next == (if any_run {
                    i + 2
                } else {
                    i + 1
                }),
                j <= k <= stop,
                matches_range(p@, i as int, end as int, s@, j as int, stop as int) == matches_range(
                    p@,
                    i as int,
                    end as int,
                    s@,
                    k as int,
                    stop as int,
                ),
            decreases stop - k,
        {
            if match_range(p, next, end, s, k, stop) {
                return true;
            }
            if k == stop || (!any_run && s[k] == SEPARATOR) {
                return false;
            }
            k += 1;
        }
    } else if c == '?' {
        j < stop && s[j] != SEPARATOR && match_range(p, i + 1, end, s, j + 1, stop)
    } else if c == '[' {
        match find_class_end(p, i) {
            Some(e) => {
                if e < end && j < stop {
                    let negated = i + 1 < p.len() && p[i + 1] == '!';
                    let body: usize = if negated {
                        i + 2
                    } else {
                        i + 1
                    };
                    class_has(p, body, e, s[j]) != negated && match_range(
                        p,
                        e + 1,
                        end,
                        s,
                        j + 1,
                        stop,
                    )
                } else {
                    false
                }
            },
            None => false,
        }
    } else if c == '{' {
        match find_group_end(p, i + 1) {
            Some(close) => close < end && try_alternatives(p, i + 1, close, end, s, j, stop),
            None => false,
        }
    } else {
        j < stop && s[j] == c && match_range(p, i + 1, end, s, j + 1, stop)
    }
}

fn try_alternatives(
    p: &Vec<char>,
    start: usize,
    close: usize,
    end: usize,
    s: &Vec<char>,
    j: usize,
    stop: usize,
) -> (r: bool)
    requires
        1 <= start <= close < end <= p.len(),
        group_end(p@, start as int) == Some(close as int),
        j <= stop <= s.len(),
    ensures
        r == some_alternative_matches(
            p@,
            start as int,
            close as int,
            end as int,
            s@,
            j as int,
            stop as int,
        ),
    decreases end - start + 1, 1int, 0int,
{
    proof {
        lemma_next_delimiter(p@, start as int, 0);
    }
    match find_delimiter(p, start) {
        Some(d) => {
            proof {
                if p@[d as int] != '}' {
                    lemma_group_end(p@, d + 1);
                }
            }
            if try_splits(p, start, d, close, end, s, j, stop) {
                true
            } else if d < close {
                try_alternatives(p, d + 1, close, end, s, j, stop)
            } else {
                false
            }
        },
        None => false,
    }
}

fn try_splits(
    p: &Vec<char>,
    start: usize,
    d: usize,
    close: usize,
    end: usize,
    s: &Vec<char>,
    j: usize,
    stop: usize,
) -> (r: bool)
    requires
        1 <= start <= d <= close < end <= p.len(),
        j <= stop <= s.len(),
    ensures
        r == some_split_matches(
            p@,
            start as int,
            d as int,
            close as int,
            end as int,
            s@,
            j as int,
            j as int,
            stop as int,
        ),
    decreases end - start + 1, 0int, 0int,
{
    let mut k: usize = j;
    loop
        invariant
            1 <= start <= d <= close < end <= p.len(),
            j <= k <= stop <= s.len(),
            some_split_matches(
                p@,
                start as int,
                d as int,
                close as int,
                end as int,
                s@,
                j as int,
                j as int,
                stop as int,
            ) == some_split_matches(
                p@,
                start as int,
                d as int,
                close as int,
                end as int,
                s@,
                j as int,
                k as int,
                stop as int,
            ),
        decreases stop - k,
    {
        if match_range(p, start, d, s, j, k) && match_range(p, close + 1, end, s, k, stop) {
            return true;
        }
        if k == stop {
            return false;
        }
        k += 1;
    }
}

fn has_separator(p: &Vec<char>) -> (r: bool)
    ensures
        r == p@.contains(SEPARATOR),
{
    let mut k: usize = 0;
    while k < p.len()
        invariant
            forall|m: int| 0 <= m < k ==> p@[m] != SEPARATOR,
        decreases p.len() - k,
    {
        if p[k] == SEPARATOR {
            return true;
        }
        k += 1;
    }
    false
}

/// Says whether `pattern` is well formed and, where it is not, which opener
/// is the first that is never closed.
pub fn check_pattern(pattern: &str) -> (r: Result<(), InvalidPattern>)
    ensures
        match r {
            Ok(_) => well_formed(pattern@),
            Err(e) => first_unclosed(pattern@, 0) == Some(e.position as int) && e.opener == (
            if pattern@[e.position as int] == '[' {
                Opener::Class
            } else {
                Opener::Group
            }),
        },
{
    let p = to_chars(pattern);
    match find_unclosed(&p) {
        Some(at) => {
            let opener = if p[at] == '[' {
                Opener::Class
            } else {
                Opener::Group
            };
            Err(InvalidPattern { opener, position: at })
        },
        None => Ok(()),
    }
}

/// Decides whether `pattern` matches the whole of `text`.
pub fn matches(pattern: &str, text: &str) -> (r: bool)
    ensures
        r == glob_matches(pattern@, text@),
{
    let p = to_chars(pattern);
    let s = to_chars(text);
    find_unclosed(&p).is_none() && match_range(&p, 0, p.len(), &s, 0, s.len())
}

/// Decides whether a section headed by `pattern` applies to `relative_path`,
/// the target's path relative to the directory of the file that holds the
/// section: a pattern that names no separator is held against the final
/// component alone, any other against the whole relative path.
pub fn matches_path(pattern: &str, relative_path: &str) -> (r: bool)
    ensures
        r == applies_to_path(pattern@, relative_path@),
{
    let p = to_chars(pattern);
    let path = to_chars(relative_path);
    if find_unclosed(&p).is_some() {
        return false;
    }
    if has_separator(&p) {
        match_range(&p, 0, p.len(), &path, 0, path.len())
    } else {
        let name = final_component(&path);
        match_range(&p, 0, p.len(), &name, 0, name.len())
    }
}

} // verus!
