//! Character-level helpers: separators, trimming, and owned substrings.

use vstd::prelude::*;
use vstd::string::*;

verus! {

/// The characters that separate the parts of a file name.
pub open spec fn is_separator(c: char) -> bool {
    c == '_' || c == '-' || c == '.'
}

/// Executable test for [`is_separator`].
pub fn separator(c: char) -> (r: bool)
    ensures
        r == is_separator(c),
{
    c == '_' || c == '-' || c == '.'
}

/// The length of `s` once every trailing separator is removed.
pub open spec fn trimmed_end_len(s: Seq<char>) -> nat
    decreases s.len(),
{
    if s.len() > 0 && is_separator(s.last()) {
        trimmed_end_len(s.drop_last())
    } else {
        s.len()
    }
}

/// The number of separators that `s` starts with.
pub open spec fn leading_separators(s: Seq<char>) -> nat
    decreases s.len(),
{
    if s.len() > 0 && is_separator(s[0]) {
        1 + leading_separators(s.drop_first())
    } else {
        0
    }
}

/// The position of the last separator in `s`, if it holds one.
pub open spec fn last_separator(s: Seq<char>) -> Option<nat>
    decreases s.len(),
{
    if s.len() == 0 {
        None
    } else if is_separator(s.last()) {
        Some((s.len() - 1) as nat)
    } else {
        last_separator(s.drop_last())
    }
}

/// The position of the last `.` in `s`, if it holds one.
pub open spec fn last_dot(s: Seq<char>) -> Option<nat>
    decreases s.len(),
{
    if s.len() == 0 {
        None
    } else if s.last() == '.' {
        Some((s.len() - 1) as nat)
    } else {
        last_dot(s.drop_last())
    }
}

/// What [`trimmed_end_len`] cuts off is made of separators, and what it
/// leaves does not end with one.
pub proof fn lemma_trimmed_end(s: Seq<char>)
    ensures
        trimmed_end_len(s) <= s.len(),
        forall|j: int| trimmed_end_len(s) <= j < s.len() ==> is_separator(s[j]),
        trimmed_end_len(s) > 0 ==> !is_separator(s[trimmed_end_len(s) - 1]),
    decreases s.len(),
{
    if s.len() > 0 && is_separator(s.last()) {
        lemma_trimmed_end(s.drop_last());
        assert forall|j: int| trimmed_end_len(s) <= j < s.len() implies is_separator(s[j]) by {
            if j < s.len() - 1 {
                assert(s.drop_last()[j] == s[j]);
            }
        }
    }
}

/// [`leading_separators`] counts the separators up to the first character
/// that is none.
pub proof fn lemma_leading_separators(s: Seq<char>)
    ensures
        leading_separators(s) <= s.len(),
        forall|j: int| 0 <= j < leading_separators(s) ==> is_separator(s[j]),
        leading_separators(s) < s.len() ==> !is_separator(s[leading_separators(s) as int]),
    decreases s.len(),
{
    if s.len() > 0 && is_separator(s[0]) {
        let rest = s.drop_first();
        lemma_leading_separators(rest);
        assert forall|j: int| 0 <= j < leading_separators(s) implies is_separator(s[j]) by {
            if j > 0 {
                assert(rest[j - 1] == s[j]);
            }
        }
        if leading_separators(s) < s.len() {
            assert(rest[leading_separators(rest) as int] == s[leading_separators(s) as int]);
        }
    }
}

/// [`last_separator`] gives the position of a separator after which there
/// is no other, and nothing only where there is no separator at all.
pub proof fn lemma_last_separator(s: Seq<char>)
    ensures
        match last_separator(s) {
            Some(p) => p < s.len() && is_separator(s[p as int]) && forall|j: int|
                p < j < s.len() ==> !is_separator(s[j]),
            None => forall|j: int| 0 <= j < s.len() ==> !is_separator(s[j]),
        },
    decreases s.len(),
{
    if s.len() > 0 && !is_separator(s.last()) {
        let front = s.drop_last();
        lemma_last_separator(front);
        assert forall|j: int| 0 <= j < front.len() implies front[j] == s[j] by {}
    }
}

/// [`last_dot`] gives the position of a `.` after which there is no other,
/// and nothing only where there is no `.` at all.
pub proof fn lemma_last_dot(s: Seq<char>)
    ensures
        match last_dot(s) {
            Some(p) => p < s.len() && s[p as int] == '.' && forall|j: int|
                p < j < s.len() ==> s[j] != '.',
            None => forall|j: int| 0 <= j < s.len() ==> s[j] != '.',
        },
    decreases s.len(),
{
    if s.len() > 0 && s.last() != '.' {
        let front = s.drop_last();
        lemma_last_dot(front);
        assert forall|j: int| 0 <= j < front.len() implies front[j] == s[j] by {}
    }
}

/// The characters of `s`, in order.
pub fn chars_of(s: &str) -> (v: Vec<char>)
    ensures
        v@ == s@,
{
    let mut v: Vec<char> = Vec::new();
    for c in it: s.chars()
        invariant
            it.seq() == s@,
            v@ == it.seq().take(it.index() as int),
    {
        v.push(c);
    }
    v
}

/// An owned copy of the characters `from..to` of `s`.
pub fn substring(s: &str, from: usize, to: usize) -> (r: String)
    requires
        from <= to <= s@.len(),
    ensures
        r@ == s@.subrange(from as int, to as int),
{
    s.substring_char(from, to).to_owned()
}

/// Computes [`trimmed_end_len`] of the first `len` characters of `s`.
pub fn trim_end(s: &Vec<char>, len: usize) -> (r: usize)
    requires
        len <= s.len(),
    ensures
        r == trimmed_end_len(s@.take(len as int)),
        r <= len,
{
    let mut n: usize = len;
    while n > 0 && separator(s[n - 1])
        invariant
            n <= len <= s.len(),
            trimmed_end_len(s@.take(len as int)) == trimmed_end_len(s@.take(n as int)),
        decreases n,
    {
        assert(s@.take(n as int).drop_last() == s@.take(n - 1));
        n = n - 1;
    }
    n
}

/// Computes [`leading_separators`] of `s`.
pub fn count_leading_separators(s: &Vec<char>) -> (r: usize)
    ensures
        r == leading_separators(s@),
        r <= s.len(),
{
    let mut n: usize = 0;
    assert(s@.skip(0) == s@);
    while n < s.len() && separator(s[n])
        invariant
            n <= s.len(),
            leading_separators(s@) == n + leading_separators(s@.skip(n as int)),
        decreases s.len() - n,
    {
        assert(s@.skip(n as int).drop_first() == s@.skip(n + 1));
        n = n + 1;
    }
    n
}

/// Computes [`last_separator`] of the first `len` characters of `s`.
pub fn find_last_separator(s: &Vec<char>, len: usize) -> (r: Option<usize>)
    requires
        len <= s.len(),
    ensures
        r matches Some(p) ==> p < len && last_separator(s@.take(len as int)) == Some(p as nat),
        r is None ==> last_separator(s@.take(len as int)) is None,
{
    let mut n: usize = len;
    while n > 0
        invariant
            n <= len <= s.len(),
            last_separator(s@.take(len as int)) == last_separator(s@.take(n as int)),
        decreases n,
    {
        if separator(s[n - 1]) {
            return Some(n - 1);
        }
        assert(s@.take(n as int).drop_last() == s@.take(n - 1));
        n = n - 1;
    }
    None
}

/// Computes [`last_dot`] of the characters of `s` from `from` on.
pub fn find_last_dot(s: &Vec<char>, from: usize) -> (r: Option<usize>)
    requires
        from <= s.len(),
    ensures
        r matches Some(p) ==> from + p < s.len() && last_dot(s@.skip(from as int)) == Some(
            p as nat,
        ),
        r is None ==> last_dot(s@.skip(from as int)) is None,
{
    let ghost rest = s@.skip(from as int);
    let mut n: usize = s.len();
    assert(rest.take(s.len() - from) == rest);
    while n > from
        invariant
            from <= n <= s.len(),
            rest == s@.skip(from as int),
            last_dot(rest) == last_dot(rest.take(n - from)),
        decreases n,
    {
        if s[n - 1] == '.' {
            return Some(n - 1 - from);
        }
        assert(rest.take(n - from).drop_last() == rest.take(n - 1 - from));
        n = n - 1;
    }
    None
}

} // verus!
