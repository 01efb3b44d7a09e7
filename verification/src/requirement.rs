//! The name of the package that a dependency entry asks for.
//!
//! An entry is a one-line string. Its name is the first word of the string's
//! content: after leading spaces and tabs, the longest run of name bytes,
//! where the content ends after it or goes on with what may follow a name:
//! extras, a version, a URL or a marker. What follows the name is not looked
//! at beyond its first byte, and escape sequences are not decoded: an entry
//! that spells its name with escapes has no name here.

use crate::name::is_name_byte;
use crate::name::normalized;
use crate::name::valid_name;
use crate::name::PackageName;
use crate::scan::APOSTROPHE;
use crate::scan::QUOTE;
use crate::scan::SPACE;
use crate::scan::TAB;
use vstd::prelude::*;
use vstd::slice::slice_subrange;

verus! {

/// The end of the run of spaces and tabs that starts at `i`.
pub open spec fn skip_wsp(s: Seq<u8>, i: int) -> int
    decreases s.len() - i,
{
    if 0 <= i < s.len() && (s[i] == SPACE || s[i] == TAB) {
        skip_wsp(s, i + 1)
    } else {
        i
    }
}

/// The end of the run of name bytes that starts at `i`.
pub open spec fn name_run_end(s: Seq<u8>, i: int) -> int
    decreases s.len() - i,
{
    if 0 <= i < s.len() && is_name_byte(s[i]) {
        name_run_end(s, i + 1)
    } else {
        i
    }
}

/// Whether `value` is written as a one-line string: it starts and ends with
/// the same quote and does not open with three of them.
pub open spec fn is_line_string(value: Seq<u8>) -> bool {
    &&& value.len() >= 2
    &&& value[0] == QUOTE || value[0] == APOSTROPHE
    &&& value.last() == value[0]
    &&& value.len() >= 3 ==> value[1] != value[0]
}

/// What stands between the quotes of a one-line string.
pub open spec fn string_content(value: Seq<u8>) -> Seq<u8>
    recommends
        is_line_string(value),
{
    value.subrange(1, value.len() - 1)
}

/// Whether `b` starts what may follow the name in an entry: extras (`[`), a
/// version (`(`, `<`, `>`, `=`, `!`, `~`), a URL (`@`) or a marker (`;`).
pub open spec fn may_follow_name(b: u8) -> bool {
    b == '[' as u8 || b == '(' as u8 || b == '<' as u8 || b == '>' as u8 || b == '=' as u8 || b
        == '!' as u8 || b == '~' as u8 || b == '@' as u8 || b == ';' as u8
}

/// Whether what follows the first word of `content` may follow a name: after
/// spaces and tabs the content ends, or goes on with a byte that may.
pub open spec fn name_is_followed(content: Seq<u8>) -> bool {
    let next = skip_wsp(content, name_run_end(content, skip_wsp(content, 0)));
    !(0 <= next < content.len()) || may_follow_name(content[next])
}

/// The first word of `content`, as written.
pub open spec fn leading_name(content: Seq<u8>) -> Seq<u8> {
    let start = skip_wsp(content, 0);
    content.subrange(start, name_run_end(content, start))
}

/// The normal form of the name of the package that the entry written as
/// `value` asks for; `None` where `value` is no one-line string, its first
/// word is no name, or what follows that word may not follow a name.
pub open spec fn entry_name(value: Seq<u8>) -> Option<Seq<u8>> {
    if is_line_string(value) {
        let word = leading_name(string_content(value));
        if word.len() > 0 && valid_name(word) && name_is_followed(string_content(value)) {
            Some(normalized(word))
        } else {
            None
        }
    } else {
        None
    }
}

/// Whether `b` may occur in a name.
pub fn name_byte(b: u8) -> (r: bool)
    ensures
        r == is_name_byte(b),
{
    (0x30 <= b && b <= 0x39) || (0x41 <= b && b <= 0x5a) || (0x61 <= b && b <= 0x7a) || b == 0x2d
        || b == 0x5f || b == 0x2e
}

/// Whether `b` starts what may follow the name in an entry.
pub fn follows_name(b: u8) -> (r: bool)
    ensures
        r == may_follow_name(b),
{
    b == '[' as u8 || b == '(' as u8 || b == '<' as u8 || b == '>' as u8 || b == '=' as u8 || b
        == '!' as u8 || b == '~' as u8 || b == '@' as u8 || b == ';' as u8
}

/// Finds the first word of `content`: where it starts and where it ends.
pub fn find_leading_name(content: &[u8]) -> (r: (usize, usize))
    ensures
        r.0 <= r.1 <= content@.len(),
        r.0 as int == skip_wsp(content@, 0),
        r.1 as int == name_run_end(content@, r.0 as int),
        content@.subrange(r.0 as int, r.1 as int) == leading_name(content@),
{
    let mut start: usize = 0;
    while start < content.len() && (content[start] == SPACE || content[start] == TAB)
        invariant
            start <= content@.len(),
            skip_wsp(content@, 0) == skip_wsp(content@, start as int),
        decreases content@.len() - start,
    {
        start += 1;
    }
    let mut end: usize = start;
    while end < content.len() && name_byte(content[end])
        invariant
            start <= end <= content@.len(),
            name_run_end(content@, start as int) == name_run_end(content@, end as int),
        decreases content@.len() - end,
    {
        end += 1;
    }
    (start, end)
}

/// Whether the entry written as `value` asks for the package `name`.
pub fn entry_names(value: &[u8], name: &PackageName) -> (r: bool)
    ensures
        r == (entry_name(value@) == Some(name@)),
{
    let n = value.len();
    if n < 2 {
        return false;
    }
    let quote = value[0];
    if (quote != QUOTE && quote != APOSTROPHE) || value[n - 1] != quote {
        return false;
    }
    if n >= 3 && value[1] == quote {
        return false;
    }
    let content = slice_subrange(value, 1, n - 1);
    let (start, end) = find_leading_name(content);
    let mut next: usize = end;
    while next < content.len() && (content[next] == SPACE || content[next] == TAB)
        invariant
            end <= next <= content@.len(),
            skip_wsp(content@, end as int) == skip_wsp(content@, next as int),
        decreases content@.len() - next,
    {
        next += 1;
    }
    if next < content.len() && !follows_name(content[next]) {
        return false;
    }
    if start == end {
        return false;
    }
    name.matches(slice_subrange(content, start, end))
}

} // verus!
