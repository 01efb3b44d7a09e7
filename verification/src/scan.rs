//! The lexical layer of the manifest grammar: blanks, comments, strings, keys.
//!
//! Every scanner is a function of the text and a position. It gives the
//! position at which the piece that starts there ends; nothing is copied.

use vstd::prelude::*;

verus! {

/// The byte that ends a line.
pub const NEWLINE: u8 = 0x0a;

pub const SPACE: u8 = 0x20;

pub const TAB: u8 = 0x09;

pub const CARRIAGE_RETURN: u8 = 0x0d;

/// The byte that starts a comment.
pub const HASH: u8 = 0x23;

/// The quote of a basic string.
pub const QUOTE: u8 = 0x22;

/// The quote of a literal string.
pub const APOSTROPHE: u8 = 0x27;

/// The byte that starts an escape in a basic string.
pub const BACKSLASH: u8 = 0x5c;

pub const OPEN_BRACKET: u8 = 0x5b;

pub const CLOSE_BRACKET: u8 = 0x5d;

pub const OPEN_BRACE: u8 = 0x7b;

pub const CLOSE_BRACE: u8 = 0x7d;

pub const COMMA: u8 = 0x2c;

pub const EQUALS: u8 = 0x3d;

/// The byte that joins the keys of a dotted key.
pub const PERIOD: u8 = 0x2e;

/// A space, a tab or a carriage return.
pub open spec fn is_blank(b: u8) -> bool {
    b == SPACE || b == TAB || b == CARRIAGE_RETURN
}

/// A byte of a bare key: a letter, a digit, `-` or `_`.
pub open spec fn is_key_byte(b: u8) -> bool {
    (0x30 <= b <= 0x39) || (0x41 <= b <= 0x5a) || (0x61 <= b <= 0x7a) || b == 0x2d || b == 0x5f
}

/// A byte of an unquoted value (a number, a date, a boolean): a key byte, `+`,
/// `.` or `:`.
pub open spec fn is_plain_byte(b: u8) -> bool {
    is_key_byte(b) || b == 0x2b || b == 0x2e || b == 0x3a
}

/// The end of the run of blanks that starts at `i`.
pub open spec fn skip_blanks(s: Seq<u8>, i: int) -> int
    decreases s.len() - i,
{
    if 0 <= i < s.len() && is_blank(s[i]) {
        skip_blanks(s, i + 1)
    } else {
        i
    }
}

/// The position of the first newline at or after `i`, or the end of the text.
pub open spec fn line_end(s: Seq<u8>, i: int) -> int
    decreases s.len() - i,
{
    if 0 <= i < s.len() && s[i] != NEWLINE {
        line_end(s, i + 1)
    } else {
        i
    }
}

/// The end of the run of blanks, newlines and comments that starts at `i`.
/// `in_comment` says whether `i` lies inside a comment.
pub open spec fn skip_trivia(s: Seq<u8>, i: int, in_comment: bool) -> int
    decreases s.len() - i,
{
    if !(0 <= i < s.len()) {
        i
    } else if in_comment {
        skip_trivia(s, i + 1, s[i] != NEWLINE)
    } else if is_blank(s[i]) || s[i] == NEWLINE {
        skip_trivia(s, i + 1, false)
    } else if s[i] == HASH {
        skip_trivia(s, i + 1, true)
    } else {
        i
    }
}

/// The end of the run of key bytes that starts at `i`.
pub open spec fn key_run_end(s: Seq<u8>, i: int) -> int
    decreases s.len() - i,
{
    if 0 <= i < s.len() && is_key_byte(s[i]) {
        key_run_end(s, i + 1)
    } else {
        i
    }
}

/// The end of the run of plain value bytes that starts at `i`.
pub open spec fn plain_run_end(s: Seq<u8>, i: int) -> int
    decreases s.len() - i,
{
    if 0 <= i < s.len() && is_plain_byte(s[i]) {
        plain_run_end(s, i + 1)
    } else {
        i
    }
}

/// The position after the quote that closes a one-line string whose content
/// starts at `i`. With `escapes`, a backslash takes the byte after it along.
pub open spec fn quoted_end(s: Seq<u8>, i: int, quote: u8, escapes: bool) -> Option<int>
    decreases s.len() - i,
{
    if !(0 <= i < s.len()) {
        None
    } else if s[i] == quote {
        Some(i + 1)
    } else if s[i] == NEWLINE {
        None
    } else if escapes && s[i] == BACKSLASH {
        if i + 1 < s.len() && s[i + 1] != NEWLINE {
            quoted_end(s, i + 2, quote, escapes)
        } else {
            None
        }
    } else {
        quoted_end(s, i + 1, quote, escapes)
    }
}

/// Whether three quotes stand at `i`.
pub open spec fn triple_at(s: Seq<u8>, i: int, quote: u8) -> bool {
    0 <= i && i + 2 < s.len() && s[i] == quote && s[i + 1] == quote && s[i + 2] == quote
}

/// The end of a closing delimiter that starts at `i`: three quotes, and up to
/// two more that belong to the content.
pub open spec fn closing_end(s: Seq<u8>, i: int, quote: u8) -> int {
    if i + 3 < s.len() && s[i + 3] == quote {
        if i + 4 < s.len() && s[i + 4] == quote {
            i + 5
        } else {
            i + 4
        }
    } else {
        i + 3
    }
}

/// The position after the delimiter that closes a multi-line string whose
/// content starts at `i`.
pub open spec fn block_end(s: Seq<u8>, i: int, quote: u8, escapes: bool) -> Option<int>
    decreases s.len() - i,
{
    if !(0 <= i < s.len()) {
        None
    } else if escapes && s[i] == BACKSLASH {
        if i + 1 < s.len() {
            block_end(s, i + 2, quote, escapes)
        } else {
            None
        }
    } else if triple_at(s, i, quote) {
        Some(closing_end(s, i, quote))
    } else {
        block_end(s, i + 1, quote, escapes)
    }
}

/// The end of the string that starts at `i`, of any of the four kinds.
pub open spec fn string_end(s: Seq<u8>, i: int) -> Option<int> {
    if !(0 <= i < s.len()) {
        None
    } else if s[i] == QUOTE || s[i] == APOSTROPHE {
        if triple_at(s, i, s[i]) {
            block_end(s, i + 3, s[i], s[i] == QUOTE)
        } else {
            quoted_end(s, i + 1, s[i], s[i] == QUOTE)
        }
    } else {
        None
    }
}

/// The end of the key that starts at `i`: a one-line string, or a run of key
/// bytes that is not empty.
pub open spec fn key_end(s: Seq<u8>, i: int) -> Option<int> {
    if !(0 <= i < s.len()) {
        None
    } else if s[i] == QUOTE || s[i] == APOSTROPHE {
        quoted_end(s, i + 1, s[i], s[i] == QUOTE)
    } else if is_key_byte(s[i]) {
        Some(key_run_end(s, i))
    } else {
        None
    }
}

/// The end of the dotted key that starts at `i`: keys joined by `.`, with
/// blanks allowed around each dot. The blanks after the last key are not part
/// of it.
pub open spec fn path_end(s: Seq<u8>, i: int) -> Option<int>
    decreases s.len() - i,
{
    match key_end(s, i) {
        None => None,
        Some(k) => {
            let dot = skip_blanks(s, k);
            let next = skip_blanks(s, dot + 1);
            if 0 <= i < k <= dot < next <= s.len() && s[dot] == PERIOD {
                path_end(s, next)
            } else {
                Some(k)
            }
        },
    }
}

/// The end of what may follow the last piece of a line: blanks, then a
/// comment or nothing. It is the end of the text or the position of a newline.
pub open spec fn tail_end(s: Seq<u8>, i: int) -> Option<int> {
    let j = skip_blanks(s, i);
    if !(0 <= j < s.len()) || s[j] == NEWLINE {
        Some(j)
    } else if s[j] == HASH {
        Some(line_end(s, j))
    } else {
        None
    }
}

/// The start of the next line, where nothing but blanks and maybe a comment
/// stand between `i` and the newline that ends the line; `i` itself where
/// something else follows, or where the text ends before a newline.
pub open spec fn line_rest_end(s: Seq<u8>, i: int) -> int {
    let j = skip_blanks(s, i);
    if 0 <= j < s.len() && s[j] == NEWLINE {
        j + 1
    } else if 0 <= j < s.len() && s[j] == HASH && line_end(s, j) < s.len() {
        line_end(s, j) + 1
    } else {
        i
    }
}

// Facts about where the scanners end.

/// A run of blanks ends within the text, holds nothing but blanks, and stops
/// before a byte that is no blank.
pub proof fn lemma_skip_blanks_bounds(s: Seq<u8>, i: int)
    requires
        0 <= i <= s.len(),
    ensures
        i <= skip_blanks(s, i) <= s.len(),
        forall|k: int| i <= k < skip_blanks(s, i) ==> is_blank(#[trigger] s[k]),
        skip_blanks(s, i) < s.len() ==> !is_blank(s[skip_blanks(s, i)]),
    decreases s.len() - i,
{
    if i < s.len() && is_blank(s[i]) {
        lemma_skip_blanks_bounds(s, i + 1);
    }
}

/// A line ends within the text, holds no newline, and stops before one.
pub proof fn lemma_line_end_bounds(s: Seq<u8>, i: int)
    requires
        0 <= i <= s.len(),
    ensures
        i <= line_end(s, i) <= s.len(),
        forall|k: int| i <= k < line_end(s, i) ==> #[trigger] s[k] != NEWLINE,
        line_end(s, i) < s.len() ==> s[line_end(s, i)] == NEWLINE,
    decreases s.len() - i,
{
    if i < s.len() && s[i] != NEWLINE {
        lemma_line_end_bounds(s, i + 1);
    }
}

/// Trivia ends within the text.
pub proof fn lemma_skip_trivia_bounds(s: Seq<u8>, i: int, in_comment: bool)
    requires
        0 <= i <= s.len(),
    ensures
        i <= skip_trivia(s, i, in_comment) <= s.len(),
    decreases s.len() - i,
{
    if i < s.len() {
        if in_comment {
            lemma_skip_trivia_bounds(s, i + 1, s[i] != NEWLINE);
        } else if is_blank(s[i]) || s[i] == NEWLINE {
            lemma_skip_trivia_bounds(s, i + 1, false);
        } else if s[i] == HASH {
            lemma_skip_trivia_bounds(s, i + 1, true);
        }
    }
}

/// Blanks are trivia: the trivia that starts at `i` ends where the trivia
/// after the blanks ends.
pub proof fn lemma_trivia_after_blanks(s: Seq<u8>, i: int)
    requires
        0 <= i <= s.len(),
    ensures
        skip_trivia(s, i, false) == skip_trivia(s, skip_blanks(s, i), false),
    decreases s.len() - i,
{
    if i < s.len() && is_blank(s[i]) {
        lemma_trivia_after_blanks(s, i + 1);
    }
}

/// A comment is trivia up to the end of its line.
pub proof fn lemma_trivia_after_comment(s: Seq<u8>, i: int)
    requires
        0 <= i <= s.len(),
    ensures
        line_end(s, i) <= skip_trivia(s, i, true) <= s.len(),
        skip_trivia(s, i, true) == skip_trivia(s, line_end(s, i), true),
    decreases s.len() - i,
{
    if i < s.len() {
        if s[i] != NEWLINE {
            lemma_trivia_after_comment(s, i + 1);
        } else {
            lemma_skip_trivia_bounds(s, i + 1, false);
        }
    }
}

/// The rest of a line is part of the trivia that starts there.
pub proof fn lemma_line_rest_bounds(s: Seq<u8>, i: int)
    requires
        0 <= i <= s.len(),
    ensures
        i <= line_rest_end(s, i) <= skip_trivia(s, i, false) <= s.len(),
        skip_trivia(s, line_rest_end(s, i), false) == skip_trivia(s, i, false),
{
    lemma_skip_blanks_bounds(s, i);
    lemma_skip_trivia_bounds(s, i, false);
    lemma_trivia_after_blanks(s, i);
    let j = skip_blanks(s, i);
    if j < s.len() && s[j] == NEWLINE {
        lemma_skip_trivia_bounds(s, j + 1, false);
    } else if j < s.len() && s[j] == HASH {
        lemma_line_end_bounds(s, j);
        lemma_trivia_after_comment(s, j + 1);
        assert(line_end(s, j) == line_end(s, j + 1));
        let e = line_end(s, j);
        assert(skip_trivia(s, j, false) == skip_trivia(s, j + 1, true));
        if e < s.len() {
            assert(skip_trivia(s, e, true) == skip_trivia(s, e + 1, false));
            lemma_skip_trivia_bounds(s, e + 1, false);
        }
    }
}

/// A run of key bytes ends within the text, and is not empty where it
/// starts with a key byte.
pub proof fn lemma_key_run_bounds(s: Seq<u8>, i: int)
    requires
        0 <= i <= s.len(),
    ensures
        i <= key_run_end(s, i) <= s.len(),
        i < s.len() && is_key_byte(s[i]) ==> i < key_run_end(s, i),
    decreases s.len() - i,
{
    if i < s.len() && is_key_byte(s[i]) {
        lemma_key_run_bounds(s, i + 1);
    }
}

/// A run of plain bytes ends within the text, and is not empty where it
/// starts with a plain byte.
pub proof fn lemma_plain_run_bounds(s: Seq<u8>, i: int)
    requires
        0 <= i <= s.len(),
    ensures
        i <= plain_run_end(s, i) <= s.len(),
        i < s.len() && is_plain_byte(s[i]) ==> i < plain_run_end(s, i),
    decreases s.len() - i,
{
    if i < s.len() && is_plain_byte(s[i]) {
        lemma_plain_run_bounds(s, i + 1);
    }
}

/// A one-line string ends within the text, after its content.
pub proof fn lemma_quoted_end_bounds(s: Seq<u8>, i: int, quote: u8, escapes: bool)
    requires
        0 <= i <= s.len(),
    ensures
        quoted_end(s, i, quote, escapes) matches Some(e) ==> i < e <= s.len(),
    decreases s.len() - i,
{
    if i < s.len() && s[i] != quote && s[i] != NEWLINE {
        if escapes && s[i] == BACKSLASH {
            if i + 1 < s.len() && s[i + 1] != NEWLINE {
                lemma_quoted_end_bounds(s, i + 2, quote, escapes);
            }
        } else {
            lemma_quoted_end_bounds(s, i + 1, quote, escapes);
        }
    }
}

/// A multi-line string ends within the text, with the three quotes that
/// close it.
pub proof fn lemma_block_end_bounds(s: Seq<u8>, i: int, quote: u8, escapes: bool)
    requires
        0 <= i <= s.len(),
    ensures
        block_end(s, i, quote, escapes) matches Some(e) ==> i + 3 <= e <= s.len(),
    decreases s.len() - i,
{
    if i < s.len() {
        if escapes && s[i] == BACKSLASH {
            if i + 1 < s.len() {
                lemma_block_end_bounds(s, i + 2, quote, escapes);
            }
        } else if !triple_at(s, i, quote) {
            lemma_block_end_bounds(s, i + 1, quote, escapes);
        }
    }
}

/// A string is not empty and ends within the text.
pub proof fn lemma_string_end_bounds(s: Seq<u8>, i: int)
    requires
        0 <= i <= s.len(),
    ensures
        string_end(s, i) matches Some(e) ==> i < e <= s.len(),
{
    if i < s.len() && (s[i] == QUOTE || s[i] == APOSTROPHE) {
        if triple_at(s, i, s[i]) {
            lemma_block_end_bounds(s, i + 3, s[i], s[i] == QUOTE);
        } else {
            lemma_quoted_end_bounds(s, i + 1, s[i], s[i] == QUOTE);
        }
    }
}

/// A key is not empty and ends within the text.
pub proof fn lemma_key_end_bounds(s: Seq<u8>, i: int)
    requires
        0 <= i <= s.len(),
    ensures
        key_end(s, i) matches Some(e) ==> i < e <= s.len(),
{
    if i < s.len() {
        if s[i] == QUOTE || s[i] == APOSTROPHE {
            lemma_quoted_end_bounds(s, i + 1, s[i], s[i] == QUOTE);
        } else {
            lemma_key_run_bounds(s, i);
        }
    }
}

/// A dotted key is not empty and ends within the text.
pub proof fn lemma_path_end_bounds(s: Seq<u8>, i: int)
    requires
        0 <= i <= s.len(),
    ensures
        path_end(s, i) matches Some(e) ==> i < e <= s.len(),
    decreases s.len() - i,
{
    lemma_key_end_bounds(s, i);
    match key_end(s, i) {
        None => {},
        Some(k) => {
            lemma_skip_blanks_bounds(s, k);
            let dot = skip_blanks(s, k);
            if dot < s.len() && s[dot] == PERIOD {
                lemma_skip_blanks_bounds(s, dot + 1);
                lemma_path_end_bounds(s, skip_blanks(s, dot + 1));
            }
        },
    }
}

/// What ends a line ends within the text, at a newline or at the end of the
/// text.
pub proof fn lemma_tail_end_bounds(s: Seq<u8>, i: int)
    requires
        0 <= i <= s.len(),
    ensures
        tail_end(s, i) matches Some(e) ==> i <= e <= s.len() && (e < s.len() ==> s[e] == NEWLINE),
{
    lemma_skip_blanks_bounds(s, i);
    lemma_line_end_bounds(s, skip_blanks(s, i));
}

// The scanners as they run.

/// Finds the end of the run of blanks that starts at `i`.
pub fn scan_blanks(s: &[u8], i: usize) -> (j: usize)
    requires
        i <= s@.len(),
    ensures
        j as int == skip_blanks(s@, i as int),
        i <= j <= s@.len(),
{
    let mut j: usize = i;
    while j < s.len() && (s[j] == SPACE || s[j] == TAB || s[j] == CARRIAGE_RETURN)
        invariant
            i <= j <= s@.len(),
            skip_blanks(s@, i as int) == skip_blanks(s@, j as int),
        decreases s@.len() - j,
    {
        j += 1;
    }
    j
}

/// Finds the first newline at or after `i`, or the end of the text.
pub fn scan_line_end(s: &[u8], i: usize) -> (j: usize)
    requires
        i <= s@.len(),
    ensures
        j as int == line_end(s@, i as int),
        i <= j <= s@.len(),
{
    let mut j: usize = i;
    while j < s.len() && s[j] != NEWLINE
        invariant
            i <= j <= s@.len(),
            line_end(s@, i as int) == line_end(s@, j as int),
        decreases s@.len() - j,
    {
        j += 1;
    }
    j
}

/// Finds the end of the run of blanks, newlines and comments that starts at `i`.
pub fn scan_trivia(s: &[u8], i: usize) -> (j: usize)
    requires
        i <= s@.len(),
    ensures
        j as int == skip_trivia(s@, i as int, false),
        i <= j <= s@.len(),
{
    let mut j: usize = i;
    let mut in_comment = false;
    while j < s.len() && (in_comment || s[j] == SPACE || s[j] == TAB || s[j] == CARRIAGE_RETURN
        || s[j] == NEWLINE || s[j] == HASH)
        invariant
            i <= j <= s@.len(),
            skip_trivia(s@, i as int, false) == skip_trivia(s@, j as int, in_comment),
        decreases s@.len() - j,
    {
        if in_comment {
            in_comment = s[j] != NEWLINE;
        } else {
            in_comment = s[j] == HASH;
        }
        j += 1;
    }
    j
}

/// Finds the start of the next line, where only blanks and maybe a comment
/// stand before it.
pub fn scan_line_rest(s: &[u8], i: usize) -> (r: usize)
    requires
        i <= s@.len(),
    ensures
        r as int == line_rest_end(s@, i as int),
        i <= r <= s@.len(),
{
    let j = scan_blanks(s, i);
    if j < s.len() && s[j] == NEWLINE {
        j + 1
    } else if j < s.len() && s[j] == HASH {
        let e = scan_line_end(s, j);
        if e < s.len() {
            e + 1
        } else {
            i
        }
    } else {
        i
    }
}

/// Whether `b` is a byte of a bare key.
pub fn key_byte(b: u8) -> (r: bool)
    ensures
        r == is_key_byte(b),
{
    (0x30 <= b && b <= 0x39) || (0x41 <= b && b <= 0x5a) || (0x61 <= b && b <= 0x7a) || b == 0x2d
        || b == 0x5f
}

/// Whether `b` is a byte of an unquoted value.
pub fn plain_byte(b: u8) -> (r: bool)
    ensures
        r == is_plain_byte(b),
{
    key_byte(b) || b == 0x2b || b == 0x2e || b == 0x3a
}

/// Finds the end of the run of key bytes that starts at `i`.
pub fn scan_key_run(s: &[u8], i: usize) -> (j: usize)
    requires
        i <= s@.len(),
    ensures
        j as int == key_run_end(s@, i as int),
        i <= j <= s@.len(),
{
    let mut j: usize = i;
    while j < s.len() && key_byte(s[j])
        invariant
            i <= j <= s@.len(),
            key_run_end(s@, i as int) == key_run_end(s@, j as int),
        decreases s@.len() - j,
    {
        j += 1;
    }
    j
}

/// Finds the end of the run of plain value bytes that starts at `i`.
pub fn scan_plain_run(s: &[u8], i: usize) -> (j: usize)
    requires
        i <= s@.len(),
    ensures
        j as int == plain_run_end(s@, i as int),
        i <= j <= s@.len(),
{
    let mut j: usize = i;
    while j < s.len() && plain_byte(s[j])
        invariant
            i <= j <= s@.len(),
            plain_run_end(s@, i as int) == plain_run_end(s@, j as int),
        decreases s@.len() - j,
    {
        j += 1;
    }
    j
}

/// Finds the end of a one-line string whose content starts at `i`.
pub fn scan_quoted(s: &[u8], i: usize, quote: u8, escapes: bool) -> (r: Option<usize>)
    requires
        i <= s@.len(),
    ensures
        match r {
            Some(e) => quoted_end(s@, i as int, quote, escapes) == Some(e as int) && i < e
                <= s@.len(),
            None => quoted_end(s@, i as int, quote, escapes) is None,
        },
{
    let mut j: usize = i;
    while j < s.len()
        invariant
            i <= j <= s@.len(),
            quoted_end(s@, i as int, quote, escapes) == quoted_end(s@, j as int, quote, escapes),
        decreases s@.len() - j,
    {
        let b = s[j];
        if b == quote {
            return Some(j + 1);
        } else if b == NEWLINE {
            return None;
        } else if escapes && b == BACKSLASH {
            if j + 1 < s.len() && s[j + 1] != NEWLINE {
                j += 2;
            } else {
                return None;
            }
        } else {
            j += 1;
        }
    }
    None
}

/// Finds the end of a multi-line string whose content starts at `i`.
pub fn scan_block(s: &[u8], i: usize, quote: u8, escapes: bool) -> (r: Option<usize>)
    requires
        i <= s@.len(),
    ensures
        match r {
            Some(e) => block_end(s@, i as int, quote, escapes) == Some(e as int) && i < e
                <= s@.len(),
            None => block_end(s@, i as int, quote, escapes) is None,
        },
{
    let n = s.len();
    let mut j: usize = i;
    while j < n
        invariant
            n == s@.len(),
            i <= j <= s@.len(),
            block_end(s@, i as int, quote, escapes) == block_end(s@, j as int, quote, escapes),
        decreases s@.len() - j,
    {
        let b = s[j];
        if escapes && b == BACKSLASH {
            if j + 1 < n {
                j += 2;
            } else {
                return None;
            }
        } else if b == quote && n - j > 2 && s[j + 1] == quote && s[j + 2] == quote {
            if n - j > 3 && s[j + 3] == quote {
                if n - j > 4 && s[j + 4] == quote {
                    return Some(j + 5);
                }
                return Some(j + 4);
            }
            return Some(j + 3);
        } else {
            j += 1;
        }
    }
    None
}

/// Finds the end of the string that starts at `i`.
pub fn scan_string(s: &[u8], i: usize) -> (r: Option<usize>)
    requires
        i <= s@.len(),
    ensures
        match r {
            Some(e) => string_end(s@, i as int) == Some(e as int) && i < e <= s@.len(),
            None => string_end(s@, i as int) is None,
        },
{
    let n = s.len();
    if i >= n {
        return None;
    }
    let q = s[i];
    if q == QUOTE || q == APOSTROPHE {
        if n - i > 2 && s[i + 1] == q && s[i + 2] == q {
            scan_block(s, i + 3, q, q == QUOTE)
        } else {
            scan_quoted(s, i + 1, q, q == QUOTE)
        }
    } else {
        None
    }
}

/// Finds the end of the key that starts at `i`.
pub fn scan_key(s: &[u8], i: usize) -> (r: Option<usize>)
    requires
        i <= s@.len(),
    ensures
        match r {
            Some(e) => key_end(s@, i as int) == Some(e as int) && i < e <= s@.len(),
            None => key_end(s@, i as int) is None,
        },
{
    if i >= s.len() {
        return None;
    }
    let q = s[i];
    if q == QUOTE || q == APOSTROPHE {
        scan_quoted(s, i + 1, q, q == QUOTE)
    } else if key_byte(q) {
        proof {
            lemma_key_run_bounds(s@, i as int);
        }
        Some(scan_key_run(s, i))
    } else {
        None
    }
}

/// Finds the end of the dotted key that starts at `i`.
pub fn scan_path(s: &[u8], i: usize) -> (r: Option<usize>)
    requires
        i <= s@.len(),
    ensures
        match r {
            Some(e) => path_end(s@, i as int) == Some(e as int) && i < e <= s@.len(),
            None => path_end(s@, i as int) is None,
        },
{
    let mut start: usize = i;
    loop
        invariant
            i <= start <= s@.len(),
            path_end(s@, i as int) == path_end(s@, start as int),
        decreases s@.len() - start,
    {
        let k = match scan_key(s, start) {
            Some(k) => k,
            None => {
                return None;
            },
        };
        let dot = scan_blanks(s, k);
        if dot < s.len() && s[dot] == PERIOD {
            start = scan_blanks(s, dot + 1);
        } else {
            return Some(k);
        }
    }
}

/// Finds the end of what may follow the last piece of a line.
pub fn scan_tail(s: &[u8], i: usize) -> (r: Option<usize>)
    requires
        i <= s@.len(),
    ensures
        match r {
            Some(e) => tail_end(s@, i as int) == Some(e as int) && i <= e <= s@.len() && (e
                < s@.len() ==> s@[e as int] == NEWLINE),
            None => tail_end(s@, i as int) is None,
        },
{
    let j = scan_blanks(s, i);
    if j >= s.len() || s[j] == NEWLINE {
        Some(j)
    } else if s[j] == HASH {
        proof {
            lemma_line_end_bounds(s@, j as int);
        }
        Some(scan_line_end(s, j))
    } else {
        None
    }
}

} // verus!
