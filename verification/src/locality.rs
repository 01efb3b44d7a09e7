//! Scanning is local: what a scanner finds depends on the bytes it passes and
//! on the kind of byte at which it stops, not on where in a text they stand.
//!
//! Each law here takes a piece that was scanned in one text and the same
//! bytes in another text, and says that the scanner finds there what it found
//! in the first. They are what lets a part of a document be taken out, or a
//! part be read on its own.

use crate::scan::block_end;
use crate::scan::closing_end;
use crate::scan::is_blank;
use crate::scan::is_key_byte;
use crate::scan::is_plain_byte;
use crate::scan::key_end;
use crate::scan::key_run_end;
use crate::scan::lemma_block_end_bounds;
use crate::scan::lemma_key_end_bounds;
use crate::scan::lemma_key_run_bounds;
use crate::scan::lemma_line_end_bounds;
use crate::scan::lemma_path_end_bounds;
use crate::scan::lemma_plain_run_bounds;
use crate::scan::lemma_quoted_end_bounds;
use crate::scan::lemma_skip_blanks_bounds;
use crate::scan::lemma_skip_trivia_bounds;
use crate::scan::lemma_trivia_after_blanks;
use crate::scan::lemma_trivia_after_comment;
use crate::scan::line_end;
use crate::scan::line_rest_end;
use crate::scan::path_end;
use crate::scan::plain_run_end;
use crate::scan::quoted_end;
use crate::scan::skip_blanks;
use crate::scan::skip_trivia;
use crate::scan::string_end;
use crate::scan::tail_end;
use crate::scan::triple_at;
use crate::scan::APOSTROPHE;
use crate::scan::BACKSLASH;
use crate::scan::HASH;
use crate::scan::NEWLINE;
use crate::scan::PERIOD;
use crate::scan::QUOTE;
use vstd::prelude::*;

verus! {

/// The byte at `i`, if the text has one there.
pub open spec fn peek(s: Seq<u8>, i: int) -> Option<u8> {
    if 0 <= i < s.len() {
        Some(s[i])
    } else {
        None
    }
}

/// Whether the `n` bytes of `a` from `i` are the `n` bytes of `b` from `j`.
pub open spec fn same_window(a: Seq<u8>, i: int, b: Seq<u8>, j: int, n: int) -> bool {
    &&& 0 <= i
    &&& 0 <= j
    &&& 0 <= n
    &&& i + n <= a.len()
    &&& j + n <= b.len()
    &&& a.subrange(i, i + n) == b.subrange(j, j + n)
}

/// Whether a byte starts trivia: a blank, a newline or `#`.
pub open spec fn starts_trivia(b: u8) -> bool {
    is_blank(b) || b == NEWLINE || b == HASH
}

/// Whether a line can end before `p`: `p` is a newline or the end of the text.
pub open spec fn ends_line(p: Option<u8>) -> bool {
    p is None || p == Some(NEWLINE)
}

/// Whether a value can end before `p`: `p` is neither a byte of a plain value
/// nor a quote.
pub open spec fn ends_value(p: Option<u8>) -> bool {
    match p {
        None => true,
        Some(b) => !is_plain_byte(b) && b != QUOTE && b != APOSTROPHE,
    }
}

/// Whether a dotted key can end before `p`, after the blanks that follow it:
/// `p` is no blank, no dot and no byte of a key.
pub open spec fn ends_path(p: Option<u8>) -> bool {
    match p {
        None => true,
        Some(b) => !is_blank(b) && b != PERIOD && !is_key_byte(b) && b != QUOTE && b != APOSTROPHE,
    }
}

/// Windows that are the same hold the same byte at each place.
pub proof fn lemma_window_byte(a: Seq<u8>, i: int, b: Seq<u8>, j: int, n: int, k: int)
    requires
        same_window(a, i, b, j, n),
        0 <= k < n,
    ensures
        a[i + k] == b[j + k],
{
    assert(a.subrange(i, i + n)[k] == a[i + k]);
    assert(b.subrange(j, j + n)[k] == b[j + k]);
}

/// Windows that are the same are the same part for part.
pub proof fn lemma_window_part(
    a: Seq<u8>,
    i: int,
    b: Seq<u8>,
    j: int,
    n: int,
    from: int,
    to: int,
)
    requires
        same_window(a, i, b, j, n),
        0 <= from <= to <= n,
    ensures
        same_window(a, i + from, b, j + from, to - from),
        a.subrange(i + from, i + to) == b.subrange(j + from, j + to),
{
    assert(a.subrange(i + from, i + to) =~= a.subrange(i, i + n).subrange(from, to));
    assert(b.subrange(j + from, j + to) =~= b.subrange(j, j + n).subrange(from, to));
}

/// A run of blanks is found wherever its bytes stand before a byte that is
/// no blank.
pub proof fn lemma_skip_blanks_moves(a: Seq<u8>, i: int, b: Seq<u8>, j: int)
    requires
        0 <= i <= a.len(),
        same_window(a, i, b, j, skip_blanks(a, i) - i),
        !(peek(b, j + skip_blanks(a, i) - i) matches Some(x) && is_blank(x)),
    ensures
        skip_blanks(b, j) == j + skip_blanks(a, i) - i,
    decreases a.len() - i,
{
    lemma_skip_blanks_bounds(a, i);
    let e = skip_blanks(a, i);
    if i < a.len() && is_blank(a[i]) {
        lemma_skip_blanks_bounds(a, i + 1);
        lemma_window_byte(a, i, b, j, e - i, 0);
        lemma_window_part(a, i, b, j, e - i, 1, e - i);
        lemma_skip_blanks_moves(a, i + 1, b, j + 1);
    }
}

/// The end of a line is found wherever its bytes stand before a newline or
/// the end of the text.
pub proof fn lemma_line_end_moves(a: Seq<u8>, i: int, b: Seq<u8>, j: int)
    requires
        0 <= i <= a.len(),
        same_window(a, i, b, j, line_end(a, i) - i),
        ends_line(peek(b, j + line_end(a, i) - i)),
    ensures
        line_end(b, j) == j + line_end(a, i) - i,
    decreases a.len() - i,
{
    lemma_line_end_bounds(a, i);
    let e = line_end(a, i);
    if i < a.len() && a[i] != NEWLINE {
        lemma_line_end_bounds(a, i + 1);
        lemma_window_byte(a, i, b, j, e - i, 0);
        lemma_window_part(a, i, b, j, e - i, 1, e - i);
        lemma_line_end_moves(a, i + 1, b, j + 1);
    }
}

/// A run of key bytes is found wherever its bytes stand before a byte that is
/// no key byte.
pub proof fn lemma_key_run_moves(a: Seq<u8>, i: int, b: Seq<u8>, j: int)
    requires
        0 <= i <= a.len(),
        same_window(a, i, b, j, key_run_end(a, i) - i),
        !(peek(b, j + key_run_end(a, i) - i) matches Some(x) && is_key_byte(x)),
    ensures
        key_run_end(b, j) == j + key_run_end(a, i) - i,
    decreases a.len() - i,
{
    lemma_key_run_bounds(a, i);
    let e = key_run_end(a, i);
    if i < a.len() && is_key_byte(a[i]) {
        lemma_key_run_bounds(a, i + 1);
        lemma_window_byte(a, i, b, j, e - i, 0);
        lemma_window_part(a, i, b, j, e - i, 1, e - i);
        lemma_key_run_moves(a, i + 1, b, j + 1);
    }
}

/// A run of plain bytes is found wherever its bytes stand before a byte that
/// is no plain byte.
pub proof fn lemma_plain_run_moves(a: Seq<u8>, i: int, b: Seq<u8>, j: int)
    requires
        0 <= i <= a.len(),
        same_window(a, i, b, j, plain_run_end(a, i) - i),
        !(peek(b, j + plain_run_end(a, i) - i) matches Some(x) && is_plain_byte(x)),
    ensures
        plain_run_end(b, j) == j + plain_run_end(a, i) - i,
    decreases a.len() - i,
{
    lemma_plain_run_bounds(a, i);
    let e = plain_run_end(a, i);
    if i < a.len() && is_plain_byte(a[i]) {
        lemma_plain_run_bounds(a, i + 1);
        lemma_window_byte(a, i, b, j, e - i, 0);
        lemma_window_part(a, i, b, j, e - i, 1, e - i);
        lemma_plain_run_moves(a, i + 1, b, j + 1);
    }
}

/// Trivia that stops before a byte is found wherever its bytes stand before a
/// byte that starts no trivia.
pub proof fn lemma_skip_trivia_moves(a: Seq<u8>, i: int, b: Seq<u8>, j: int, in_comment: bool)
    requires
        0 <= i <= a.len(),
        skip_trivia(a, i, in_comment) < a.len(),
        same_window(a, i, b, j, skip_trivia(a, i, in_comment) - i),
        !(peek(b, j + skip_trivia(a, i, in_comment) - i) matches Some(x) && starts_trivia(x)),
    ensures
        skip_trivia(b, j, in_comment) == j + skip_trivia(a, i, in_comment) - i,
    decreases a.len() - i,
{
    lemma_skip_trivia_bounds(a, i, in_comment);
    let e = skip_trivia(a, i, in_comment);
    if i < a.len() {
        let next = if in_comment {
            a[i] != NEWLINE
        } else {
            a[i] == HASH
        };
        if in_comment || starts_trivia(a[i]) {
            lemma_skip_trivia_bounds(a, i + 1, next);
            lemma_window_byte(a, i, b, j, e - i, 0);
            lemma_window_part(a, i, b, j, e - i, 1, e - i);
            lemma_skip_trivia_moves(a, i + 1, b, j + 1, next);
        }
    }
}

/// A one-line string is found wherever its bytes stand.
pub proof fn lemma_quoted_end_moves(
    a: Seq<u8>,
    i: int,
    b: Seq<u8>,
    j: int,
    quote: u8,
    escapes: bool,
)
    requires
        0 <= i <= a.len(),
        quoted_end(a, i, quote, escapes) is Some,
        same_window(a, i, b, j, quoted_end(a, i, quote, escapes)->0 - i),
    ensures
        quoted_end(b, j, quote, escapes) == Some(j + quoted_end(a, i, quote, escapes)->0 - i),
    decreases a.len() - i,
{
    lemma_quoted_end_bounds(a, i, quote, escapes);
    let e = quoted_end(a, i, quote, escapes)->0;
    lemma_window_byte(a, i, b, j, e - i, 0);
    if a[i] != quote {
        if escapes && a[i] == BACKSLASH {
            lemma_quoted_end_bounds(a, i + 2, quote, escapes);
            lemma_window_byte(a, i, b, j, e - i, 1);
            lemma_window_part(a, i, b, j, e - i, 2, e - i);
            lemma_quoted_end_moves(a, i + 2, b, j + 2, quote, escapes);
        } else {
            lemma_quoted_end_bounds(a, i + 1, quote, escapes);
            lemma_window_part(a, i, b, j, e - i, 1, e - i);
            lemma_quoted_end_moves(a, i + 1, b, j + 1, quote, escapes);
        }
    }
}

/// A multi-line string is found wherever its bytes stand before a byte that
/// is not its quote.
pub proof fn lemma_block_end_moves(
    a: Seq<u8>,
    i: int,
    b: Seq<u8>,
    j: int,
    quote: u8,
    escapes: bool,
)
    requires
        0 <= i <= a.len(),
        block_end(a, i, quote, escapes) is Some,
        same_window(a, i, b, j, block_end(a, i, quote, escapes)->0 - i),
        peek(b, j + block_end(a, i, quote, escapes)->0 - i) != Some(quote),
    ensures
        block_end(b, j, quote, escapes) == Some(j + block_end(a, i, quote, escapes)->0 - i),
    decreases a.len() - i,
{
    lemma_block_end_bounds(a, i, quote, escapes);
    let e = block_end(a, i, quote, escapes)->0;
    let n = e - i;
    lemma_window_byte(a, i, b, j, n, 0);
    lemma_window_byte(a, i, b, j, n, 1);
    lemma_window_byte(a, i, b, j, n, 2);
    if escapes && a[i] == BACKSLASH {
        lemma_block_end_bounds(a, i + 2, quote, escapes);
        lemma_window_part(a, i, b, j, n, 2, n);
        lemma_block_end_moves(a, i + 2, b, j + 2, quote, escapes);
    } else if triple_at(a, i, quote) {
        assert(triple_at(b, j, quote));
        assert(e == closing_end(a, i, quote));
        if n > 3 {
            lemma_window_byte(a, i, b, j, n, 3);
        }
        if n > 4 {
            lemma_window_byte(a, i, b, j, n, 4);
        }
    } else {
        lemma_block_end_bounds(a, i + 1, quote, escapes);
        assert(!triple_at(b, j, quote));
        lemma_window_part(a, i, b, j, n, 1, n);
        lemma_block_end_moves(a, i + 1, b, j + 1, quote, escapes);
    }
}

/// A string is found wherever its bytes stand before a byte that is no quote.
pub proof fn lemma_string_end_moves(a: Seq<u8>, i: int, b: Seq<u8>, j: int)
    requires
        0 <= i <= a.len(),
        string_end(a, i) is Some,
        same_window(a, i, b, j, string_end(a, i)->0 - i),
        peek(b, j + string_end(a, i)->0 - i) != Some(QUOTE),
        peek(b, j + string_end(a, i)->0 - i) != Some(APOSTROPHE),
    ensures
        string_end(b, j) == Some(j + string_end(a, i)->0 - i),
{
    let e = string_end(a, i)->0;
    let n = e - i;
    let quote = a[i];
    if triple_at(a, i, quote) {
        lemma_block_end_bounds(a, i + 3, quote, quote == QUOTE);
        lemma_window_byte(a, i, b, j, n, 0);
        lemma_window_byte(a, i, b, j, n, 1);
        lemma_window_byte(a, i, b, j, n, 2);
        lemma_window_part(a, i, b, j, n, 3, n);
        lemma_block_end_moves(a, i + 3, b, j + 3, quote, quote == QUOTE);
    } else {
        lemma_quoted_end_bounds(a, i + 1, quote, quote == QUOTE);
        lemma_window_byte(a, i, b, j, n, 0);
        lemma_window_byte(a, i, b, j, n, 1);
        if n > 2 {
            lemma_window_byte(a, i, b, j, n, 2);
        }
        assert(!triple_at(b, j, quote));
        lemma_window_part(a, i, b, j, n, 1, n);
        lemma_quoted_end_moves(a, i + 1, b, j + 1, quote, quote == QUOTE);
    }
}

/// A key is found wherever its bytes stand before a byte that is no key byte.
pub proof fn lemma_key_end_moves(a: Seq<u8>, i: int, b: Seq<u8>, j: int)
    requires
        0 <= i <= a.len(),
        key_end(a, i) is Some,
        same_window(a, i, b, j, key_end(a, i)->0 - i),
        !(peek(b, j + key_end(a, i)->0 - i) matches Some(x) && is_key_byte(x)),
    ensures
        key_end(b, j) == Some(j + key_end(a, i)->0 - i),
{
    lemma_key_end_bounds(a, i);
    let e = key_end(a, i)->0;
    lemma_window_byte(a, i, b, j, e - i, 0);
    if a[i] == QUOTE || a[i] == APOSTROPHE {
        lemma_window_part(a, i, b, j, e - i, 1, e - i);
        lemma_quoted_end_moves(a, i + 1, b, j + 1, a[i], a[i] == QUOTE);
    } else {
        lemma_key_run_moves(a, i, b, j);
    }
}

/// A dotted key is found wherever its bytes and the blanks after it stand
/// before a byte that can follow a dotted key.
#[verifier::rlimit(40)]
pub proof fn lemma_path_end_moves(a: Seq<u8>, i: int, b: Seq<u8>, j: int)
    requires
        0 <= i <= a.len(),
        path_end(a, i) is Some,
        same_window(a, i, b, j, skip_blanks(a, path_end(a, i)->0) - i),
        ends_path(peek(a, skip_blanks(a, path_end(a, i)->0))),
        ends_path(peek(b, j + skip_blanks(a, path_end(a, i)->0) - i)),
    ensures
        path_end(b, j) == Some(j + path_end(a, i)->0 - i),
        skip_blanks(b, j + path_end(a, i)->0 - i) == j + skip_blanks(a, path_end(a, i)->0) - i,
    decreases a.len() - i,
{
    lemma_path_end_bounds(a, i);
    lemma_key_end_bounds(a, i);
    let e = path_end(a, i)->0;
    lemma_skip_blanks_bounds(a, e);
    let r = skip_blanks(a, e);
    let n = r - i;
    let k = key_end(a, i)->0;
    lemma_skip_blanks_bounds(a, k);
    let dot = skip_blanks(a, k);
    let next = skip_blanks(a, dot + 1);
    if 0 <= i < k <= dot < next <= a.len() && a[dot] == PERIOD {
        lemma_path_end_bounds(a, next);
        lemma_skip_blanks_bounds(a, dot + 1);
        // The key, the blanks, the dot and the blanks after it lie inside the window.
        lemma_window_part(a, i, b, j, n, 0, k - i);
        lemma_window_byte(a, i, b, j, n, k - i);
        lemma_key_run_stops(a, i);
        lemma_key_end_moves(a, i, b, j);
        lemma_window_part(a, i, b, j, n, k - i, dot - i);
        lemma_window_byte(a, i, b, j, n, dot - i);
        lemma_skip_blanks_moves(a, k, b, j + k - i);
        lemma_window_part(a, i, b, j, n, dot + 1 - i, next - i);
        lemma_window_byte(a, i, b, j, n, next - i);
        lemma_skip_blanks_moves(a, dot + 1, b, j + dot + 1 - i);
        lemma_window_part(a, i, b, j, n, next - i, n);
        lemma_path_end_moves(a, next, b, j + next - i);
    } else {
        assert(e == k);
        assert(r == dot);
        lemma_window_part(a, i, b, j, n, 0, k - i);
        if k < r {
            lemma_window_byte(a, i, b, j, n, k - i);
        }
        lemma_key_end_moves(a, i, b, j);
        lemma_window_part(a, i, b, j, n, k - i, n);
        lemma_skip_blanks_moves(a, k, b, j + k - i);
    }
}

/// A key that is a run of key bytes stops before a byte that is no key byte.
pub proof fn lemma_key_run_stops(a: Seq<u8>, i: int)
    requires
        0 <= i <= a.len(),
    ensures
        !(peek(a, key_run_end(a, i)) matches Some(x) && is_key_byte(x)),
    decreases a.len() - i,
{
    if i < a.len() && is_key_byte(a[i]) {
        lemma_key_run_stops(a, i + 1);
    }
}

/// The end of a line, after a value or a header, is found wherever its bytes
/// stand before a newline or the end of the text.
pub proof fn lemma_tail_end_moves(a: Seq<u8>, i: int, b: Seq<u8>, j: int)
    requires
        0 <= i <= a.len(),
        tail_end(a, i) is Some,
        same_window(a, i, b, j, tail_end(a, i)->0 - i),
        ends_line(peek(b, j + tail_end(a, i)->0 - i)),
    ensures
        tail_end(b, j) == Some(j + tail_end(a, i)->0 - i),
{
    lemma_skip_blanks_bounds(a, i);
    let e = tail_end(a, i)->0;
    let n = e - i;
    let start = skip_blanks(a, i);
    lemma_line_end_bounds(a, start);
    lemma_window_part(a, i, b, j, n, 0, start - i);
    if start < e {
        lemma_window_byte(a, i, b, j, n, start - i);
    }
    lemma_skip_blanks_moves(a, i, b, j);
    if start < a.len() && a[start] == HASH {
        lemma_window_part(a, i, b, j, n, start - i, n);
        lemma_line_end_moves(a, start, b, j + start - i);
    }
}

/// The rest of a line is found wherever the trivia that it starts, and the
/// byte after that trivia, stand.
pub proof fn lemma_line_rest_moves(a: Seq<u8>, i: int, b: Seq<u8>, j: int, n: int)
    requires
        0 <= i <= a.len(),
        same_window(a, i, b, j, n),
        skip_trivia(a, i, false) - i < n,
    ensures
        line_rest_end(b, j) == j + line_rest_end(a, i) - i,
{
    lemma_skip_blanks_bounds(a, i);
    lemma_skip_trivia_bounds(a, i, false);
    lemma_trivia_after_blanks(a, i);
    let start = skip_blanks(a, i);
    lemma_skip_trivia_bounds(a, start, false);
    lemma_line_end_bounds(a, start);
    lemma_window_part(a, i, b, j, n, 0, start - i);
    lemma_window_byte(a, i, b, j, n, start - i);
    lemma_skip_blanks_moves(a, i, b, j);
    if a[start] == HASH {
        let e = line_end(a, start);
        lemma_trivia_after_comment(a, start + 1);
        assert(line_end(a, start + 1) == e);
        assert(skip_trivia(a, start, false) == skip_trivia(a, e, true));
        if e < a.len() {
            lemma_skip_trivia_bounds(a, e + 1, false);
            lemma_window_part(a, i, b, j, n, start - i, e - i);
            lemma_window_byte(a, i, b, j, n, e - i);
            lemma_line_end_moves(a, start, b, j + start - i);
        }
    }
}


/// Whether the bytes of `p` from `i` on are all trivia, and if so, whether
/// they end inside a comment. `in_comment` says whether `i` lies inside one.
pub open spec fn trivia_state(p: Seq<u8>, i: int, in_comment: bool) -> Option<bool>
    decreases p.len() - i,
{
    if !(0 <= i < p.len()) {
        Some(in_comment)
    } else if in_comment {
        trivia_state(p, i + 1, p[i] != NEWLINE)
    } else if starts_trivia(p[i]) {
        trivia_state(p, i + 1, p[i] == HASH)
    } else {
        None
    }
}

/// Whether `p` is trivia that ends outside a comment: blanks, newlines and
/// comments, each comment with the newline that ends it.
pub open spec fn is_trivia(p: Seq<u8>) -> bool {
    trivia_state(p, 0, false) == Some(false)
}

/// Whether `p` is nothing but blanks.
pub open spec fn is_blanks(p: Seq<u8>) -> bool {
    forall|k: int| 0 <= k < p.len() ==> is_blank(#[trigger] p[k])
}

/// Trivia is passed wherever it stands: the trivia that starts where a piece
/// of trivia starts ends where the trivia after that piece ends.
pub proof fn lemma_trivia_passed(p: Seq<u8>, i: int, in_comment: bool, t: Seq<u8>, x: int)
    requires
        0 <= i <= p.len(),
        trivia_state(p, i, in_comment) is Some,
        same_window(p, 0, t, x, p.len() as int),
    ensures
        skip_trivia(t, x + i, in_comment) == skip_trivia(
            t,
            x + p.len(),
            trivia_state(p, i, in_comment)->0,
        ),
    decreases p.len() - i,
{
    if i < p.len() {
        lemma_window_byte(p, 0, t, x, p.len() as int, i);
        if in_comment {
            lemma_trivia_passed(p, i + 1, p[i] != NEWLINE, t, x);
        } else {
            lemma_trivia_passed(p, i + 1, p[i] == HASH, t, x);
        }
    }
}

/// Trivia that stops before a byte of the text, cut out of the text, is
/// trivia that ends outside a comment.
pub proof fn lemma_run_is_trivia(s: Seq<u8>, from: int, i: int, in_comment: bool)
    requires
        0 <= from <= i <= s.len(),
        skip_trivia(s, i, in_comment) < s.len(),
    ensures
        trivia_state(
            s.subrange(from, skip_trivia(s, i, in_comment)),
            i - from,
            in_comment,
        ) == Some(false),
    decreases s.len() - i,
{
    lemma_skip_trivia_bounds(s, i, in_comment);
    let e = skip_trivia(s, i, in_comment);
    let piece = s.subrange(from, e);
    if i < e {
        assert(piece[i - from] == s[i]);
        if in_comment {
            lemma_run_is_trivia(s, from, i + 1, s[i] != NEWLINE);
        } else {
            lemma_run_is_trivia(s, from, i + 1, s[i] == HASH);
        }
    } else {
        // The run stops here, before a byte: it is not inside a comment.
        if in_comment {
            lemma_skip_trivia_bounds(s, i + 1, s[i] != NEWLINE);
        }
    }
}

/// A comment with the newline that ends it is trivia.
proof fn lemma_comment_is_trivia(p: Seq<u8>, i: int)
    requires
        0 <= i < p.len(),
        p.last() == NEWLINE,
        forall|k: int| i <= k < p.len() - 1 ==> #[trigger] p[k] != NEWLINE,
    ensures
        trivia_state(p, i, true) == Some(false),
    decreases p.len() - i,
{
    if i < p.len() - 1 {
        assert(p[i] != NEWLINE);
        lemma_comment_is_trivia(p, i + 1);
    } else {
        assert(p[i] == p.last());
        assert(trivia_state(p, i + 1, false) == Some(false));
    }
}

/// Blanks, then maybe a comment, then a newline are trivia.
proof fn lemma_line_is_trivia(p: Seq<u8>, i: int, blanks: int)
    requires
        0 <= i <= blanks < p.len(),
        forall|k: int| i <= k < blanks ==> is_blank(#[trigger] p[k]),
        p.last() == NEWLINE,
        p[blanks] == HASH || blanks == p.len() - 1,
        forall|k: int| blanks <= k < p.len() - 1 ==> #[trigger] p[k] != NEWLINE,
    ensures
        trivia_state(p, i, false) == Some(false),
    decreases blanks - i,
{
    if i < blanks {
        assert(is_blank(p[i]));
        lemma_line_is_trivia(p, i + 1, blanks);
    } else if p[blanks] == HASH {
        if blanks + 1 < p.len() {
            lemma_comment_is_trivia(p, blanks + 1);
        }
    } else {
        assert(p[blanks] == NEWLINE);
    }
}

/// The rest of a line, cut out of the text, is trivia that ends outside a
/// comment.
pub proof fn lemma_line_rest_is_trivia(s: Seq<u8>, i: int)
    requires
        0 <= i <= s.len(),
    ensures
        i <= line_rest_end(s, i) <= s.len(),
        is_trivia(s.subrange(i, line_rest_end(s, i))),
{
    lemma_skip_blanks_bounds(s, i);
    let blanks = skip_blanks(s, i);
    let t = line_rest_end(s, i);
    if blanks < s.len() {
        lemma_line_end_bounds(s, blanks);
    }
    let piece = s.subrange(i, t);
    if t > i {
        assert forall|k: int| 0 <= k < blanks - i implies is_blank(#[trigger] piece[k]) by {
            assert(piece[k] == s[i + k]);
        }
        assert(piece.last() == s[t - 1]);
        assert(piece[blanks - i] == s[blanks]);
        assert forall|k: int| blanks - i <= k < piece.len() - 1 implies #[trigger] piece[k]
            != NEWLINE by {
            assert(piece[k] == s[i + k]);
        }
        lemma_line_is_trivia(piece, 0, blanks - i);
    }
}

/// Trivia that is not empty starts with a byte that starts trivia.
pub proof fn lemma_trivia_first(p: Seq<u8>)
    requires
        is_trivia(p),
        p.len() > 0,
    ensures
        starts_trivia(p[0]),
{
}

/// Blanks are found wherever they stand before a byte that is no blank.
pub proof fn lemma_blanks_passed(p: Seq<u8>, t: Seq<u8>, x: int)
    requires
        is_blanks(p),
        same_window(p, 0, t, x, p.len() as int),
        !(peek(t, x + p.len()) matches Some(b) && is_blank(b)),
    ensures
        skip_blanks(t, x) == x + p.len(),
{
    lemma_blanks_from(p, 0, t, x);
}

/// The blanks from the one at `i` on are found where they stand.
proof fn lemma_blanks_from(p: Seq<u8>, i: int, t: Seq<u8>, x: int)
    requires
        0 <= i <= p.len(),
        is_blanks(p),
        same_window(p, 0, t, x, p.len() as int),
        !(peek(t, x + p.len()) matches Some(b) && is_blank(b)),
    ensures
        skip_blanks(t, x + i) == x + p.len(),
    decreases p.len() - i,
{
    if i < p.len() {
        lemma_window_byte(p, 0, t, x, p.len() as int, i);
        assert(is_blank(p[i]));
        lemma_blanks_from(p, i + 1, t, x);
    }
}

/// Blanks that were skipped, cut out of the text, are blanks.
pub proof fn lemma_skipped_are_blanks(s: Seq<u8>, i: int)
    requires
        0 <= i <= s.len(),
    ensures
        is_blanks(s.subrange(i, skip_blanks(s, i))),
{
    lemma_skip_blanks_bounds(s, i);
    let piece = s.subrange(i, skip_blanks(s, i));
    assert forall|k: int| 0 <= k < piece.len() implies is_blank(#[trigger] piece[k]) by {
        assert(piece[k] == s[i + k]);
    }
}

} // verus!
