//! Lines are local: a logical line is read, piece for piece, wherever its
//! bytes stand before a newline or the end of the text.

use crate::document::header_closes;
use crate::document::lemma_header_parts;
use crate::document::lemma_header_scan;
use crate::document::lemma_line_scan_text;
use crate::document::lemma_pair_parts;
use crate::document::lemma_pair_scan;
use crate::document::line_scan;
use crate::locality::ends_line;
use crate::locality::lemma_line_end_moves;
use crate::locality::lemma_path_end_moves;
use crate::locality::lemma_skip_blanks_moves;
use crate::locality::lemma_tail_end_moves;
use crate::locality::lemma_window_byte;
use crate::locality::lemma_window_part;
use crate::locality::peek;
use crate::locality::same_window;
use crate::model::ValueView;
use crate::scan::is_blank;
use crate::scan::lemma_line_end_bounds;
use crate::scan::lemma_path_end_bounds;
use crate::scan::lemma_skip_blanks_bounds;
use crate::scan::lemma_tail_end_bounds;
use crate::scan::path_end;
use crate::scan::skip_blanks;
use crate::scan::tail_end;
use crate::scan::EQUALS;
use crate::scan::HASH;
use crate::scan::NEWLINE;
use crate::scan::OPEN_BRACKET;
use crate::value::lemma_value_at_text;
use crate::value::value_at;
use crate::value_locality::lemma_value_at_moves;
use vstd::prelude::*;

verus! {

/// A line is read, piece for piece, wherever its bytes stand before a newline
/// or the end of the text.
pub proof fn lemma_line_scan_moves(a: Seq<u8>, i: int, b: Seq<u8>, j: int)
    requires
        line_scan(a, i) is Some,
        same_window(a, i, b, j, (line_scan(a, i)->0).1 - i),
        ends_line(peek(b, j + (line_scan(a, i)->0).1 - i)),
    ensures
        line_scan(b, j) == Some(((line_scan(a, i)->0).0, j + (line_scan(a, i)->0).1 - i)),
{
    lemma_line_scan_text(a, i);
    let e = (line_scan(a, i)->0).1;
    let n = e - i;
    lemma_skip_blanks_bounds(a, i);
    let j0 = skip_blanks(a, i);
    if j0 == a.len() || a[j0] == NEWLINE || a[j0] == HASH {
        lemma_line_end_bounds(a, j0);
        lemma_window_part(a, i, b, j, n, 0, j0 - i);
        if j0 < e {
            lemma_window_byte(a, i, b, j, n, j0 - i);
        }
        lemma_skip_blanks_moves(a, i, b, j);
        lemma_window_part(a, i, b, j, n, j0 - i, n);
        lemma_line_end_moves(a, j0, b, j + j0 - i);
        lemma_window_part(a, i, b, j, n, 0, n);
    } else if a[j0] == OPEN_BRACKET {
        lemma_header_moves(a, i, b, j);
    } else {
        lemma_pair_moves(a, i, b, j);
    }
}

/// The pieces of a header are found wherever its bytes stand.
#[verifier::rlimit(40)]
proof fn lemma_header_pieces_move(
    a: Seq<u8>,
    i: int,
    b: Seq<u8>,
    j: int,
    j0: int,
    repeated: bool,
    start: int,
    end: int,
    c: int,
    e: int,
)
    requires
        0 <= i <= j0 < start < end <= c < e <= a.len(),
        skip_blanks(a, i) == j0,
        a[j0] == OPEN_BRACKET,
        repeated == (j0 + 1 < a.len() && a[j0 + 1] == OPEN_BRACKET),
        skip_blanks(a, j0 + (if repeated {
            2int
        } else {
            1int
        })) == start,
        path_end(a, start) == Some(end),
        skip_blanks(a, end) == c,
        header_closes(a, c, repeated),
        tail_end(a, c + (if repeated {
            2int
        } else {
            1int
        })) == Some(e),
        same_window(a, i, b, j, e - i),
        ends_line(peek(b, j + e - i)),
    ensures
        skip_blanks(b, j) == j0 + (j - i),
        b[j0 + (j - i)] == OPEN_BRACKET,
        repeated == (j0 + (j - i) + 1 < b.len() && b[j0 + (j - i) + 1] == OPEN_BRACKET),
        skip_blanks(b, j0 + (j - i) + (if repeated {
            2int
        } else {
            1int
        })) == start + (j - i),
        path_end(b, start + (j - i)) == Some(end + (j - i)),
        skip_blanks(b, end + (j - i)) == c + (j - i),
        header_closes(b, c + (j - i), repeated),
        tail_end(b, c + (j - i) + (if repeated {
            2int
        } else {
            1int
        })) == Some(e + (j - i)),
        b.subrange(j, start + (j - i)) == a.subrange(i, start),
        b.subrange(start + (j - i), end + (j - i)) == a.subrange(start, end),
        b.subrange(end + (j - i), e + (j - i)) == a.subrange(end, e),
{
    let n = e - i;
    let width: int = if repeated {
        2
    } else {
        1
    };
    lemma_tail_end_bounds(a, c + width);
    // The blanks before the bracket.
    lemma_window_part(a, i, b, j, n, 0, j0 - i);
    lemma_window_byte(a, i, b, j, n, j0 - i);
    lemma_skip_blanks_moves(a, i, b, j);
    lemma_window_byte(a, i, b, j, n, j0 + 1 - i);
    // The blanks after it and the name.
    lemma_window_part(a, i, b, j, n, j0 + width - i, start - i);
    lemma_window_byte(a, i, b, j, n, start - i);
    lemma_skip_blanks_moves(a, j0 + width, b, j + j0 + width - i);
    lemma_window_part(a, i, b, j, n, start - i, c - i);
    lemma_window_byte(a, i, b, j, n, c - i);
    lemma_path_end_moves(a, start, b, j + start - i);
    if repeated {
        lemma_window_byte(a, i, b, j, n, c + 1 - i);
    }
    // What ends the line.
    lemma_window_part(a, i, b, j, n, c + width - i, n);
    lemma_tail_end_moves(a, c + width, b, j + c + width - i);
    lemma_window_part(a, i, b, j, n, 0, start - i);
    lemma_window_part(a, i, b, j, n, start - i, end - i);
    lemma_window_part(a, i, b, j, n, end - i, n);
}

/// A header is read wherever its bytes stand.
proof fn lemma_header_moves(a: Seq<u8>, i: int, b: Seq<u8>, j: int)
    requires
        line_scan(a, i) is Some,
        0 <= i <= skip_blanks(a, i) < a.len(),
        a[skip_blanks(a, i)] == OPEN_BRACKET,
        same_window(a, i, b, j, (line_scan(a, i)->0).1 - i),
        ends_line(peek(b, j + (line_scan(a, i)->0).1 - i)),
    ensures
        line_scan(b, j) == Some(((line_scan(a, i)->0).0, j + (line_scan(a, i)->0).1 - i)),
{
    lemma_header_parts(a, i);
    let e = (line_scan(a, i)->0).1;
    let j0 = skip_blanks(a, i);
    let repeated = j0 + 1 < a.len() && a[j0 + 1] == OPEN_BRACKET;
    let width: int = if repeated {
        2
    } else {
        1
    };
    let start = skip_blanks(a, j0 + width);
    let end = path_end(a, start)->0;
    let c = skip_blanks(a, end);
    let d = j - i;
    lemma_header_pieces_move(a, i, b, j, j0, repeated, start, end, c, e);
    lemma_header_scan(b, j, j0 + d, repeated, start + d, end + d, c + d, e + d);
}

/// The pieces of a key with its value are found wherever its bytes stand.
#[verifier::rlimit(40)]
proof fn lemma_pair_pieces_move(
    a: Seq<u8>,
    i: int,
    b: Seq<u8>,
    j: int,
    j0: int,
    k: int,
    eq: int,
    start: int,
    value: ValueView,
    end: int,
    e: int,
)
    requires
        0 <= i <= j0 < k <= eq < start < end <= e <= a.len(),
        skip_blanks(a, i) == j0,
        path_end(a, j0) == Some(k),
        skip_blanks(a, k) == eq,
        a[eq] == EQUALS,
        skip_blanks(a, eq + 1) == start,
        value_at(a, start) == Some((value, end)),
        tail_end(a, end) == Some(e),
        end < e ==> is_blank(a[end]) || a[end] == HASH,
        same_window(a, i, b, j, e - i),
        ends_line(peek(b, j + e - i)),
    ensures
        skip_blanks(b, j) == j0 + (j - i),
        b[j0 + (j - i)] == a[j0],
        path_end(b, j0 + (j - i)) == Some(k + (j - i)),
        skip_blanks(b, k + (j - i)) == eq + (j - i),
        b[eq + (j - i)] == EQUALS,
        skip_blanks(b, eq + (j - i) + 1) == start + (j - i),
        value_at(b, start + (j - i)) == Some((value, end + (j - i))),
        tail_end(b, end + (j - i)) == Some(e + (j - i)),
        b.subrange(j, j0 + (j - i)) == a.subrange(i, j0),
        b.subrange(j0 + (j - i), k + (j - i)) == a.subrange(j0, k),
        b.subrange(k + (j - i), start + (j - i)) == a.subrange(k, start),
        b.subrange(end + (j - i), e + (j - i)) == a.subrange(end, e),
{
    let n = e - i;
    // The blanks before the key, and the key.
    lemma_window_part(a, i, b, j, n, 0, j0 - i);
    lemma_window_byte(a, i, b, j, n, j0 - i);
    lemma_skip_blanks_bounds(a, i);
    lemma_skip_blanks_moves(a, i, b, j);
    lemma_window_part(a, i, b, j, n, j0 - i, eq - i);
    lemma_window_byte(a, i, b, j, n, eq - i);
    lemma_path_end_moves(a, j0, b, j + j0 - i);
    // The blanks after the equals sign, and the value.
    lemma_window_part(a, i, b, j, n, eq + 1 - i, start - i);
    lemma_window_byte(a, i, b, j, n, start - i);
    lemma_skip_blanks_bounds(a, eq + 1);
    lemma_skip_blanks_moves(a, eq + 1, b, j + eq + 1 - i);
    lemma_window_part(a, i, b, j, n, start - i, end - i);
    if end < e {
        lemma_window_byte(a, i, b, j, n, end - i);
    }
    lemma_value_at_moves(a, start, b, j + start - i);
    // What ends the line.
    lemma_window_part(a, i, b, j, n, end - i, n);
    lemma_tail_end_moves(a, end, b, j + end - i);
    lemma_window_part(a, i, b, j, n, 0, j0 - i);
    lemma_window_part(a, i, b, j, n, j0 - i, k - i);
    lemma_window_part(a, i, b, j, n, k - i, start - i);
}

/// A key with its value is read wherever its bytes stand.
proof fn lemma_pair_moves(a: Seq<u8>, i: int, b: Seq<u8>, j: int)
    requires
        line_scan(a, i) is Some,
        0 <= i <= skip_blanks(a, i) < a.len(),
        a[skip_blanks(a, i)] != OPEN_BRACKET,
        a[skip_blanks(a, i)] != NEWLINE,
        a[skip_blanks(a, i)] != HASH,
        same_window(a, i, b, j, (line_scan(a, i)->0).1 - i),
        ends_line(peek(b, j + (line_scan(a, i)->0).1 - i)),
    ensures
        line_scan(b, j) == Some(((line_scan(a, i)->0).0, j + (line_scan(a, i)->0).1 - i)),
{
    lemma_pair_parts(a, i);
    let e = (line_scan(a, i)->0).1;
    let j0 = skip_blanks(a, i);
    let k = path_end(a, j0)->0;
    let eq = skip_blanks(a, k);
    let start = skip_blanks(a, eq + 1);
    let value = (value_at(a, start)->0).0;
    let end = (value_at(a, start)->0).1;
    let d = j - i;
    lemma_pair_pieces_move(a, i, b, j, j0, k, eq, start, value, end, e);
    lemma_pair_scan(b, j, j0 + d, k + d, eq + d, start + d, value, end + d, e + d);
}

} // verus!
