//! Values are local: a value, an array or an inline table is found wherever
//! its bytes stand, before a byte that can follow a value.

use crate::locality::ends_value;
use crate::locality::lemma_line_rest_moves;
use crate::locality::lemma_path_end_moves;
use crate::locality::lemma_plain_run_moves;
use crate::locality::lemma_skip_blanks_moves;
use crate::locality::lemma_skip_trivia_moves;
use crate::locality::lemma_string_end_moves;
use crate::locality::lemma_window_byte;
use crate::locality::lemma_window_part;
use crate::locality::peek;
use crate::locality::same_window;
use crate::locality::starts_trivia;
use crate::model::ItemView;
use crate::scan::lemma_line_rest_bounds;
use crate::scan::lemma_path_end_bounds;
use crate::scan::lemma_skip_blanks_bounds;
use crate::scan::lemma_skip_trivia_bounds;
use crate::scan::line_rest_end;
use crate::scan::path_end;
use crate::scan::skip_blanks;
use crate::scan::skip_trivia;
use crate::scan::APOSTROPHE;
use crate::scan::CLOSE_BRACE;
use crate::scan::CLOSE_BRACKET;
use crate::scan::COMMA;
use crate::scan::HASH;
use crate::scan::NEWLINE;
use crate::scan::OPEN_BRACE;
use crate::scan::OPEN_BRACKET;
use crate::scan::QUOTE;
use crate::value::array_from;
use crate::value::array_scan;
use crate::value::lemma_array_from_bounds;
use crate::value::lemma_array_scan_bounds;
use crate::value::lemma_table_end_bounds;
use crate::value::lemma_value_end_bounds;
use crate::value::table_end;
use crate::value::value_at;
use crate::value::value_end;
use crate::value::MAX_DEPTH;
use vstd::prelude::*;

verus! {

/// Trivia that goes on starts with a byte that starts trivia.
pub proof fn lemma_trivia_starts(s: Seq<u8>, i: int)
    requires
        0 <= i <= s.len(),
    ensures
        skip_trivia(s, i, false) > i ==> i < s.len() && starts_trivia(s[i]),
        skip_trivia(s, i, false) < s.len() ==> !starts_trivia(s[skip_trivia(s, i, false)]),
{
    lemma_trivia_stops(s, i, false);
}

/// Trivia that stops before the end of the text stops outside a comment,
/// before a byte that starts no trivia.
pub proof fn lemma_trivia_stops(s: Seq<u8>, i: int, in_comment: bool)
    requires
        0 <= i <= s.len(),
    ensures
        skip_trivia(s, i, in_comment) < s.len() ==> !starts_trivia(
            s[skip_trivia(s, i, in_comment)],
        ),
        skip_trivia(s, i, in_comment) == i && i < s.len() ==> !in_comment,
    decreases s.len() - i,
{
    lemma_skip_trivia_bounds(s, i, in_comment);
    if i < s.len() {
        if in_comment {
            lemma_trivia_stops(s, i + 1, s[i] != NEWLINE);
            lemma_skip_trivia_bounds(s, i + 1, s[i] != NEWLINE);
        } else if starts_trivia(s[i]) {
            lemma_trivia_stops(s, i + 1, s[i] == HASH);
            lemma_skip_trivia_bounds(s, i + 1, s[i] == HASH);
        }
    }
}

/// A value is found wherever its bytes stand before a byte that can follow a
/// value.
pub proof fn lemma_value_end_moves(a: Seq<u8>, i: int, b: Seq<u8>, j: int, depth: nat)
    requires
        value_end(a, i, depth) is Some,
        same_window(a, i, b, j, value_end(a, i, depth)->0 - i),
        ends_value(peek(b, j + value_end(a, i, depth)->0 - i)),
    ensures
        value_end(b, j, depth) == Some(j + value_end(a, i, depth)->0 - i),
    decreases depth, a.len() - i, 0int,
{
    lemma_value_end_bounds(a, i, depth);
    let e = value_end(a, i, depth)->0;
    let n = e - i;
    lemma_window_byte(a, i, b, j, n, 0);
    if a[i] == QUOTE || a[i] == APOSTROPHE {
        lemma_string_end_moves(a, i, b, j);
    } else if a[i] == OPEN_BRACKET {
        lemma_window_part(a, i, b, j, n, 1, n);
        lemma_array_from_moves(a, i + 1, b, j + 1, (depth - 1) as nat);
    } else if a[i] == OPEN_BRACE {
        lemma_window_part(a, i, b, j, n, 1, n);
        lemma_table_end_moves(a, i + 1, b, j + 1, (depth - 1) as nat);
    } else {
        lemma_plain_run_moves(a, i, b, j);
    }
}

/// An array is found, item for item, wherever its bytes stand.
pub proof fn lemma_array_from_moves(a: Seq<u8>, i: int, b: Seq<u8>, j: int, depth: nat)
    requires
        array_from(a, i, depth) is Some,
        same_window(a, i, b, j, (array_from(a, i, depth)->0).1 - i),
    ensures
        array_from(b, j, depth) == Some(
            ((array_from(a, i, depth)->0).0, j + (array_from(a, i, depth)->0).1 - i),
        ),
    decreases depth, a.len() - i, 2int,
{
    lemma_array_from_bounds(a, i, depth);
    lemma_line_rest_bounds(a, i);
    let e = (array_from(a, i, depth)->0).1;
    let n = e - i;
    let h = line_rest_end(a, i);
    lemma_line_rest_moves(a, i, b, j, n);
    lemma_window_part(a, i, b, j, n, 0, h - i);
    lemma_window_part(a, i, b, j, n, h - i, n);
    lemma_array_scan_moves(a, h, b, j + h - i, depth, a.subrange(i, h), Seq::empty(), false);
}

/// The rest of an array is found, item for item, wherever its bytes stand.
#[verifier::rlimit(40)]
pub proof fn lemma_array_scan_moves(
    a: Seq<u8>,
    i: int,
    b: Seq<u8>,
    j: int,
    depth: nat,
    head: Seq<u8>,
    items: Seq<ItemView>,
    after_comma: bool,
)
    requires
        array_scan(a, i, depth, head, items, after_comma) is Some,
        same_window(a, i, b, j, (array_scan(a, i, depth, head, items, after_comma)->0).1 - i),
    ensures
        array_scan(b, j, depth, head, items, after_comma) == Some(
            (
                (array_scan(a, i, depth, head, items, after_comma)->0).0,
                j + (array_scan(a, i, depth, head, items, after_comma)->0).1 - i,
            ),
        ),
    decreases depth, a.len() - i, 1int,
{
    lemma_array_scan_bounds(a, i, depth, head, items, after_comma);
    let e = (array_scan(a, i, depth, head, items, after_comma)->0).1;
    let n = e - i;
    let j1 = skip_trivia(a, i, false);
    lemma_window_part(a, i, b, j, n, 0, j1 - i);
    lemma_window_byte(a, i, b, j, n, j1 - i);
    lemma_trivia_starts(a, i);
    lemma_skip_trivia_moves(a, i, b, j, false);
    if a[j1] != CLOSE_BRACKET {
        let v = value_end(a, j1, depth)->0;
        let k = skip_trivia(a, v, false);
        assert(j1 < v <= k < a.len());
        if a[k] == COMMA {
            let t = line_rest_end(a, k + 1);
            let item = ItemView {
                prefix: a.subrange(i, j1),
                value: a.subrange(j1, v),
                suffix: a.subrange(v, k),
                tail: a.subrange(k + 1, t),
            };
            lemma_array_scan_bounds(a, t, depth, head, items.push(item), true);
        }
        assert(k < e);
        lemma_trivia_starts(a, v);
        lemma_window_part(a, i, b, j, n, j1 - i, v - i);
        lemma_window_byte(a, i, b, j, n, v - i);
        lemma_value_end_moves(a, j1, b, j + j1 - i, depth);
        lemma_window_part(a, i, b, j, n, v - i, k - i);
        lemma_window_byte(a, i, b, j, n, k - i);
        lemma_skip_trivia_moves(a, v, b, j + v - i, false);
        if a[k] == COMMA {
            let t = line_rest_end(a, k + 1);
            let item = ItemView {
                prefix: a.subrange(i, j1),
                value: a.subrange(j1, v),
                suffix: a.subrange(v, k),
                tail: a.subrange(k + 1, t),
            };
            lemma_array_scan_bounds(a, t, depth, head, items.push(item), true);
            lemma_line_rest_bounds(a, k + 1);
            lemma_window_part(a, i, b, j, n, k + 1 - i, n);
            lemma_line_rest_moves(a, k + 1, b, j + k + 1 - i, n - (k + 1 - i));
            lemma_window_part(a, i, b, j, n, k + 1 - i, t - i);
            lemma_window_part(a, i, b, j, n, t - i, n);
            lemma_array_scan_moves(a, t, b, j + t - i, depth, head, items.push(item), true);
        } else {
            let t = line_rest_end(a, v);
            lemma_line_rest_bounds(a, v);
            lemma_window_part(a, i, b, j, n, v - i, n);
            lemma_line_rest_moves(a, v, b, j + v - i, n - (v - i));
            lemma_window_part(a, i, b, j, n, v - i, t - i);
            lemma_window_part(a, i, b, j, n, t - i, k - i);
        }
    }
}

/// An inline table is found wherever its bytes stand.
#[verifier::rlimit(40)]
pub proof fn lemma_table_end_moves(a: Seq<u8>, i: int, b: Seq<u8>, j: int, depth: nat)
    requires
        table_end(a, i, depth) is Some,
        same_window(a, i, b, j, table_end(a, i, depth)->0 - i),
    ensures
        table_end(b, j, depth) == Some(j + table_end(a, i, depth)->0 - i),
    decreases depth, a.len() - i, 1int,
{
    lemma_table_end_bounds(a, i, depth);
    let e = table_end(a, i, depth)->0;
    let n = e - i;
    let j1 = skip_trivia(a, i, false);
    lemma_window_part(a, i, b, j, n, 0, j1 - i);
    lemma_window_byte(a, i, b, j, n, j1 - i);
    lemma_trivia_starts(a, i);
    lemma_skip_trivia_moves(a, i, b, j, false);
    if a[j1] != CLOSE_BRACE {
        lemma_path_end_bounds(a, j1);
        let p = path_end(a, j1)->0;
        lemma_skip_blanks_bounds(a, p);
        let eq = skip_blanks(a, p);
        lemma_skip_blanks_bounds(a, eq + 1);
        let start = skip_blanks(a, eq + 1);
        lemma_value_end_bounds(a, start, depth);
        let v = value_end(a, start, depth)->0;
        lemma_trivia_starts(a, v);
        let k = skip_trivia(a, v, false);
        assert(j1 < p <= eq < start < v <= k < a.len());
        if a[k] == COMMA {
            lemma_table_end_bounds(a, k + 1, depth);
        }
        assert(k < e);
        lemma_window_part(a, i, b, j, n, j1 - i, eq - i);
        lemma_window_byte(a, i, b, j, n, eq - i);
        lemma_path_end_moves(a, j1, b, j + j1 - i);
        lemma_window_part(a, i, b, j, n, eq + 1 - i, start - i);
        lemma_window_byte(a, i, b, j, n, start - i);
        lemma_skip_blanks_moves(a, eq + 1, b, j + eq + 1 - i);
        lemma_window_part(a, i, b, j, n, start - i, v - i);
        lemma_window_byte(a, i, b, j, n, v - i);
        lemma_value_end_moves(a, start, b, j + start - i, depth);
        lemma_window_part(a, i, b, j, n, v - i, k - i);
        lemma_window_byte(a, i, b, j, n, k - i);
        lemma_skip_trivia_moves(a, v, b, j + v - i, false);
        if a[k] == COMMA {
            lemma_table_end_bounds(a, k + 1, depth);
            lemma_window_part(a, i, b, j, n, k + 1 - i, n);
            lemma_table_end_moves(a, k + 1, b, j + k + 1 - i, depth);
        }
    }
}

/// The value of a key is found, item for item, wherever its bytes stand
/// before a byte that can follow a value.
pub proof fn lemma_value_at_moves(a: Seq<u8>, i: int, b: Seq<u8>, j: int)
    requires
        value_at(a, i) is Some,
        same_window(a, i, b, j, (value_at(a, i)->0).1 - i),
        ends_value(peek(b, j + (value_at(a, i)->0).1 - i)),
    ensures
        value_at(b, j) == Some(((value_at(a, i)->0).0, j + (value_at(a, i)->0).1 - i)),
{
    let e = (value_at(a, i)->0).1;
    let n = e - i;
    if 0 <= i < a.len() && a[i] == OPEN_BRACKET {
        lemma_array_from_bounds(a, i + 1, (MAX_DEPTH - 1) as nat);
        lemma_window_byte(a, i, b, j, n, 0);
        lemma_window_part(a, i, b, j, n, 1, n);
        lemma_array_from_moves(a, i + 1, b, j + 1, (MAX_DEPTH - 1) as nat);
    } else {
        lemma_value_end_bounds(a, i, MAX_DEPTH as nat);
        lemma_window_byte(a, i, b, j, n, 0);
        lemma_window_part(a, i, b, j, n, 0, n);
        lemma_value_end_moves(a, i, b, j, MAX_DEPTH as nat);
    }
}

} // verus!
