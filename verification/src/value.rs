//! Values: strings, plain values, arrays and inline tables, nested up to a
//! fixed depth.

use crate::bytes::copy_range;
use crate::model::followed_text;
use crate::model::items_text;
use crate::model::items_view;
use crate::model::Array;
use crate::model::ArrayView;
use crate::model::Item;
use crate::model::ItemView;
use crate::model::Value;
use crate::model::ValueView;
use crate::scan::is_plain_byte;
use crate::scan::lemma_line_rest_bounds;
use crate::scan::lemma_plain_run_bounds;
use crate::scan::lemma_string_end_bounds;
use crate::scan::line_rest_end;
use crate::scan::path_end;
use crate::scan::plain_byte;
use crate::scan::plain_run_end;
use crate::scan::scan_blanks;
use crate::scan::scan_line_rest;
use crate::scan::scan_path;
use crate::scan::scan_plain_run;
use crate::scan::scan_string;
use crate::scan::scan_trivia;
use crate::scan::skip_blanks;
use crate::scan::skip_trivia;
use crate::scan::string_end;
use crate::scan::APOSTROPHE;
use crate::scan::CLOSE_BRACE;
use crate::scan::CLOSE_BRACKET;
use crate::scan::COMMA;
use crate::scan::EQUALS;
use crate::scan::OPEN_BRACE;
use crate::scan::OPEN_BRACKET;
use crate::scan::QUOTE;
use vstd::prelude::*;

verus! {

/// How deep arrays and inline tables may nest.
pub const MAX_DEPTH: usize = 64;

/// The end of the value that starts at `i`. Arrays and inline tables may nest
/// `depth` levels below it.
pub open spec fn value_end(s: Seq<u8>, i: int, depth: nat) -> Option<int>
    decreases depth, s.len() - i, 0int,
{
    if !(0 <= i < s.len()) {
        None
    } else if s[i] == QUOTE || s[i] == APOSTROPHE {
        string_end(s, i)
    } else if s[i] == OPEN_BRACKET {
        if depth > 0 {
            match array_from(s, i + 1, (depth - 1) as nat) {
                Some((_, e)) => Some(e),
                None => None,
            }
        } else {
            None
        }
    } else if s[i] == OPEN_BRACE {
        if depth > 0 {
            table_end(s, i + 1, (depth - 1) as nat)
        } else {
            None
        }
    } else if is_plain_byte(s[i]) {
        Some(plain_run_end(s, i))
    } else {
        None
    }
}

/// The array whose opening bracket stands before `i`, with the position
/// after its closing bracket.
pub open spec fn array_from(s: Seq<u8>, i: int, depth: nat) -> Option<(ArrayView, int)>
    decreases depth, s.len() - i, 2int,
{
    let h = line_rest_end(s, i);
    if 0 <= i <= h <= s.len() {
        array_scan(s, h, depth, s.subrange(i, h), Seq::empty(), false)
    } else {
        None
    }
}

/// The rest of an array from `i`, which is the position after the head or
/// after the tail of an item that a comma follows: the items that follow are
/// added to `items`, and the result is the array with the position after its
/// closing bracket.
///
/// What stands before a value is the item's prefix. What stands between a
/// value and the comma after it is the item's suffix. The rest of the line
/// after that comma, or after the value where no comma follows, is the item's
/// tail. What stands before the closing bracket and belongs to no item is the
/// array's trailing text.
pub open spec fn array_scan(
    s: Seq<u8>,
    i: int,
    depth: nat,
    head: Seq<u8>,
    items: Seq<ItemView>,
    after_comma: bool,
) -> Option<(ArrayView, int)>
    decreases depth, s.len() - i, 1int,
{
    let j = skip_trivia(s, i, false);
    if !(0 <= i <= j < s.len()) {
        None
    } else if s[j] == CLOSE_BRACKET {
        Some(
            (
                ArrayView { head, items, trailing_comma: after_comma, trailing: s.subrange(i, j) },
                j + 1,
            ),
        )
    } else {
        match value_end(s, j, depth) {
            None => None,
            Some(v) => {
                let k = skip_trivia(s, v, false);
                if !(j < v <= k < s.len()) {
                    None
                } else if s[k] == COMMA {
                    let t = line_rest_end(s, k + 1);
                    if !(k < t <= s.len()) {
                        None
                    } else {
                        let item = ItemView {
                            prefix: s.subrange(i, j),
                            value: s.subrange(j, v),
                            suffix: s.subrange(v, k),
                            tail: s.subrange(k + 1, t),
                        };
                        array_scan(s, t, depth, head, items.push(item), true)
                    }
                } else if s[k] == CLOSE_BRACKET {
                    let t = line_rest_end(s, v);
                    if !(v <= t <= k) {
                        None
                    } else {
                        let item = ItemView {
                            prefix: s.subrange(i, j),
                            value: s.subrange(j, v),
                            suffix: Seq::empty(),
                            tail: s.subrange(v, t),
                        };
                        Some(
                            (
                                ArrayView {
                                    head,
                                    items: items.push(item),
                                    trailing_comma: false,
                                    trailing: s.subrange(t, k),
                                },
                                k + 1,
                            ),
                        )
                    }
                } else {
                    None
                }
            },
        }
    }
}

/// The position after the brace that closes an inline table, from `i`, which
/// is the position after the opening brace or after a comma.
pub open spec fn table_end(s: Seq<u8>, i: int, depth: nat) -> Option<int>
    decreases depth, s.len() - i, 1int,
{
    let j = skip_trivia(s, i, false);
    if !(0 <= i <= j < s.len()) {
        None
    } else if s[j] == CLOSE_BRACE {
        Some(j + 1)
    } else {
        match path_end(s, j) {
            None => None,
            Some(p) => {
                let eq = skip_blanks(s, p);
                let start = skip_blanks(s, eq + 1);
                if !(j < p <= eq < start <= s.len() && s[eq] == EQUALS) {
                    None
                } else {
                    match value_end(s, start, depth) {
                        None => None,
                        Some(v) => {
                            let k = skip_trivia(s, v, false);
                            if !(start < v <= k < s.len()) {
                                None
                            } else if s[k] == COMMA {
                                table_end(s, k + 1, depth)
                            } else if s[k] == CLOSE_BRACE {
                                Some(k + 1)
                            } else {
                                None
                            }
                        },
                    }
                }
            },
        }
    }
}

/// Finds the end of the value that starts at `i`.
pub fn scan_value(s: &[u8], i: usize, depth: usize) -> (r: Option<usize>)
    requires
        i <= s@.len(),
    ensures
        match r {
            Some(e) => value_end(s@, i as int, depth as nat) == Some(e as int) && i < e
                <= s@.len(),
            None => value_end(s@, i as int, depth as nat) is None,
        },
    decreases depth, 0int,
{
    if i >= s.len() {
        return None;
    }
    let b = s[i];
    if b == QUOTE || b == APOSTROPHE {
        scan_string(s, i)
    } else if b == OPEN_BRACKET {
        if depth > 0 {
            match scan_array(s, i + 1, depth - 1) {
                Some((_, e)) => Some(e),
                None => None,
            }
        } else {
            None
        }
    } else if b == OPEN_BRACE {
        if depth > 0 {
            scan_table(s, i + 1, depth - 1)
        } else {
            None
        }
    } else if plain_byte(b) {
        proof {
            lemma_plain_run_bounds(s@, i as int);
        }
        Some(scan_plain_run(s, i))
    } else {
        None
    }
}

/// Reads the array whose opening bracket stands before `i`.
#[verifier::rlimit(40)]
pub fn scan_array(s: &[u8], i: usize, depth: usize) -> (r: Option<(Array, usize)>)
    requires
        i <= s@.len(),
    ensures
        match r {
            Some((array, e)) => array_from(s@, i as int, depth as nat) == Some(
                (array@, e as int),
            ) && i < e <= s@.len(),
            None => array_from(s@, i as int, depth as nat) is None,
        },
    decreases depth, 1int,
{
    let h = scan_line_rest(s, i);
    let head = copy_range(s, i, h);
    let mut items: Vec<Item> = Vec::new();
    let mut pos: usize = h;
    let mut after_comma = false;
    assert(items_view(items@) =~= Seq::empty());
    loop
        invariant
            i <= pos <= s@.len(),
            array_from(s@, i as int, depth as nat) == array_scan(
                s@,
                pos as int,
                depth as nat,
                head@,
                items_view(items@),
                after_comma,
            ),
        decreases s@.len() - pos,
    {
        let j = scan_trivia(s, pos);
        if j >= s.len() {
            return None;
        }
        if s[j] == CLOSE_BRACKET {
            let array = Array {
                head,
                items,
                trailing_comma: after_comma,
                trailing: copy_range(s, pos, j),
            };
            return Some((array, j + 1));
        }
        let v = match scan_value(s, j, depth) {
            Some(v) => v,
            None => {
                return None;
            },
        };
        let k = scan_trivia(s, v);
        if k >= s.len() {
            return None;
        }
        if s[k] == COMMA {
            let t = scan_line_rest(s, k + 1);
            let item = Item {
                prefix: copy_range(s, pos, j),
                value: copy_range(s, j, v),
                suffix: copy_range(s, v, k),
                tail: copy_range(s, k + 1, t),
            };
            assert(items_view(items@.push(item)) =~= items_view(items@).push(item@));
            items.push(item);
            pos = t;
            after_comma = true;
        } else if s[k] == CLOSE_BRACKET {
            let t = scan_line_rest(s, v);
            proof {
                lemma_line_rest_bounds(s@, v as int);
            }
            let item = Item {
                prefix: copy_range(s, pos, j),
                value: copy_range(s, j, v),
                suffix: Vec::new(),
                tail: copy_range(s, v, t),
            };
            assert(items_view(items@.push(item)) =~= items_view(items@).push(item@));
            items.push(item);
            let array = Array {
                head,
                items,
                trailing_comma: false,
                trailing: copy_range(s, t, k),
            };
            return Some((array, k + 1));
        } else {
            return None;
        }
    }
}

/// Finds the end of an inline table from the position after its opening brace.
pub fn scan_table(s: &[u8], i: usize, depth: usize) -> (r: Option<usize>)
    requires
        i <= s@.len(),
    ensures
        match r {
            Some(e) => table_end(s@, i as int, depth as nat) == Some(e as int) && i < e
                <= s@.len(),
            None => table_end(s@, i as int, depth as nat) is None,
        },
    decreases depth, 1int,
{
    let mut pos: usize = i;
    loop
        invariant
            i <= pos <= s@.len(),
            table_end(s@, i as int, depth as nat) == table_end(s@, pos as int, depth as nat),
        decreases s@.len() - pos,
    {
        let j = scan_trivia(s, pos);
        if j >= s.len() {
            return None;
        }
        if s[j] == CLOSE_BRACE {
            return Some(j + 1);
        }
        let p = match scan_path(s, j) {
            Some(p) => p,
            None => {
                return None;
            },
        };
        let eq = scan_blanks(s, p);
        if eq >= s.len() || s[eq] != EQUALS {
            return None;
        }
        let start = scan_blanks(s, eq + 1);
        let v = match scan_value(s, start, depth) {
            Some(v) => v,
            None => {
                return None;
            },
        };
        let k = scan_trivia(s, v);
        if k >= s.len() {
            return None;
        }
        if s[k] == COMMA {
            pos = k + 1;
        } else if s[k] == CLOSE_BRACE {
            return Some(k + 1);
        } else {
            return None;
        }
    }
}


/// The value of a key that starts at `i`, with the position after it. An
/// array is cut into its items; any other value is kept as written.
pub open spec fn value_at(s: Seq<u8>, i: int) -> Option<(ValueView, int)> {
    if 0 <= i < s.len() && s[i] == OPEN_BRACKET {
        match array_from(s, i + 1, (MAX_DEPTH - 1) as nat) {
            Some((array, e)) => Some((ValueView::Array(array), e)),
            None => None,
        }
    } else {
        match value_end(s, i, MAX_DEPTH as nat) {
            Some(e) => Some((ValueView::Plain(s.subrange(i, e)), e)),
            None => None,
        }
    }
}

/// The rest of an array ends within the text, after the trivia that it
/// starts with.
pub proof fn lemma_array_scan_bounds(
    s: Seq<u8>,
    i: int,
    depth: nat,
    head: Seq<u8>,
    items: Seq<ItemView>,
    after_comma: bool,
)
    ensures
        array_scan(s, i, depth, head, items, after_comma) matches Some((_, e)) ==> 0 <= i
            <= skip_trivia(s, i, false) < e <= s.len(),
    decreases s.len() - i,
{
    let j = skip_trivia(s, i, false);
    if 0 <= i <= j < s.len() && s[j] != CLOSE_BRACKET {
        match value_end(s, j, depth) {
            None => {},
            Some(v) => {
                let k = skip_trivia(s, v, false);
                let t = line_rest_end(s, k + 1);
                if j < v <= k < s.len() && s[k] == COMMA && k < t <= s.len() {
                    let item = ItemView {
                        prefix: s.subrange(i, j),
                        value: s.subrange(j, v),
                        suffix: s.subrange(v, k),
                        tail: s.subrange(k + 1, t),
                    };
                    lemma_array_scan_bounds(s, t, depth, head, items.push(item), true);
                }
            },
        }
    }
}

/// An array ends within the text, after the trivia that it starts with.
pub proof fn lemma_array_from_bounds(s: Seq<u8>, i: int, depth: nat)
    ensures
        array_from(s, i, depth) matches Some((_, e)) ==> 0 <= i <= skip_trivia(s, i, false) < e
            <= s.len(),
{
    let h = line_rest_end(s, i);
    if 0 <= i <= h <= s.len() {
        lemma_line_rest_bounds(s, i);
        lemma_array_scan_bounds(s, h, depth, s.subrange(i, h), Seq::empty(), false);
    }
}

/// An inline table ends within the text, after the trivia that it starts
/// with.
pub proof fn lemma_table_end_bounds(s: Seq<u8>, i: int, depth: nat)
    ensures
        table_end(s, i, depth) matches Some(e) ==> 0 <= i <= skip_trivia(s, i, false) < e
            <= s.len(),
    decreases s.len() - i,
{
    let j = skip_trivia(s, i, false);
    if 0 <= i <= j < s.len() && s[j] != CLOSE_BRACE {
        match path_end(s, j) {
            None => {},
            Some(p) => {
                let eq = skip_blanks(s, p);
                let start = skip_blanks(s, eq + 1);
                if j < p <= eq < start <= s.len() && s[eq] == EQUALS {
                    match value_end(s, start, depth) {
                        None => {},
                        Some(v) => {
                            let k = skip_trivia(s, v, false);
                            if start < v <= k < s.len() && s[k] == COMMA {
                                lemma_table_end_bounds(s, k + 1, depth);
                            }
                        },
                    }
                }
            },
        }
    }
}

/// A value is not empty and ends within the text.
pub proof fn lemma_value_end_bounds(s: Seq<u8>, i: int, depth: nat)
    ensures
        value_end(s, i, depth) matches Some(e) ==> 0 <= i < e <= s.len(),
{
    if 0 <= i < s.len() {
        lemma_string_end_bounds(s, i);
        lemma_plain_run_bounds(s, i);
        if depth > 0 {
            lemma_array_from_bounds(s, i + 1, (depth - 1) as nat);
            lemma_table_end_bounds(s, i + 1, (depth - 1) as nat);
        }
    }
}

/// A text between brackets, with its brackets, is the text from the one
/// bracket to the other.
proof fn lemma_bracketed(s: Seq<u8>, open: int, close: int, inner: Seq<u8>)
    requires
        0 <= open < close < s.len(),
        s[open] == OPEN_BRACKET,
        s[close] == CLOSE_BRACKET,
        inner == s.subrange(open + 1, close),
    ensures
        seq![OPEN_BRACKET] + inner + seq![CLOSE_BRACKET] == s.subrange(open, close + 1),
{
    assert(seq![OPEN_BRACKET] + inner + seq![CLOSE_BRACKET] =~= s.subrange(open, close + 1));
}

/// The text of an item that was cut out of a text.
proof fn lemma_item_text(s: Seq<u8>, i: int, j: int, v: int, k: int, t: int)
    requires
        0 <= i <= j <= v <= k < t <= s.len(),
        s[k] == COMMA,
    ensures
        (ItemView {
            prefix: s.subrange(i, j),
            value: s.subrange(j, v),
            suffix: s.subrange(v, k),
            tail: s.subrange(k + 1, t),
        }).text(true) == s.subrange(i, t),
{
    let item = ItemView {
        prefix: s.subrange(i, j),
        value: s.subrange(j, v),
        suffix: s.subrange(v, k),
        tail: s.subrange(k + 1, t),
    };
    assert(item.text(true) =~= s.subrange(i, t));
}

/// The text of a last item that was cut out of a text.
proof fn lemma_last_item_text(s: Seq<u8>, i: int, j: int, v: int, t: int)
    requires
        0 <= i <= j <= v <= t <= s.len(),
    ensures
        (ItemView {
            prefix: s.subrange(i, j),
            value: s.subrange(j, v),
            suffix: Seq::empty(),
            tail: s.subrange(v, t),
        }).text(false) == s.subrange(i, t),
{
    let item = ItemView {
        prefix: s.subrange(i, j),
        value: s.subrange(j, v),
        suffix: Seq::empty(),
        tail: s.subrange(v, t),
    };
    assert(item.text(false) =~= s.subrange(i, t));
}

/// An array that was read spells the text it was read from: with `open` the
/// position of the opening bracket, and the head and the items read so far,
/// each with its comma, spelling the text between that bracket and `i`, the
/// finished array spells the text from `open` to its end.
#[verifier::rlimit(40)]
pub proof fn lemma_array_scan_text(
    s: Seq<u8>,
    open: int,
    i: int,
    depth: nat,
    head: Seq<u8>,
    items: Seq<ItemView>,
    after_comma: bool,
)
    requires
        0 <= open < i <= s.len(),
        s[open] == OPEN_BRACKET,
        after_comma == (items.len() > 0),
        s.subrange(open + 1, i) == head + followed_text(items),
    ensures
        array_scan(s, i, depth, head, items, after_comma) matches Some((array, e)) ==> i < e
            <= s.len() && array.text() == s.subrange(open, e),
    decreases s.len() - i,
{
    let j = skip_trivia(s, i, false);
    let read = s.subrange(open + 1, i);
    if 0 <= i <= j < s.len() {
        if s[j] == CLOSE_BRACKET {
            let array = ArrayView {
                head,
                items,
                trailing_comma: after_comma,
                trailing: s.subrange(i, j),
            };
            assert(items_text(items, after_comma) == followed_text(items));
            assert(array.inner_text() == read + s.subrange(i, j));
            assert(read + s.subrange(i, j) =~= s.subrange(open + 1, j));
            lemma_bracketed(s, open, j, array.inner_text());
        } else {
            match value_end(s, j, depth) {
                None => {},
                Some(v) => {
                    let k = skip_trivia(s, v, false);
                    if j < v <= k < s.len() {
                        if s[k] == COMMA {
                            let t = line_rest_end(s, k + 1);
                            if k < t <= s.len() {
                                let item = ItemView {
                                    prefix: s.subrange(i, j),
                                    value: s.subrange(j, v),
                                    suffix: s.subrange(v, k),
                                    tail: s.subrange(k + 1, t),
                                };
                                let more = items.push(item);
                                assert(more.drop_last() =~= items);
                                assert(more.last() == item);
                                lemma_item_text(s, i, j, v, k, t);
                                assert(followed_text(more) == followed_text(items) + s.subrange(
                                    i,
                                    t,
                                ));
                                assert(head + (followed_text(items) + s.subrange(i, t)) =~= read
                                    + s.subrange(i, t));
                                assert(read + s.subrange(i, t) =~= s.subrange(open + 1, t));
                                lemma_array_scan_text(s, open, t, depth, head, more, true);
                            }
                        } else if s[k] == CLOSE_BRACKET {
                            let t = line_rest_end(s, v);
                            if v <= t <= k {
                                let item = ItemView {
                                    prefix: s.subrange(i, j),
                                    value: s.subrange(j, v),
                                    suffix: Seq::empty(),
                                    tail: s.subrange(v, t),
                                };
                                let more = items.push(item);
                                assert(more.drop_last() =~= items);
                                assert(more.last() == item);
                                lemma_last_item_text(s, i, j, v, t);
                                let array = ArrayView {
                                    head,
                                    items: more,
                                    trailing_comma: false,
                                    trailing: s.subrange(t, k),
                                };
                                assert(items_text(more, false) == followed_text(items)
                                    + s.subrange(i, t));
                                assert(array.inner_text() =~= read + s.subrange(i, t)
                                    + s.subrange(t, k));
                                assert(read + s.subrange(i, t) + s.subrange(t, k) =~= s.subrange(
                                    open + 1,
                                    k,
                                ));
                                lemma_bracketed(s, open, k, array.inner_text());
                            }
                        }
                    }
                },
            }
        }
    }
}

/// A value that was read spells the text it was read from.
pub proof fn lemma_value_at_text(s: Seq<u8>, i: int)
    ensures
        value_at(s, i) matches Some((value, e)) ==> 0 <= i < e <= s.len() && value.text()
            == s.subrange(i, e),
{
    if 0 <= i < s.len() && s[i] == OPEN_BRACKET {
        lemma_line_rest_bounds(s, i + 1);
        let h = line_rest_end(s, i + 1);
        let head = s.subrange(i + 1, h);
        assert(head =~= head + followed_text(Seq::empty()));
        lemma_array_scan_text(s, i, h, (MAX_DEPTH - 1) as nat, head, Seq::empty(), false);
    } else {
        lemma_value_end_bounds(s, i, MAX_DEPTH as nat);
    }
}

/// Reads the value of a key that starts at `i`.
pub fn read_value(s: &[u8], i: usize) -> (r: Option<(Value, usize)>)
    requires
        i <= s@.len(),
    ensures
        match r {
            Some((value, e)) => value_at(s@, i as int) == Some((value@, e as int)) && i < e
                <= s@.len(),
            None => value_at(s@, i as int) is None,
        },
{
    if i < s.len() && s[i] == OPEN_BRACKET {
        match scan_array(s, i + 1, MAX_DEPTH - 1) {
            Some((array, e)) => Some((Value::Array(array), e)),
            None => None,
        }
    } else {
        match scan_value(s, i, MAX_DEPTH) {
            Some(e) => Some((Value::Plain(copy_range(s, i, e)), e)),
            None => None,
        }
    }
}

} // verus!
