//! What is written can be read: the text of a sound document is a manifest,
//! and reading it gives the document back, entry for entry and value for
//! value.
//!
//! Together with the laws on soundness this says that a removal never
//! leaves a text that cannot be read again, whatever it took out: no comment
//! swallows what follows it, no comma is left without an item before it, and
//! the dependencies that are read back are those that were left.

use crate::document::lemma_pair_scan;
use crate::document::lemma_round_trip;
use crate::document::line_scan;
use crate::document::parse_from;
use crate::document::parse_text;
use crate::editor::dependencies_word;
use crate::editor::find_in_project;
use crate::editor::lemma_find_in_project_bounds;
use crate::editor::project_word;
use crate::line_locality::lemma_line_scan_moves;
use crate::locality::ends_line;
use crate::locality::is_trivia;
use crate::locality::lemma_blanks_passed;
use crate::locality::lemma_path_end_moves;
use crate::locality::lemma_skip_blanks_moves;
use crate::locality::lemma_tail_end_moves;
use crate::locality::lemma_trivia_first;
use crate::locality::lemma_trivia_passed;
use crate::locality::lemma_window_byte;
use crate::locality::lemma_window_part;
use crate::locality::peek;
use crate::locality::same_window;
use crate::locality::starts_trivia;
use crate::model::followed_text;
use crate::model::items_text;
use crate::model::ArrayView;
use crate::model::DocumentView;
use crate::model::EntryView;
use crate::model::ItemView;
use crate::model::ValueView;
use crate::precision::lemma_entries_text_split;
use crate::precision::lemma_removal_leaves_values;
use crate::precision::text_after;
use crate::precision::values_without;
use crate::scan::is_blank;
use crate::scan::lemma_key_end_bounds;
use crate::scan::lemma_line_rest_bounds;
use crate::scan::lemma_path_end_bounds;
use crate::scan::lemma_skip_blanks_bounds;
use crate::scan::lemma_skip_trivia_bounds;
use crate::scan::line_rest_end;
use crate::scan::path_end;
use crate::scan::skip_blanks;
use crate::scan::skip_trivia;
use crate::scan::tail_end;
use crate::scan::CLOSE_BRACKET;
use crate::scan::COMMA;
use crate::scan::EQUALS;
use crate::scan::HASH;
use crate::scan::NEWLINE;
use crate::scan::OPEN_BRACKET;
use crate::soundness::frame_is_sound;
use crate::soundness::is_value;
use crate::soundness::lemma_read_is_sound;
use crate::soundness::lemma_removal_in_stays_sound;
use crate::soundness::lemma_removal_stays_sound;
use crate::value::array_from;
use crate::value::array_scan;
use crate::value::value_at;
use crate::value::value_end;
use crate::value::MAX_DEPTH;
use crate::value_locality::lemma_value_end_moves;
use vstd::prelude::*;

verus! {

/// The values of a list of items.
pub open spec fn item_values(items: Seq<ItemView>) -> Seq<Seq<u8>> {
    Seq::new(items.len(), |k: int| items[k].value)
}

/// The text of the items from the one at `m` on.
pub open spec fn text_from(items: Seq<ItemView>, m: int, trailing_comma: bool) -> Seq<u8>
    decreases items.len() - m,
{
    if !(0 <= m < items.len()) {
        Seq::empty()
    } else {
        items[m].text(m + 1 < items.len() || trailing_comma) + text_from(
            items,
            m + 1,
            trailing_comma,
        )
    }
}

/// The text of items that commas follow starts with the text of the first.
proof fn lemma_followed_text_front(items: Seq<ItemView>)
    requires
        items.len() > 0,
    ensures
        followed_text(items) == items[0].text(true) + followed_text(
            items.subrange(1, items.len() as int),
        ),
    decreases items.len(),
{
    let rest = items.subrange(1, items.len() as int);
    if items.len() == 1 {
        assert(items.drop_last() =~= Seq::empty());
        assert(rest =~= Seq::empty());
        assert(followed_text(items.drop_last()) =~= Seq::empty());
        assert(items.last() == items[0]);
        assert(followed_text(items) =~= items[0].text(true) + followed_text(rest));
    } else {
        let front = items.drop_last();
        lemma_followed_text_front(front);
        assert(front[0] == items[0]);
        assert(rest.drop_last() =~= front.subrange(1, front.len() as int));
        assert(rest.last() == items.last());
        assert(followed_text(items) =~= items[0].text(true) + followed_text(rest));
    }
}

/// The text of the items from `m` on is the text of that part of the list.
pub proof fn lemma_text_from(items: Seq<ItemView>, m: int, trailing_comma: bool)
    requires
        0 <= m <= items.len(),
    ensures
        text_from(items, m, trailing_comma) == items_text(
            items.subrange(m, items.len() as int),
            trailing_comma,
        ),
    decreases items.len() - m,
{
    let part = items.subrange(m, items.len() as int);
    if m < items.len() {
        lemma_text_from(items, m + 1, trailing_comma);
        let rest = items.subrange(m + 1, items.len() as int);
        assert(part[0] == items[m]);
        assert(part.last() == items.last());
        if m + 1 == items.len() {
            assert(part.drop_last() =~= Seq::empty());
            assert(rest =~= Seq::empty());
            assert(text_from(items, m, trailing_comma) =~= items_text(part, trailing_comma));
        } else {
            lemma_followed_text_front(part.drop_last());
            assert(part.drop_last()[0] == items[m]);
            assert(part.drop_last().subrange(1, part.len() - 1) =~= rest.drop_last());
            assert(rest.last() == items.last());
            assert(text_from(items, m, trailing_comma) =~= items_text(part, trailing_comma));
        }
    }
}

/// A piece of a text that stands in another text stands there with each of
/// its parts.
proof fn lemma_part_stands(whole: Seq<u8>, t: Seq<u8>, x: int, from: int, part: Seq<u8>)
    requires
        same_window(whole, 0, t, x, whole.len() as int),
        0 <= from,
        from + part.len() <= whole.len(),
        whole.subrange(from, from + part.len()) == part,
    ensures
        same_window(part, 0, t, x + from, part.len() as int),
{
    lemma_window_part(whole, 0, t, x, whole.len() as int, from, from + part.len());
    assert(part.subrange(0, part.len() as int) =~= part);
}

/// A value starts with a byte that starts no trivia and closes no array.
pub proof fn lemma_value_first(v: Seq<u8>, depth: nat)
    requires
        is_value(v, depth),
    ensures
        v.len() > 0,
        !starts_trivia(v[0]),
        v[0] != CLOSE_BRACKET,
        v[0] != COMMA,
{
    let alone = v.push(COMMA);
    if v.len() == 0 {
        assert(alone[0] == COMMA);
    } else {
        assert(alone[0] == v[0]);
    }
}

/// Trivia before a byte that starts none ends at that byte.
proof fn lemma_trivia_ends(p: Seq<u8>, t: Seq<u8>, x: int)
    requires
        is_trivia(p),
        same_window(p, 0, t, x, p.len() as int),
        x + p.len() < t.len(),
        !starts_trivia(t[x + p.len()]),
    ensures
        skip_trivia(t, x, false) == x + p.len(),
{
    lemma_trivia_passed(p, 0, false, t, x);
}

/// Where a value stands before trivia, a comma or a closing bracket, it is
/// read as the value it is.
proof fn lemma_value_stands(v: Seq<u8>, depth: nat, t: Seq<u8>, p: int)
    requires
        is_value(v, depth),
        same_window(v, 0, t, p, v.len() as int),
        p + v.len() < t.len(),
        starts_trivia(t[p + v.len()]) || t[p + v.len()] == COMMA || t[p + v.len()]
            == CLOSE_BRACKET,
    ensures
        value_end(t, p, depth) == Some(p + v.len()),
{
    let alone = v.push(COMMA);
    assert(alone.subrange(0, v.len() as int) =~= v);
    assert(v.subrange(0, v.len() as int) =~= v);
    lemma_value_end_moves(alone, 0, t, p, depth);
}

/// Where the text of an item and what follows it stand in a text, each piece
/// of the item stands at its place.
#[verifier::rlimit(40)]
proof fn lemma_item_stands(
    whole: Seq<u8>,
    t: Seq<u8>,
    gap: int,
    item: ItemView,
    followed: bool,
    next: Seq<u8>,
)
    requires
        whole == item.text(followed) + next,
        same_window(whole, 0, t, gap, whole.len() as int),
    ensures
        ({
            let p = gap + item.prefix.len();
            let v = p + item.value.len();
            let k = v + item.suffix.len();
            let after = k + (if followed {
                1int
            } else {
                0int
            }) + item.tail.len();
            &&& same_window(item.prefix, 0, t, gap, item.prefix.len() as int)
            &&& same_window(item.value, 0, t, p, item.value.len() as int)
            &&& same_window(item.suffix, 0, t, v, item.suffix.len() as int)
            &&& followed ==> t[k] == COMMA
            &&& same_window(item.tail, 0, t, after - item.tail.len(), item.tail.len() as int)
            &&& same_window(next, 0, t, after, next.len() as int)
            &&& whole.len() == after - gap + next.len()
            &&& t.subrange(p, v) == item.value
        }),
{
    let a = item.prefix.len() as int;
    let b = a + item.value.len();
    let c = b + item.suffix.len();
    let d = c + (if followed {
        1int
    } else {
        0int
    });
    let e = d + item.tail.len();
    let n = whole.len() as int;
    assert(whole.len() == e + next.len());
    assert(whole.subrange(0, a) =~= item.prefix);
    assert(whole.subrange(a, b) =~= item.value);
    assert(whole.subrange(b, c) =~= item.suffix);
    assert(whole.subrange(d, e) =~= item.tail);
    assert(whole.subrange(e, n) =~= next);
    lemma_part_stands(whole, t, gap, 0, item.prefix);
    lemma_part_stands(whole, t, gap, a, item.value);
    lemma_part_stands(whole, t, gap, b, item.suffix);
    lemma_part_stands(whole, t, gap, d, item.tail);
    lemma_part_stands(whole, t, gap, e, next);
    if followed {
        assert(whole[c] == COMMA);
        lemma_window_byte(whole, 0, t, gap, n, c);
    }
    assert(item.value.subrange(0, item.value.len() as int) =~= item.value);
}

/// One step of reading an array: an item that a comma follows.
proof fn lemma_scan_step(
    t: Seq<u8>,
    x: int,
    depth: nat,
    head: Seq<u8>,
    read: Seq<ItemView>,
    after_comma: bool,
    p: int,
    v: int,
    k: int,
)
    requires
        0 <= x <= p < v <= k < t.len(),
        skip_trivia(t, x, false) == p,
        t[p] != CLOSE_BRACKET,
        value_end(t, p, depth) == Some(v),
        skip_trivia(t, v, false) == k,
        t[k] == COMMA,
    ensures
        k < line_rest_end(t, k + 1) <= t.len(),
        array_scan(t, x, depth, head, read, after_comma) == array_scan(
            t,
            line_rest_end(t, k + 1),
            depth,
            head,
            read.push(
                ItemView {
                    prefix: t.subrange(x, p),
                    value: t.subrange(p, v),
                    suffix: t.subrange(v, k),
                    tail: t.subrange(k + 1, line_rest_end(t, k + 1)),
                },
            ),
            true,
        ),
{
    lemma_line_rest_bounds(t, k + 1);
}

/// The last step of reading an array whose last item no comma follows.
proof fn lemma_scan_last(
    t: Seq<u8>,
    x: int,
    depth: nat,
    head: Seq<u8>,
    read: Seq<ItemView>,
    after_comma: bool,
    p: int,
    v: int,
    k: int,
)
    requires
        0 <= x <= p < v <= k < t.len(),
        skip_trivia(t, x, false) == p,
        t[p] != CLOSE_BRACKET,
        value_end(t, p, depth) == Some(v),
        skip_trivia(t, v, false) == k,
        t[k] == CLOSE_BRACKET,
    ensures
        array_scan(t, x, depth, head, read, after_comma) matches Some((array, e)) && e == k + 1
            && array.items == read.push(
            ItemView {
                prefix: t.subrange(x, p),
                value: t.subrange(p, v),
                suffix: Seq::empty(),
                tail: t.subrange(v, line_rest_end(t, v)),
            },
        ),
{
    lemma_line_rest_bounds(t, v);
}

/// The values of a list of items with one more at its end, and the values of
/// the items that follow.
proof fn lemma_values_step(read: Seq<ItemView>, found: ItemView, items: Seq<ItemView>, m: int)
    requires
        0 <= m < items.len(),
        found.value == items[m].value,
    ensures
        item_values(read.push(found)) + item_values(items.subrange(m + 1, items.len() as int))
            == item_values(read) + item_values(items.subrange(m, items.len() as int)),
{
    let left = item_values(read.push(found)) + item_values(
        items.subrange(m + 1, items.len() as int),
    );
    let right = item_values(read) + item_values(items.subrange(m, items.len() as int));
    assert(left.len() == right.len());
    assert forall|k: int| 0 <= k < left.len() implies left[k] == right[k] by {
        if k < read.len() {
        } else if k == read.len() {
            assert(items.subrange(m, items.len() as int)[0] == items[m]);
        } else {
            assert(items.subrange(m + 1, items.len() as int)[k - read.len() - 1] == items.subrange(
                m,
                items.len() as int,
            )[k - read.len()]);
        }
    }
    assert(left =~= right);
}

/// The items of a sound array, from the one at `m` on, are read from a text
/// in which they stand before the closing bracket: the array that is read
/// ends with that bracket and holds the values read before and the values of
/// these items.
#[verifier::rlimit(40)]
proof fn lemma_items_read(
    t: Seq<u8>,
    x: int,
    gap: int,
    close: int,
    depth: nat,
    head: Seq<u8>,
    read: Seq<ItemView>,
    after_comma: bool,
    items: Seq<ItemView>,
    m: int,
    trailing_comma: bool,
    trailing: Seq<u8>,
)
    requires
        0 <= x <= t.len(),
        0 <= gap <= close < t.len(),
        0 <= m <= items.len(),
        t[close] == CLOSE_BRACKET,
        skip_trivia(t, x, false) == skip_trivia(t, gap, false),
        (text_from(items, m, trailing_comma) + trailing).len() == close - gap,
        same_window(text_from(items, m, trailing_comma) + trailing, 0, t, gap, close - gap),
        forall|k: int| 0 <= k < items.len() ==> (#[trigger] items[k]).is_sound(depth),
        is_trivia(trailing),
    ensures
        array_scan(t, x, depth, head, read, after_comma) matches Some((array, e)) && e == close
            + 1 && item_values(array.items) == item_values(read) + item_values(
            items.subrange(m, items.len() as int),
        ),
    decreases items.len() - m,
{
    lemma_skip_trivia_bounds(t, x, false);
    let rest = text_from(items, m, trailing_comma) + trailing;
    if m == items.len() {
        assert(rest =~= trailing);
        lemma_trivia_ends(trailing, t, gap);
        assert(item_values(items.subrange(m, items.len() as int)) =~= Seq::empty());
        assert(item_values(read) + Seq::<Seq<u8>>::empty() =~= item_values(read));
    } else {
        let item = items[m];
        let followed = m + 1 < items.len() || trailing_comma;
        let next = text_from(items, m + 1, trailing_comma) + trailing;
        assert(item.is_sound(depth));
        assert(rest =~= item.text(followed) + next);
        lemma_item_stands(rest, t, gap, item, followed, next);
        let p = gap + item.prefix.len();
        let v = p + item.value.len();
        let k = v + item.suffix.len();
        // The prefix is passed, and the value starts where it ends.
        lemma_value_first(item.value, depth);
        lemma_window_byte(item.value, 0, t, p, item.value.len() as int, 0);
        lemma_trivia_ends(item.prefix, t, gap);
        if followed {
            let after = k + 1 + item.tail.len();
            if item.suffix.len() > 0 {
                lemma_trivia_first(item.suffix);
                lemma_window_byte(item.suffix, 0, t, v, item.suffix.len() as int, 0);
            }
            lemma_value_stands(item.value, depth, t, p);
            lemma_trivia_ends(item.suffix, t, v);
            lemma_scan_step(t, x, depth, head, read, after_comma, p, v, k);
            lemma_line_rest_bounds(t, k + 1);
            let tt = line_rest_end(t, k + 1);
            lemma_trivia_passed(item.tail, 0, false, t, k + 1);
            let found = ItemView {
                prefix: t.subrange(x, p),
                value: t.subrange(p, v),
                suffix: t.subrange(v, k),
                tail: t.subrange(k + 1, tt),
            };
            lemma_items_read(
                t,
                tt,
                after,
                close,
                depth,
                head,
                read.push(found),
                true,
                items,
                m + 1,
                trailing_comma,
                trailing,
            );
            lemma_values_step(read, found, items, m);
        } else {
            let after = k + item.tail.len();
            assert(text_from(items, m + 1, trailing_comma) =~= Seq::empty());
            assert(next =~= trailing);
            // What follows the value is trivia up to the closing bracket.
            lemma_trivia_passed(item.suffix, 0, false, t, v);
            lemma_trivia_passed(item.tail, 0, false, t, k);
            lemma_trivia_ends(trailing, t, after);
            if item.suffix.len() > 0 {
                lemma_trivia_first(item.suffix);
                lemma_window_byte(item.suffix, 0, t, v, item.suffix.len() as int, 0);
            } else if item.tail.len() > 0 {
                lemma_trivia_first(item.tail);
                lemma_window_byte(item.tail, 0, t, k, item.tail.len() as int, 0);
            } else if trailing.len() > 0 {
                lemma_trivia_first(trailing);
                lemma_window_byte(trailing, 0, t, after, trailing.len() as int, 0);
            }
            lemma_value_stands(item.value, depth, t, p);
            lemma_scan_last(t, x, depth, head, read, after_comma, p, v, close);
            let found = ItemView {
                prefix: t.subrange(x, p),
                value: t.subrange(p, v),
                suffix: Seq::empty(),
                tail: t.subrange(v, line_rest_end(t, v)),
            };
            lemma_values_step(read, found, items, m);
            assert(item_values(items.subrange(m + 1, items.len() as int)) =~= Seq::empty());
            assert(item_values(read.push(found)) + Seq::<Seq<u8>>::empty() =~= item_values(
                read.push(found),
            ));
        }
    }
}

/// A sound array is read from a text in which it stands: the array that is
/// read ends where it ends and holds its values.
pub proof fn lemma_sound_array_reads(t: Seq<u8>, open: int, array: ArrayView, depth: nat)
    requires
        array.is_sound(depth),
        0 <= open,
        open + 1 + array.inner_text().len() < t.len(),
        same_window(array.inner_text(), 0, t, open + 1, array.inner_text().len() as int),
        t[open + 1 + array.inner_text().len()] == CLOSE_BRACKET,
    ensures
        array_from(t, open + 1, depth) matches Some((read, e)) && e == open
            + array.inner_text().len() + 2 && item_values(read.items) == item_values(
            array.items,
        ),
{
    let inner = array.inner_text();
    let n = inner.len() as int;
    let close = open + 1 + n;
    let gap = open + 1 + array.head.len();
    lemma_line_rest_bounds(t, open + 1);
    let h = line_rest_end(t, open + 1);
    lemma_text_from(array.items, 0, array.trailing_comma);
    assert(array.items.subrange(0, array.items.len() as int) =~= array.items);
    let rest = text_from(array.items, 0, array.trailing_comma) + array.trailing;
    assert(inner =~= array.head + rest);
    assert(inner.subrange(0, array.head.len() as int) =~= array.head);
    lemma_part_stands(inner, t, open + 1, 0, array.head);
    lemma_trivia_passed(array.head, 0, false, t, open + 1);
    assert(inner.subrange(array.head.len() as int, n) =~= rest);
    lemma_part_stands(inner, t, open + 1, array.head.len() as int, rest);
    lemma_items_read(
        t,
        h,
        gap,
        close,
        depth,
        t.subrange(open + 1, h),
        Seq::empty(),
        false,
        array.items,
        0,
        array.trailing_comma,
        array.trailing,
    );
    assert(item_values(Seq::<ItemView>::empty()) + item_values(
        array.items.subrange(0, array.items.len() as int),
    ) =~= item_values(array.items));
}


/// Whether the entry `read` is the entry `written`, as far as reading can
/// tell: a key with an array has the same key, the same text around the array
/// and the same values in it, whichever item the blanks and comments between
/// the values are counted to; any other entry is the same.
pub open spec fn alike_entry(read: EntryView, written: EntryView) -> bool {
    match (read, written) {
        (
            EntryView::Pair {
                before: read_before,
                key: read_key,
                between: read_between,
                value: ValueView::Array(found),
                after: read_after,
            },
            EntryView::Pair { before, key, between, value: ValueView::Array(array), after },
        ) => {
            &&& read_before == before
            &&& read_key == key
            &&& read_between == between
            &&& read_after == after
            &&& item_values(found.items) == item_values(array.items)
        },
        (_, EntryView::Pair { value: ValueView::Array(_), .. }) => false,
        _ => read == written,
    }
}

/// Whether the document `read` is the document `written`, entry for entry.
pub open spec fn alike(read: DocumentView, written: DocumentView) -> bool {
    &&& read.entries.len() == written.entries.len()
    &&& forall|k: int|
        0 <= k < written.entries.len() ==> alike_entry(
            #[trigger] read.entries[k],
            written.entries[k],
        )
}

impl DocumentView {
    /// The values of the dependency list, in their order; none where the
    /// document has no list.
    pub open spec fn dependency_values(self) -> Seq<Seq<u8>> {
        match self.dependency_array() {
            Some(array) => item_values(array.items),
            None => Seq::empty(),
        }
    }
}

/// Where the text of a key with an array stands in a text, each piece of the
/// entry stands at its place.
#[verifier::rlimit(40)]
proof fn lemma_pair_stands(
    whole: Seq<u8>,
    t: Seq<u8>,
    x: int,
    before: Seq<u8>,
    key: Seq<u8>,
    between: Seq<u8>,
    inner: Seq<u8>,
    after: Seq<u8>,
)
    requires
        whole == before + key + between + (seq![OPEN_BRACKET] + inner + seq![CLOSE_BRACKET])
            + after,
        same_window(whole, 0, t, x, whole.len() as int),
    ensures
        ({
            let j0 = x + before.len();
            let k = j0 + key.len();
            let start = k + between.len();
            let close = start + 1 + inner.len();
            &&& same_window(before, 0, t, x, before.len() as int)
            &&& same_window(key + between, 0, t, j0, (key + between).len() as int)
            &&& same_window(between, 0, t, k, between.len() as int)
            &&& t[start] == OPEN_BRACKET
            &&& same_window(inner, 0, t, start + 1, inner.len() as int)
            &&& t[close] == CLOSE_BRACKET
            &&& same_window(after, 0, t, close + 1, after.len() as int)
            &&& whole.len() == close + 1 + after.len() - x
            &&& t.subrange(x, j0) == before
            &&& t.subrange(j0, k) == key
            &&& t.subrange(k, start) == between
            &&& t.subrange(close + 1, close + 1 + after.len()) == after
        }),
{
    let a = before.len() as int;
    let b = a + key.len();
    let c = b + between.len();
    let d = c + 1 + inner.len();
    let n = whole.len() as int;
    assert(n == d + 1 + after.len());
    assert(whole.subrange(0, a) =~= before);
    assert(whole.subrange(a, c) =~= key + between);
    assert(whole.subrange(a, b) =~= key);
    assert(whole.subrange(b, c) =~= between);
    assert(whole.subrange(c + 1, d) =~= inner);
    assert(whole.subrange(d + 1, n) =~= after);
    assert(whole[c] == OPEN_BRACKET);
    assert(whole[d] == CLOSE_BRACKET);
    lemma_part_stands(whole, t, x, 0, before);
    lemma_part_stands(whole, t, x, a, key + between);
    lemma_part_stands(whole, t, x, a, key);
    lemma_part_stands(whole, t, x, b, between);
    lemma_part_stands(whole, t, x, c + 1, inner);
    lemma_part_stands(whole, t, x, d + 1, after);
    lemma_window_byte(whole, 0, t, x, n, c);
    lemma_window_byte(whole, 0, t, x, n, d);
    assert(before.subrange(0, before.len() as int) =~= before);
    assert(key.subrange(0, key.len() as int) =~= key);
    assert(between.subrange(0, between.len() as int) =~= between);
    assert(after.subrange(0, after.len() as int) =~= after);
}

/// A sound key is read, with the equals sign after it, from a text in which
/// it stands with what follows it up to the value.
proof fn lemma_sound_key_reads(t: Seq<u8>, j0: int, key: Seq<u8>, between: Seq<u8>)
    requires
        path_end(key + between, 0) == Some(key.len() as int),
        0 <= skip_blanks(between, 0) < between.len(),
        between[skip_blanks(between, 0)] == EQUALS,
        same_window(key + between, 0, t, j0, (key + between).len() as int),
    ensures
        key.len() > 0,
        t[j0] != NEWLINE,
        t[j0] != HASH,
        t[j0] != OPEN_BRACKET,
        !is_blank(t[j0]),
        path_end(t, j0) == Some(j0 + key.len()),
        skip_blanks(t, j0 + key.len()) == j0 + key.len() + skip_blanks(between, 0),
        t[j0 + key.len() + skip_blanks(between, 0)] == EQUALS,
{
    let both = key + between;
    let sign = skip_blanks(between, 0);
    lemma_path_end_bounds(both, 0);
    lemma_key_end_bounds(both, 0);
    assert(both[0] == key[0]);
    lemma_window_byte(both, 0, t, j0, both.len() as int, 0);
    assert(both.subrange(key.len() as int, both.len() as int) =~= between);
    lemma_skip_blanks_bounds(between, 0);
    assert(between.subrange(0, sign) =~= both.subrange(key.len() as int, key.len() + sign));
    assert(both[key.len() + sign] == between[sign]);
    lemma_skip_blanks_moves(between, 0, both, key.len() as int);
    lemma_window_part(both, 0, t, j0, both.len() as int, 0, key.len() + sign);
    lemma_window_byte(both, 0, t, j0, both.len() as int, key.len() + sign);
    lemma_path_end_moves(both, 0, t, j0);
}

/// A sound key with an array is read from a text in which it stands before a
/// newline or the end of the text.
#[verifier::rlimit(40)]
proof fn lemma_sound_pair_reads(
    t: Seq<u8>,
    x: int,
    before: Seq<u8>,
    key: Seq<u8>,
    between: Seq<u8>,
    array: ArrayView,
    after: Seq<u8>,
)
    requires
        frame_is_sound(before, key, between, after),
        array.is_sound((MAX_DEPTH - 1) as nat),
        same_window(
            before + key + between + (seq![OPEN_BRACKET] + array.inner_text()
                + seq![CLOSE_BRACKET]) + after,
            0,
            t,
            x,
            (before + key + between + (seq![OPEN_BRACKET] + array.inner_text()
                + seq![CLOSE_BRACKET]) + after).len() as int,
        ),
        ends_line(
            peek(
                t,
                x + (before + key + between + (seq![OPEN_BRACKET] + array.inner_text()
                    + seq![CLOSE_BRACKET]) + after).len(),
            ),
        ),
    ensures
        line_scan(t, x) matches Some((read, e)) && e == x + (before + key + between + (
        seq![OPEN_BRACKET] + array.inner_text() + seq![CLOSE_BRACKET]) + after).len()
            && alike_entry(
            read,
            EntryView::Pair { before, key, between, value: ValueView::Array(array), after },
        ),
{
    let inner = array.inner_text();
    let whole = before + key + between + (seq![OPEN_BRACKET] + inner + seq![CLOSE_BRACKET])
        + after;
    lemma_pair_stands(whole, t, x, before, key, between, inner, after);
    let j0 = x + before.len();
    let k = j0 + key.len();
    let start = k + between.len();
    let close = start + 1 + inner.len();
    let end = close + 1;
    let e = end + after.len();
    let sign = skip_blanks(between, 0);
    let eq = k + sign;
    lemma_sound_key_reads(t, j0, key, between);
    lemma_blanks_passed(before, t, x);
    // The blanks after the equals sign.
    let blanks = between.subrange(sign + 1, between.len() as int);
    lemma_part_stands(between, t, k, sign + 1, blanks);
    lemma_blanks_passed(blanks, t, eq + 1);
    // The array.
    lemma_sound_array_reads(t, start, array, (MAX_DEPTH - 1) as nat);
    let found = (array_from(t, start + 1, (MAX_DEPTH - 1) as nat)->0).0;
    assert(value_at(t, start) == Some((ValueView::Array(found), end)));
    // What ends the line.
    lemma_tail_end_moves(after, 0, t, end);
    lemma_pair_scan(t, x, j0, k, eq, start, ValueView::Array(found), end, e);
}

/// A sound entry is read from a text in which it stands before a newline or
/// the end of the text.
pub proof fn lemma_sound_entry_reads(t: Seq<u8>, x: int, entry: EntryView)
    requires
        entry.is_sound(),
        same_window(entry.text(), 0, t, x, entry.text().len() as int),
        ends_line(peek(t, x + entry.text().len())),
    ensures
        line_scan(t, x) matches Some((read, e)) && e == x + entry.text().len() && alike_entry(
            read,
            entry,
        ),
{
    match entry {
        EntryView::Pair { before, key, between, value: ValueView::Array(array), after } => {
            assert(array.text() == seq![OPEN_BRACKET] + array.inner_text() + seq![CLOSE_BRACKET]);
            lemma_sound_pair_reads(t, x, before, key, between, array, after);
        },
        _ => {
            lemma_line_scan_moves(entry.text(), 0, t, x);
        },
    }
}

/// The text of the entries from the one at `k` on.
pub open spec fn text_onward(entries: Seq<EntryView>, k: int) -> Seq<u8> {
    entries[k].text() + text_after(entries, k)
}

/// Where the text of the entries from the one at `k` on ends a text, the
/// entry at `k` stands there before a newline or the end of the text, and
/// after the newline stand the entries that follow.
proof fn lemma_onward_stands(t: Seq<u8>, x: int, entries: Seq<EntryView>, k: int)
    requires
        0 <= k < entries.len(),
        0 <= x,
        x + text_onward(entries, k).len() == t.len(),
        same_window(text_onward(entries, k), 0, t, x, text_onward(entries, k).len() as int),
    ensures
        same_window(entries[k].text(), 0, t, x, entries[k].text().len() as int),
        ends_line(peek(t, x + entries[k].text().len())),
        k + 1 == entries.len() ==> x + entries[k].text().len() == t.len(),
        k + 1 < entries.len() ==> {
            let e = x + entries[k].text().len();
            &&& e < t.len()
            &&& e + 1 + text_onward(entries, k + 1).len() == t.len()
            &&& same_window(
                text_onward(entries, k + 1),
                0,
                t,
                e + 1,
                text_onward(entries, k + 1).len() as int,
            )
        },
{
    let text = entries[k].text();
    let rest = text_after(entries, k);
    let onward = text_onward(entries, k);
    let n = onward.len() as int;
    let e = x + text.len();
    assert(onward.subrange(0, text.len() as int) =~= text);
    lemma_part_stands(onward, t, x, 0, text);
    if k + 1 < entries.len() {
        let next = text_onward(entries, k + 1);
        assert(rest =~= seq![NEWLINE] + next);
        assert(onward[text.len() as int] == NEWLINE);
        lemma_window_byte(onward, 0, t, x, n, text.len() as int);
        assert(onward.subrange(e + 1 - x, n) =~= next);
        lemma_part_stands(onward, t, x, e + 1 - x, next);
    } else {
        assert(rest =~= Seq::empty());
    }
}

/// The entries of a sound document, from the one at `k` on, are read from a
/// text that ends with them.
#[verifier::rlimit(40)]
proof fn lemma_entries_read(
    t: Seq<u8>,
    x: int,
    entries: Seq<EntryView>,
    k: int,
    read: Seq<EntryView>,
)
    requires
        0 <= k < entries.len(),
        read.len() == k,
        0 <= x,
        x + text_onward(entries, k).len() == t.len(),
        same_window(text_onward(entries, k), 0, t, x, text_onward(entries, k).len() as int),
        forall|m: int| 0 <= m < entries.len() ==> (#[trigger] entries[m]).is_sound(),
        forall|m: int| 0 <= m < k ==> alike_entry(#[trigger] read[m], entries[m]),
    ensures
        parse_from(t, x, read) matches Ok(all) && all.len() == entries.len() && forall|m: int|
            0 <= m < entries.len() ==> alike_entry(#[trigger] all[m], entries[m]),
    decreases entries.len() - k,
{
    let entry = entries[k];
    let e = x + entry.text().len();
    assert(entry.is_sound());
    lemma_onward_stands(t, x, entries, k);
    lemma_sound_entry_reads(t, x, entry);
    let found = (line_scan(t, x)->0).0;
    let more = read.push(found);
    assert(line_scan(t, x) == Some((found, e)));
    assert forall|m: int| 0 <= m < k + 1 implies alike_entry(#[trigger] more[m], entries[m]) by {
        if m < k {
            assert(more[m] == read[m]);
        }
    }
    if k + 1 < entries.len() {
        lemma_entries_read(t, e + 1, entries, k + 1, more);
        assert(parse_from(t, x, read) == parse_from(t, e + 1, more));
    } else {
        assert(parse_from(t, x, read) == Ok::<Seq<EntryView>, int>(more));
    }
}

/// What is written can be read: the text of a sound document is a manifest,
/// and it is read as that document, entry for entry.
pub proof fn lemma_sound_reads_back(document: DocumentView)
    requires
        document.is_sound(),
    ensures
        parse_text(document.text()) matches Ok(read) && alike(read, document),
{
    let t = document.text();
    lemma_entries_text_split(document.entries, 0);
    assert(t =~= text_onward(document.entries, 0));
    assert(t.subrange(0, t.len() as int) =~= t);
    lemma_entries_read(t, 0, document.entries, 0, Seq::empty());
}

/// The manifests are the texts of the sound documents: a text is read
/// exactly when some sound document has it for its text.
pub proof fn lemma_manifests_are_sound_texts(text: Seq<u8>)
    ensures
        parse_text(text) is Ok <==> exists|document: DocumentView|
            document.is_sound() && #[trigger] document.text() == text,
{
    if parse_text(text) is Ok {
        let document = parse_text(text)->Ok_0;
        lemma_read_is_sound(text);
        lemma_round_trip(text);
        assert(document.is_sound() && document.text() == text);
    }
    if exists|document: DocumentView| document.is_sound() && #[trigger] document.text() == text {
        let document = choose|document: DocumentView|
            document.is_sound() && #[trigger] document.text() == text;
        lemma_sound_reads_back(document);
    }
}

/// Documents that are alike have their keys of the table `[project]` at the
/// same places.
proof fn lemma_alike_finds(
    read: Seq<EntryView>,
    written: Seq<EntryView>,
    i: int,
    in_project: bool,
    word: Seq<u8>,
)
    requires
        read.len() == written.len(),
        forall|k: int| 0 <= k < written.len() ==> alike_entry(#[trigger] read[k], written[k]),
    ensures
        find_in_project(read, i, in_project, word) == find_in_project(
            written,
            i,
            in_project,
            word,
        ),
    decreases written.len() - i,
{
    if 0 <= i < written.len() {
        assert(alike_entry(read[i], written[i]));
        match written[i] {
            EntryView::Blank { .. } => lemma_alike_finds(read, written, i + 1, in_project, word),
            EntryView::Header { name, repeated, .. } => lemma_alike_finds(
                read,
                written,
                i + 1,
                !repeated && name == project_word(),
                word,
            ),
            EntryView::Pair { key, .. } => if !(in_project && key == word) {
                lemma_alike_finds(read, written, i + 1, in_project, word)
            },
        }
    }
}

/// Documents that are alike have the same dependencies: the same values, in
/// the same order, and as many of them ask for any one package.
pub proof fn lemma_alike_dependencies(read: DocumentView, written: DocumentView)
    requires
        alike(read, written),
    ensures
        read.dependencies_at() == written.dependencies_at(),
        read.dependency_values() == written.dependency_values(),
{
    lemma_alike_finds(read.entries, written.entries, 0, false, dependencies_word());
    match written.dependencies_at() {
        Some(at) => {
            lemma_find_in_project_bounds(written.entries, 0, false, dependencies_word());
            assert(alike_entry(read.entries[at], written.entries[at]));
        },
        None => {},
    }
}

/// What is read after a removal: the text that a removal leaves is a
/// manifest whose dependencies are those of the manifest before that do not
/// ask for the package, in their order and as they were written.
pub proof fn lemma_removal_written_values(text: Seq<u8>, name: Seq<u8>)
    ensures
        parse_text(text) matches Ok(document) ==> (parse_text(
            document.without(name).text(),
        ) matches Ok(read) && read.dependency_values() == values_without(
            document.dependency_values(),
            name,
        )),
{
    match parse_text(text) {
        Ok(document) => {
            lemma_removal_reads_back(text, name);
            lemma_alike_dependencies(
                parse_text(document.without(name).text())->Ok_0,
                document.without(name),
            );
            lemma_removal_leaves_values(document, name);
        },
        Err(_) => {},
    }
}

/// A removal from the array at a path leaves a manifest: the text of a
/// document that was read, without the items that ask for a package, is read
/// again, as the document that the removal left.
pub proof fn lemma_removal_in_reads_back(
    text: Seq<u8>,
    table: Seq<u8>,
    word: Seq<u8>,
    name: Seq<u8>,
)
    ensures
        parse_text(text) matches Ok(document) ==> (parse_text(
            document.without_in(table, word, name).text(),
        ) matches Ok(read) && alike(read, document.without_in(table, word, name))),
{
    match parse_text(text) {
        Ok(document) => {
            lemma_read_is_sound(text);
            lemma_removal_in_stays_sound(document, table, word, name);
            lemma_sound_reads_back(document.without_in(table, word, name));
        },
        Err(_) => {},
    }
}

/// A removal leaves a manifest: the text of a document that was read, without
/// the dependencies on a package, is read again, as the document that the
/// removal left.
pub proof fn lemma_removal_reads_back(text: Seq<u8>, name: Seq<u8>)
    ensures
        parse_text(text) matches Ok(document) ==> (parse_text(
            document.without(name).text(),
        ) matches Ok(read) && alike(read, document.without(name))),
{
    match parse_text(text) {
        Ok(document) => {
            lemma_read_is_sound(text);
            lemma_removal_stays_sound(document, name);
            lemma_sound_reads_back(document.without(name));
        },
        Err(_) => {},
    }
}

} // verus!
