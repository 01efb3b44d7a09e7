//! Sound documents: documents whose pieces are what they are taken for.
//!
//! A document is plain data, and not every value of it spells a manifest: a
//! prefix might hold a letter, a value might lack its closing quote. A sound
//! document is one whose pieces are each of their kind. Every document that
//! was read is sound, and every removal leaves a sound document sound.

use crate::document::lemma_line_scan_text;
use crate::document::lemma_pair_parts;
use crate::document::line_scan;
use crate::document::parse_from;
use crate::document::parse_text;
use crate::editor::dependencies_word;
use crate::editor::items_without;
use crate::editor::lemma_find_in_project_bounds;
use crate::editor::lemma_find_key_bounds;
use crate::line_locality::lemma_line_scan_moves;
use crate::locality::is_blanks;
use crate::locality::is_trivia;
use crate::locality::lemma_line_rest_is_trivia;
use crate::locality::lemma_path_end_moves;
use crate::locality::lemma_run_is_trivia;
use crate::locality::lemma_skip_blanks_moves;
use crate::locality::lemma_skipped_are_blanks;
use crate::locality::lemma_tail_end_moves;
use crate::model::ArrayView;
use crate::model::DocumentView;
use crate::model::EntryView;
use crate::model::ItemView;
use crate::model::ValueView;
use crate::scan::lemma_line_rest_bounds;
use crate::scan::lemma_path_end_bounds;
use crate::scan::lemma_skip_blanks_bounds;
use crate::scan::lemma_tail_end_bounds;
use crate::scan::line_rest_end;
use crate::scan::path_end;
use crate::scan::skip_blanks;
use crate::scan::skip_trivia;
use crate::scan::tail_end;
use crate::scan::CLOSE_BRACKET;
use crate::scan::COMMA;
use crate::scan::EQUALS;
use crate::scan::HASH;
use crate::scan::NEWLINE;
use crate::scan::OPEN_BRACKET;
use crate::value::array_from;
use crate::value::array_scan;
use crate::value::lemma_value_at_text;
use crate::value::lemma_value_end_bounds;
use crate::value::value_at;
use crate::value::value_end;
use crate::value::MAX_DEPTH;
use crate::value_locality::lemma_value_end_moves;
use vstd::prelude::*;

verus! {

/// Whether `v` is a value: it is read as one where a comma follows it, and
/// arrays and inline tables nest at most `depth` levels below it.
pub open spec fn is_value(v: Seq<u8>, depth: nat) -> bool {
    value_end(v.push(COMMA), 0, depth) == Some(v.len() as int)
}

/// Whether a key and what stands around it are of their kind: blanks before
/// the key; a dotted key; blanks, an equals sign and blanks between the key
/// and the value; blanks and maybe a comment after the value.
pub open spec fn frame_is_sound(
    before: Seq<u8>,
    key: Seq<u8>,
    between: Seq<u8>,
    after: Seq<u8>,
) -> bool {
    let sign = skip_blanks(between, 0);
    &&& is_blanks(before)
    &&& path_end(key + between, 0) == Some(key.len() as int)
    &&& 0 <= sign < between.len()
    &&& between[sign] == EQUALS
    &&& is_blanks(between.subrange(sign + 1, between.len() as int))
    &&& tail_end(after, 0) == Some(after.len() as int)
}

impl ItemView {
    /// Whether the pieces of the item are of their kind.
    pub open spec fn is_sound(self, depth: nat) -> bool {
        &&& is_trivia(self.prefix)
        &&& is_value(self.value, depth)
        &&& is_trivia(self.suffix)
        &&& is_trivia(self.tail)
    }
}

impl ArrayView {
    /// Whether the pieces of the array are of their kind, and its trailing
    /// comma, if it has one, has an item to follow.
    pub open spec fn is_sound(self, depth: nat) -> bool {
        &&& is_trivia(self.head)
        &&& forall|k: int| 0 <= k < self.items.len() ==> (#[trigger] self.items[k]).is_sound(depth)
        &&& is_trivia(self.trailing)
        &&& self.trailing_comma ==> self.items.len() > 0
    }
}

impl EntryView {
    /// Whether the pieces of the entry are of their kind. A key with an array
    /// is sound piece by piece; any other entry is sound when its text is
    /// read as this very entry.
    pub open spec fn is_sound(self) -> bool {
        match self {
            EntryView::Pair { before, key, between, value: ValueView::Array(array), after } => {
                &&& frame_is_sound(before, key, between, after)
                &&& array.is_sound((MAX_DEPTH - 1) as nat)
            },
            _ => line_scan(self.text(), 0) == Some((self, self.text().len() as int)),
        }
    }
}

impl DocumentView {
    /// Whether the document has an entry and every entry is sound.
    pub open spec fn is_sound(self) -> bool {
        &&& self.entries.len() > 0
        &&& forall|k: int| 0 <= k < self.entries.len() ==> (#[trigger] self.entries[k]).is_sound()
    }
}

/// The array that the rest of a text is read as is sound, where what was
/// read of it so far is.
#[verifier::rlimit(40)]
pub proof fn lemma_array_scan_sound(
    s: Seq<u8>,
    i: int,
    depth: nat,
    head: Seq<u8>,
    items: Seq<ItemView>,
    after_comma: bool,
)
    requires
        is_trivia(head),
        forall|k: int| 0 <= k < items.len() ==> (#[trigger] items[k]).is_sound(depth),
        after_comma == (items.len() > 0),
    ensures
        array_scan(s, i, depth, head, items, after_comma) matches Some((array, _))
            ==> array.is_sound(depth),
    decreases s.len() - i,
{
    let j = skip_trivia(s, i, false);
    if 0 <= i <= j < s.len() {
        lemma_run_is_trivia(s, i, i, false);
        if s[j] != CLOSE_BRACKET {
            match value_end(s, j, depth) {
                None => {},
                Some(v) => {
                    let k = skip_trivia(s, v, false);
                    if j < v <= k < s.len() {
                        lemma_value_is_value(s, j, depth);
                        lemma_run_is_trivia(s, v, v, false);
                        if s[k] == COMMA {
                            let t = line_rest_end(s, k + 1);
                            if k < t <= s.len() {
                                lemma_line_rest_is_trivia(s, k + 1);
                                let item = ItemView {
                                    prefix: s.subrange(i, j),
                                    value: s.subrange(j, v),
                                    suffix: s.subrange(v, k),
                                    tail: s.subrange(k + 1, t),
                                };
                                let more = items.push(item);
                                assert forall|m: int| 0 <= m < more.len() implies (
                                #[trigger] more[m]).is_sound(depth) by {
                                    if m < items.len() {
                                        assert(more[m] == items[m]);
                                    }
                                }
                                lemma_array_scan_sound(s, t, depth, head, more, true);
                            }
                        } else if s[k] == CLOSE_BRACKET {
                            let t = line_rest_end(s, v);
                            if v <= t <= k {
                                lemma_line_rest_is_trivia(s, v);
                                lemma_line_rest_bounds(s, v);
                                lemma_run_is_trivia(s, t, t, false);
                                let item = ItemView {
                                    prefix: s.subrange(i, j),
                                    value: s.subrange(j, v),
                                    suffix: Seq::empty(),
                                    tail: s.subrange(v, t),
                                };
                                let more = items.push(item);
                                assert forall|m: int| 0 <= m < more.len() implies (
                                #[trigger] more[m]).is_sound(depth) by {
                                    if m < items.len() {
                                        assert(more[m] == items[m]);
                                    }
                                }
                            }
                        }
                    }
                },
            }
        }
    }
}

/// A value that was read, cut out of the text, is a value.
pub proof fn lemma_value_is_value(s: Seq<u8>, i: int, depth: nat)
    requires
        value_end(s, i, depth) is Some,
    ensures
        is_value(s.subrange(i, value_end(s, i, depth)->0), depth),
{
    lemma_value_end_bounds(s, i, depth);
    let e = value_end(s, i, depth)->0;
    let piece = s.subrange(i, e);
    let alone = piece.push(COMMA);
    assert(alone.subrange(0, e - i) =~= piece);
    lemma_value_end_moves(s, i, alone, 0, depth);
}

/// An array that was read is sound.
pub proof fn lemma_array_from_sound(s: Seq<u8>, i: int, depth: nat)
    ensures
        array_from(s, i, depth) matches Some((array, _)) ==> array.is_sound(depth),
{
    let h = line_rest_end(s, i);
    if 0 <= i <= h <= s.len() {
        lemma_line_rest_is_trivia(s, i);
        lemma_array_scan_sound(s, h, depth, s.subrange(i, h), Seq::empty(), false);
    }
}

/// A line that was read is sound.
pub proof fn lemma_line_scan_sound(s: Seq<u8>, i: int)
    ensures
        line_scan(s, i) matches Some((entry, _)) ==> entry.is_sound(),
{
    lemma_line_scan_text(s, i);
    match line_scan(s, i) {
        None => {},
        Some((entry, e)) => {
            match entry {
                EntryView::Pair { before, key, between, value: ValueView::Array(array), after } => {
                    lemma_pair_is_sound(s, i);
                },
                _ => {
                    let text = entry.text();
                    assert(text.subrange(0, e - i) =~= text);
                    lemma_line_scan_moves(s, i, text, 0);
                },
            }
        },
    }
}

/// A key with an array that was read is sound.
#[verifier::rlimit(40)]
proof fn lemma_pair_is_sound(s: Seq<u8>, i: int)
    requires
        line_scan(s, i) matches Some((entry, _)) && (entry matches EntryView::Pair {
            value: ValueView::Array(_),
            ..
        }),
    ensures
        (line_scan(s, i)->0).0.is_sound(),
{
    lemma_skip_blanks_bounds(s, i);
    let j0 = skip_blanks(s, i);
    assert(j0 < s.len() && s[j0] != NEWLINE && s[j0] != HASH && s[j0] != OPEN_BRACKET);
    lemma_pair_parts(s, i);
    let e = (line_scan(s, i)->0).1;
    let k = path_end(s, j0)->0;
    let eq = skip_blanks(s, k);
    let start = skip_blanks(s, eq + 1);
    let end = (value_at(s, start)->0).1;
    let key = s.subrange(j0, k);
    let between = s.subrange(k, start);
    let after = s.subrange(end, e);
    // The blanks before the key.
    lemma_skipped_are_blanks(s, i);
    lemma_sound_key(s, j0, k, eq, start);
    // The blanks after the equals sign.
    lemma_skipped_are_blanks(s, eq + 1);
    assert(between.subrange(eq - k + 1, between.len() as int) =~= s.subrange(eq + 1, start));
    // What ends the line.
    assert(after.subrange(0, e - end) =~= after);
    lemma_tail_end_moves(s, end, after, 0);
    // The array.
    lemma_array_from_sound(s, start + 1, (MAX_DEPTH - 1) as nat);
}

/// A key that was read, cut out of the text with what follows it up to the
/// value, is read as that key, before its equals sign.
proof fn lemma_sound_key(s: Seq<u8>, j0: int, k: int, eq: int, start: int)
    requires
        0 <= j0 < k <= eq < start <= s.len(),
        path_end(s, j0) == Some(k),
        skip_blanks(s, k) == eq,
        s[eq] == EQUALS,
    ensures
        path_end(s.subrange(j0, k) + s.subrange(k, start), 0) == Some(k - j0),
        skip_blanks(s.subrange(k, start), 0) == eq - k,
        s.subrange(k, start)[eq - k] == EQUALS,
{
    let key = s.subrange(j0, k);
    let between = s.subrange(k, start);
    let both = key + between;
    assert(both =~= s.subrange(j0, start));
    assert(both.subrange(0, eq - j0) =~= s.subrange(j0, eq));
    assert(both[eq - j0] == s[eq]);
    lemma_path_end_moves(s, j0, both, 0);
    assert(between.subrange(0, eq - k) =~= s.subrange(k, eq));
    assert(between[eq - k] == s[eq]);
    lemma_skip_blanks_moves(s, k, between, 0);
}

/// The entries that a text is read as are sound, where those read so far are.
proof fn lemma_parse_from_sound(s: Seq<u8>, i: int, entries: Seq<EntryView>)
    requires
        forall|k: int| 0 <= k < entries.len() ==> (#[trigger] entries[k]).is_sound(),
    ensures
        parse_from(s, i, entries) matches Ok(all) ==> all.len() > 0 && forall|k: int|
            0 <= k < all.len() ==> (#[trigger] all[k]).is_sound(),
    decreases s.len() - i,
{
    lemma_line_scan_sound(s, i);
    match line_scan(s, i) {
        None => {},
        Some((entry, e)) => {
            let more = entries.push(entry);
            assert forall|k: int| 0 <= k < more.len() implies (#[trigger] more[k]).is_sound() by {
                if k < entries.len() {
                    assert(more[k] == entries[k]);
                }
            }
            if i <= e < s.len() {
                lemma_parse_from_sound(s, e + 1, more);
            }
        },
    }
}

/// Every document that is read is sound.
pub proof fn lemma_read_is_sound(s: Seq<u8>)
    ensures
        parse_text(s) matches Ok(document) ==> document.is_sound(),
{
    lemma_parse_from_sound(s, 0, Seq::empty());
}

/// The items that stay after a removal are sound, where all were.
pub proof fn lemma_kept_items_sound(items: Seq<ItemView>, name: Seq<u8>, depth: nat)
    requires
        forall|k: int| 0 <= k < items.len() ==> (#[trigger] items[k]).is_sound(depth),
    ensures
        forall|k: int|
            0 <= k < items_without(items, name).len() ==> (#[trigger] items_without(
                items,
                name,
            )[k]).is_sound(depth),
    decreases items.len(),
{
    if items.len() > 0 {
        let front = items.drop_last();
        assert forall|k: int| 0 <= k < front.len() implies (#[trigger] front[k]).is_sound(
            depth,
        ) by {
            assert(front[k] == items[k]);
        }
        lemma_kept_items_sound(front, name, depth);
        let kept = items_without(items, name);
        let before = items_without(front, name);
        assert(items.last() == items[items.len() - 1]);
        assert(items.last().is_sound(depth));
        assert forall|k: int| 0 <= k < kept.len() implies (#[trigger] kept[k]).is_sound(
            depth,
        ) by {
            if k < before.len() {
                assert(kept[k] == before[k]);
                assert(before[k].is_sound(depth));
            } else {
                assert(kept[k] == items.last());
            }
        }
    }
}

/// A removal from the array at an entry leaves a sound document sound.
pub proof fn lemma_removal_at_stays_sound(document: DocumentView, at: Option<int>, name: Seq<u8>)
    requires
        document.is_sound(),
        at matches Some(at) ==> 0 <= at < document.entries.len(),
    ensures
        document.without_at(at, name).is_sound(),
{
    match at {
        Some(at) => {
            assert(document.entries[at].is_sound());
            match document.entries[at] {
                EntryView::Pair { value: ValueView::Array(array), .. } => {
                    lemma_kept_items_sound(array.items, name, (MAX_DEPTH - 1) as nat);
                },
                _ => {},
            }
            let edited = document.without_at(Some(at), name);
            assert forall|k: int| 0 <= k < edited.entries.len() implies (
            #[trigger] edited.entries[k]).is_sound() by {
                if k != at {
                    assert(document.entries[k].is_sound());
                }
            }
        },
        None => {},
    }
}

/// A removal from the array at a path leaves a sound document sound.
pub proof fn lemma_removal_in_stays_sound(
    document: DocumentView,
    table: Seq<u8>,
    word: Seq<u8>,
    name: Seq<u8>,
)
    requires
        document.is_sound(),
    ensures
        document.without_in(table, word, name).is_sound(),
{
    lemma_find_key_bounds(document.entries, 0, table.len() == 0, table, word);
    lemma_removal_at_stays_sound(document, document.key_at(table, word), name);
}

/// A removal leaves a sound document sound.
pub proof fn lemma_removal_stays_sound(document: DocumentView, name: Seq<u8>)
    requires
        document.is_sound(),
    ensures
        document.without(name).is_sound(),
{
    lemma_find_in_project_bounds(document.entries, 0, false, dependencies_word());
    lemma_removal_at_stays_sound(document, document.dependencies_at(), name);
}

} // verus!
