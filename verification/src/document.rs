//! Reading a manifest into a document and writing a document back to text.
//!
//! The text is a list of logical lines with a newline between neighbours. A
//! line is blank (maybe with a comment), a header, or a key with its value; a
//! value may run over several physical lines. Reading keeps every byte, so
//! that writing an unchanged document gives back the text that was read.

use crate::bytes::append_bytes;
use crate::bytes::copy_range;
use crate::model::entries_text;
use crate::model::entries_view;
use crate::model::followed_text;
use crate::model::items_text;
use crate::model::items_view;
use crate::model::Array;
use crate::model::Document;
use crate::model::DocumentView;
use crate::model::Entry;
use crate::model::EntryView;
use crate::model::Item;
use crate::model::Value;
use crate::model::ValueView;
use crate::scan::is_blank;
use crate::scan::lemma_line_end_bounds;
use crate::scan::lemma_path_end_bounds;
use crate::scan::lemma_skip_blanks_bounds;
use crate::scan::lemma_tail_end_bounds;
use crate::scan::line_end;
use crate::scan::path_end;
use crate::scan::scan_blanks;
use crate::scan::scan_line_end;
use crate::scan::scan_path;
use crate::scan::scan_tail;
use crate::scan::skip_blanks;
use crate::scan::tail_end;
use crate::scan::CLOSE_BRACKET;
use crate::scan::COMMA;
use crate::scan::EQUALS;
use crate::scan::HASH;
use crate::scan::NEWLINE;
use crate::scan::OPEN_BRACKET;
use crate::soundness::lemma_read_is_sound;
use crate::value::lemma_value_at_text;
use crate::value::read_value;
use crate::value::value_at;
use vstd::prelude::*;

verus! {

/// Why a text is no manifest: the logical line that starts at `offset` is
/// neither blank, nor a header, nor a key with a value.
#[derive(Debug, Clone, Copy, PartialEq, Eq, Structural)]
pub struct ParseError {
    pub offset: usize,
}

/// Whether the bracket, or the two brackets, that close a header stand at `c`.
pub open spec fn header_closes(s: Seq<u8>, c: int, repeated: bool) -> bool {
    &&& 0 <= c < s.len()
    &&& s[c] == CLOSE_BRACKET
    &&& repeated ==> c + 1 < s.len() && s[c + 1] == CLOSE_BRACKET
}

/// The logical line that starts at `i`, with the position at which it ends:
/// the end of the text, or the newline after the line.
pub open spec fn line_scan(s: Seq<u8>, i: int) -> Option<(EntryView, int)> {
    let j = skip_blanks(s, i);
    if !(0 <= i <= j <= s.len()) {
        None
    } else if j == s.len() || s[j] == NEWLINE || s[j] == HASH {
        let e = line_end(s, j);
        Some((EntryView::Blank { text: s.subrange(i, e) }, e))
    } else if s[j] == OPEN_BRACKET {
        let repeated = j + 1 < s.len() && s[j + 1] == OPEN_BRACKET;
        let width: int = if repeated {
            2
        } else {
            1
        };
        let start = skip_blanks(s, j + width);
        match path_end(s, start) {
            None => None,
            Some(end) => {
                let c = skip_blanks(s, end);
                if header_closes(s, c, repeated) {
                    match tail_end(s, c + width) {
                        None => None,
                        Some(e) => Some(
                            (
                                EntryView::Header {
                                    before: s.subrange(i, start),
                                    name: s.subrange(start, end),
                                    after: s.subrange(end, e),
                                    repeated,
                                },
                                e,
                            ),
                        ),
                    }
                } else {
                    None
                }
            },
        }
    } else {
        match path_end(s, j) {
            None => None,
            Some(k) => {
                let eq = skip_blanks(s, k);
                if 0 <= eq < s.len() && s[eq] == EQUALS {
                    let start = skip_blanks(s, eq + 1);
                    match value_at(s, start) {
                        None => None,
                        Some((value, end)) => match tail_end(s, end) {
                            None => None,
                            Some(e) => Some(
                                (
                                    EntryView::Pair {
                                        before: s.subrange(i, j),
                                        key: s.subrange(j, k),
                                        between: s.subrange(k, start),
                                        value,
                                        after: s.subrange(end, e),
                                    },
                                    e,
                                ),
                            ),
                        },
                    }
                } else {
                    None
                }
            },
        }
    }
}

/// The entries of the text from `i` on, added to `entries`; or the position
/// of the first line that cannot be read.
pub open spec fn parse_from(s: Seq<u8>, i: int, entries: Seq<EntryView>) -> Result<
    Seq<EntryView>,
    int,
>
    decreases s.len() - i,
{
    match line_scan(s, i) {
        None => Err(i),
        Some((entry, e)) => if i <= e < s.len() {
            parse_from(s, e + 1, entries.push(entry))
        } else {
            Ok(entries.push(entry))
        },
    }
}

/// The document that a text spells, or the position of the first line that
/// cannot be read.
pub open spec fn parse_text(s: Seq<u8>) -> Result<DocumentView, int> {
    match parse_from(s, 0, Seq::empty()) {
        Ok(entries) => Ok(DocumentView { entries }),
        Err(offset) => Err(offset),
    }
}

/// The pieces of a line that is read as a key with its value: where each is
/// found, and what the line is read as.
#[verifier::rlimit(40)]
pub proof fn lemma_pair_parts(s: Seq<u8>, i: int)
    requires
        line_scan(s, i) is Some,
        0 <= i <= skip_blanks(s, i) < s.len(),
        s[skip_blanks(s, i)] != NEWLINE,
        s[skip_blanks(s, i)] != HASH,
        s[skip_blanks(s, i)] != OPEN_BRACKET,
    ensures
        ({
            let j0 = skip_blanks(s, i);
            let k = path_end(s, j0)->0;
            let eq = skip_blanks(s, k);
            let start = skip_blanks(s, eq + 1);
            let value = (value_at(s, start)->0).0;
            let end = (value_at(s, start)->0).1;
            let e = tail_end(s, end)->0;
            &&& path_end(s, j0) is Some
            &&& value_at(s, start) is Some
            &&& tail_end(s, end) is Some
            &&& j0 < k <= eq < start < end <= e <= s.len()
            &&& s[eq] == EQUALS
            &&& e < s.len() ==> s[e] == NEWLINE
            &&& end < e ==> is_blank(s[end]) || s[end] == HASH
            &&& line_scan(s, i) == Some(
                (
                    EntryView::Pair {
                        before: s.subrange(i, j0),
                        key: s.subrange(j0, k),
                        between: s.subrange(k, start),
                        value,
                        after: s.subrange(end, e),
                    },
                    e,
                ),
            )
        }),
{
    let j0 = skip_blanks(s, i);
    lemma_path_end_bounds(s, j0);
    let k = path_end(s, j0)->0;
    lemma_skip_blanks_bounds(s, k);
    let eq = skip_blanks(s, k);
    lemma_skip_blanks_bounds(s, eq + 1);
    let start = skip_blanks(s, eq + 1);
    lemma_value_at_text(s, start);
    let end = (value_at(s, start)->0).1;
    lemma_tail_end_bounds(s, end);
    lemma_skip_blanks_bounds(s, end);
    lemma_line_end_bounds(s, skip_blanks(s, end));
}

/// A line whose pieces are found one after the other is read as a key with
/// its value.
pub proof fn lemma_pair_scan(
    t: Seq<u8>,
    x: int,
    j0: int,
    k: int,
    eq: int,
    start: int,
    value: ValueView,
    end: int,
    e: int,
)
    requires
        0 <= x <= j0 < k <= eq < start < end <= e <= t.len(),
        skip_blanks(t, x) == j0,
        t[j0] != NEWLINE,
        t[j0] != HASH,
        t[j0] != OPEN_BRACKET,
        path_end(t, j0) == Some(k),
        skip_blanks(t, k) == eq,
        t[eq] == EQUALS,
        skip_blanks(t, eq + 1) == start,
        value_at(t, start) == Some((value, end)),
        tail_end(t, end) == Some(e),
    ensures
        line_scan(t, x) == Some(
            (
                EntryView::Pair {
                    before: t.subrange(x, j0),
                    key: t.subrange(j0, k),
                    between: t.subrange(k, start),
                    value,
                    after: t.subrange(end, e),
                },
                e,
            ),
        ),
{
}

/// The pieces of a line that is read as a header: where each is found, and
/// what the line is read as.
#[verifier::rlimit(40)]
pub proof fn lemma_header_parts(s: Seq<u8>, i: int)
    requires
        line_scan(s, i) is Some,
        0 <= i <= skip_blanks(s, i) < s.len(),
        s[skip_blanks(s, i)] == OPEN_BRACKET,
    ensures
        ({
            let j0 = skip_blanks(s, i);
            let repeated = j0 + 1 < s.len() && s[j0 + 1] == OPEN_BRACKET;
            let width: int = if repeated {
                2
            } else {
                1
            };
            let start = skip_blanks(s, j0 + width);
            let end = path_end(s, start)->0;
            let c = skip_blanks(s, end);
            let e = tail_end(s, c + width)->0;
            &&& path_end(s, start) is Some
            &&& tail_end(s, c + width) is Some
            &&& header_closes(s, c, repeated)
            &&& j0 + width <= start < end <= c < c + width <= e <= s.len()
            &&& e < s.len() ==> s[e] == NEWLINE
            &&& line_scan(s, i) == Some(
                (
                    EntryView::Header {
                        before: s.subrange(i, start),
                        name: s.subrange(start, end),
                        after: s.subrange(end, e),
                        repeated,
                    },
                    e,
                ),
            )
        }),
{
    let j0 = skip_blanks(s, i);
    let repeated = j0 + 1 < s.len() && s[j0 + 1] == OPEN_BRACKET;
    let width: int = if repeated {
        2
    } else {
        1
    };
    lemma_skip_blanks_bounds(s, j0 + width);
    let start = skip_blanks(s, j0 + width);
    lemma_path_end_bounds(s, start);
    let end = path_end(s, start)->0;
    lemma_skip_blanks_bounds(s, end);
    let c = skip_blanks(s, end);
    lemma_tail_end_bounds(s, c + width);
}

/// A line whose pieces are found one after the other is read as a header.
pub proof fn lemma_header_scan(
    t: Seq<u8>,
    x: int,
    j0: int,
    repeated: bool,
    start: int,
    end: int,
    c: int,
    e: int,
)
    requires
        0 <= x <= j0 < start < end <= c < e <= t.len(),
        skip_blanks(t, x) == j0,
        t[j0] == OPEN_BRACKET,
        repeated == (j0 + 1 < t.len() && t[j0 + 1] == OPEN_BRACKET),
        skip_blanks(t, j0 + (if repeated {
            2int
        } else {
            1int
        })) == start,
        path_end(t, start) == Some(end),
        skip_blanks(t, end) == c,
        header_closes(t, c, repeated),
        tail_end(t, c + (if repeated {
            2int
        } else {
            1int
        })) == Some(e),
    ensures
        line_scan(t, x) == Some(
            (
                EntryView::Header {
                    before: t.subrange(x, start),
                    name: t.subrange(start, end),
                    after: t.subrange(end, e),
                    repeated,
                },
                e,
            ),
        ),
{
}

/// A line that was read spells the text it was read from, and ends at the end
/// of the text or at a newline.
#[verifier::rlimit(40)]
pub proof fn lemma_line_scan_text(s: Seq<u8>, i: int)
    ensures
        line_scan(s, i) matches Some((entry, e)) ==> 0 <= i <= e <= s.len() && entry.text()
            == s.subrange(i, e) && (e < s.len() ==> s[e] == NEWLINE),
{
    let j = skip_blanks(s, i);
    if 0 <= i <= s.len() {
        lemma_skip_blanks_bounds(s, i);
        if j == s.len() || s[j] == NEWLINE || s[j] == HASH {
            lemma_line_end_bounds(s, j);
        } else if s[j] == OPEN_BRACKET {
            let repeated = j + 1 < s.len() && s[j + 1] == OPEN_BRACKET;
            let width: int = if repeated {
                2
            } else {
                1
            };
            lemma_skip_blanks_bounds(s, j + width);
            let start = skip_blanks(s, j + width);
            lemma_path_end_bounds(s, start);
            match path_end(s, start) {
                None => {},
                Some(end) => {
                    lemma_skip_blanks_bounds(s, end);
                    let c = skip_blanks(s, end);
                    if header_closes(s, c, repeated) {
                        lemma_tail_end_bounds(s, c + width);
                        match tail_end(s, c + width) {
                            None => {},
                            Some(e) => {
                                assert(s.subrange(i, start) + s.subrange(start, end) + s.subrange(
                                    end,
                                    e,
                                ) =~= s.subrange(i, e));
                            },
                        }
                    }
                },
            }
        } else {
            lemma_path_end_bounds(s, j);
            match path_end(s, j) {
                None => {},
                Some(k) => {
                    lemma_skip_blanks_bounds(s, k);
                    let eq = skip_blanks(s, k);
                    if 0 <= eq < s.len() && s[eq] == EQUALS {
                        lemma_skip_blanks_bounds(s, eq + 1);
                        let start = skip_blanks(s, eq + 1);
                        lemma_value_at_text(s, start);
                        match value_at(s, start) {
                            None => {},
                            Some((value, end)) => {
                                lemma_tail_end_bounds(s, end);
                                match tail_end(s, end) {
                                    None => {},
                                    Some(e) => {
                                        assert(s.subrange(i, j) + s.subrange(j, k) + s.subrange(
                                            k,
                                            start,
                                        ) + s.subrange(start, end) + s.subrange(end, e)
                                            =~= s.subrange(i, e));
                                    },
                                }
                            },
                        }
                    }
                },
            }
        }
    }
}

/// The entries read so far spell the text before `i`; then the entries of the
/// whole text spell the whole text.
proof fn lemma_parse_from_text(s: Seq<u8>, i: int, entries: Seq<EntryView>)
    requires
        0 <= i <= s.len(),
        entries.len() == 0 ==> i == 0,
        entries.len() > 0 ==> i > 0 && entries_text(entries) + seq![NEWLINE] == s.subrange(0, i),
    ensures
        parse_from(s, i, entries) matches Ok(all) ==> entries_text(all) == s && all.len() > 0,
    decreases s.len() - i,
{
    lemma_line_scan_text(s, i);
    match line_scan(s, i) {
        None => {},
        Some((entry, e)) => {
            let more = entries.push(entry);
            assert(more.drop_last() =~= entries);
            assert(entries_text(more) =~= s.subrange(0, e)) by {
                if entries.len() > 0 {
                    assert(s.subrange(0, i) + s.subrange(i, e) =~= s.subrange(0, e));
                }
            }
            if e < s.len() {
                assert(s.subrange(0, e) + seq![NEWLINE] =~= s.subrange(0, e + 1));
                lemma_parse_from_text(s, e + 1, more);
            } else {
                assert(s.subrange(0, e) =~= s);
            }
        },
    }
}

/// Reading then writing is the identity: the document that a text spells has
/// that text.
pub proof fn lemma_round_trip(s: Seq<u8>)
    ensures
        parse_text(s) matches Ok(document) ==> document.text() == s,
{
    lemma_parse_from_text(s, 0, Seq::empty());
}

/// Reads the logical line that starts at `i`.
#[verifier::rlimit(40)]
pub fn read_line(s: &[u8], i: usize) -> (r: Option<(Entry, usize)>)
    requires
        i <= s@.len(),
    ensures
        match r {
            Some((entry, e)) => line_scan(s@, i as int) == Some((entry@, e as int)) && i <= e
                <= s@.len() && (e < s@.len() ==> s@[e as int] == NEWLINE),
            None => line_scan(s@, i as int) is None,
        },
{
    let n = s.len();
    let j = scan_blanks(s, i);
    if j == n || s[j] == NEWLINE || s[j] == HASH {
        let e = scan_line_end(s, j);
        proof {
            lemma_line_end_bounds(s@, j as int);
        }
        return Some((Entry::Blank { text: copy_range(s, i, e) }, e));
    }
    if s[j] == OPEN_BRACKET {
        let repeated = n - j > 1 && s[j + 1] == OPEN_BRACKET;
        let width: usize = if repeated {
            2
        } else {
            1
        };
        let start = scan_blanks(s, j + width);
        let end = match scan_path(s, start) {
            Some(end) => end,
            None => {
                return None;
            },
        };
        let c = scan_blanks(s, end);
        if c >= n || s[c] != CLOSE_BRACKET {
            return None;
        }
        if repeated && (n - c < 2 || s[c + 1] != CLOSE_BRACKET) {
            return None;
        }
        let e = match scan_tail(s, c + width) {
            Some(e) => e,
            None => {
                return None;
            },
        };
        let entry = Entry::Header {
            before: copy_range(s, i, start),
            name: copy_range(s, start, end),
            after: copy_range(s, end, e),
            repeated,
        };
        return Some((entry, e));
    }
    let k = match scan_path(s, j) {
        Some(k) => k,
        None => {
            return None;
        },
    };
    let eq = scan_blanks(s, k);
    if eq >= n || s[eq] != EQUALS {
        return None;
    }
    let start = scan_blanks(s, eq + 1);
    let (value, end) = match read_value(s, start) {
        Some(found) => found,
        None => {
            return None;
        },
    };
    let e = match scan_tail(s, end) {
        Some(e) => e,
        None => {
            return None;
        },
    };
    let entry = Entry::Pair {
        before: copy_range(s, i, j),
        key: copy_range(s, j, k),
        between: copy_range(s, k, start),
        value,
        after: copy_range(s, end, e),
    };
    Some((entry, e))
}

impl Document {
    /// Reads a manifest. Every text that is a list of well-formed lines is
    /// read; the document has that text and is sound. Any other text is
    /// refused with the position of its first line that is not well formed.
    pub fn parse(text: &[u8]) -> (r: Result<Document, ParseError>)
        ensures
            match r {
                Ok(document) => parse_text(text@) == Ok::<DocumentView, int>(document@)
                    && document@.text() == text@ && document@.is_sound(),
                Err(error) => parse_text(text@) == Err::<DocumentView, int>(error.offset as int),
            },
    {
        let mut entries: Vec<Entry> = Vec::new();
        let mut pos: usize = 0;
        assert(entries_view(entries@) =~= Seq::empty());
        loop
            invariant
                pos <= text@.len(),
                parse_from(text@, 0, Seq::empty()) == parse_from(
                    text@,
                    pos as int,
                    entries_view(entries@),
                ),
            decreases text@.len() - pos,
        {
            match read_line(text, pos) {
                None => {
                    return Err(ParseError { offset: pos });
                },
                Some((entry, e)) => {
                    assert(entries_view(entries@.push(entry)) =~= entries_view(entries@).push(
                        entry@,
                    ));
                    entries.push(entry);
                    if e < text.len() {
                        pos = e + 1;
                    } else {
                        proof {
                            lemma_round_trip(text@);
                            lemma_read_is_sound(text@);
                        }
                        return Ok(Document { entries });
                    }
                },
            }
        }
    }

    /// Writes the document: the text of its entries, a newline between
    /// neighbours.
    pub fn to_bytes(&self) -> (out: Vec<u8>)
        ensures
            out@ == self@.text(),
    {
        let mut out: Vec<u8> = Vec::new();
        let mut i: usize = 0;
        while i < self.entries.len()
            invariant
                i <= self.entries@.len(),
                out@ == entries_text(entries_view(self.entries@).subrange(0, i as int)),
            decreases self.entries@.len() - i,
        {
            let ghost done = entries_view(self.entries@).subrange(0, i as int);
            let ghost next = entries_view(self.entries@).subrange(0, i + 1);
            assert(next.drop_last() =~= done);
            assert(next.last() == self.entries@[i as int]@);
            if i > 0 {
                out.push(NEWLINE);
            }
            write_entry(&mut out, &self.entries[i]);
            assert(out@ =~= entries_text(next));
            i += 1;
        }
        assert(entries_view(self.entries@).subrange(0, i as int) =~= entries_view(self.entries@));
        out
    }
}

/// Appends the text of an entry to `out`.
pub fn write_entry(out: &mut Vec<u8>, entry: &Entry)
    ensures
        final(out)@ == old(out)@ + entry@.text(),
{
    match entry {
        Entry::Blank { text } => {
            append_bytes(out, text.as_slice());
        },
        Entry::Header { before, name, after, repeated } => {
            append_bytes(out, before.as_slice());
            append_bytes(out, name.as_slice());
            append_bytes(out, after.as_slice());
            assert(out@ =~= old(out)@ + entry@.text());
        },
        Entry::Pair { before, key, between, value, after } => {
            append_bytes(out, before.as_slice());
            append_bytes(out, key.as_slice());
            append_bytes(out, between.as_slice());
            match value {
                Value::Plain(raw) => {
                    append_bytes(out, raw.as_slice());
                },
                Value::Array(array) => {
                    write_array(out, array);
                },
            }
            append_bytes(out, after.as_slice());
            assert(out@ =~= old(out)@ + entry@.text());
        },
    }
}

/// Appends the text of an item to `out`; with `followed`, the comma after
/// it too.
pub fn write_item(out: &mut Vec<u8>, item: &Item, followed: bool)
    ensures
        final(out)@ == old(out)@ + item@.text(followed),
{
    append_bytes(out, item.prefix.as_slice());
    append_bytes(out, item.value.as_slice());
    append_bytes(out, item.suffix.as_slice());
    if followed {
        out.push(COMMA);
    }
    append_bytes(out, item.tail.as_slice());
    assert(out@ =~= old(out)@ + item@.text(followed));
}

/// Appends the text of an array to `out`.
pub fn write_array(out: &mut Vec<u8>, array: &Array)
    ensures
        final(out)@ == old(out)@ + array@.text(),
{
    out.push(OPEN_BRACKET);
    append_bytes(out, array.head.as_slice());
    let ghost start = out@;
    let n = array.items.len();
    let mut i: usize = 0;
    while i + 1 < n
        invariant
            n == array.items@.len(),
            i <= n,
            n > 0 ==> i < n,
            out@ == start + followed_text(items_view(array.items@).subrange(0, i as int)),
        decreases n - i,
    {
        let ghost done = items_view(array.items@).subrange(0, i as int);
        let ghost next = items_view(array.items@).subrange(0, i + 1);
        assert(next.drop_last() =~= done);
        assert(next.last() == array.items@[i as int]@);
        write_item(out, &array.items[i], true);
        assert(out@ =~= start + followed_text(next));
        i += 1;
    }
    if n > 0 {
        assert(items_view(array.items@).subrange(0, i as int) =~= items_view(
            array.items@,
        ).drop_last());
        assert(items_view(array.items@).last() == array.items@[i as int]@);
        write_item(out, &array.items[i], array.trailing_comma);
    } else {
        assert(items_view(array.items@).subrange(0, 0) =~= Seq::empty());
    }
    assert(out@ =~= start + items_text(items_view(array.items@), array.trailing_comma));
    append_bytes(out, array.trailing.as_slice());
    out.push(CLOSE_BRACKET);
    assert(out@ =~= old(out)@ + array@.text());
}

} // verus!
