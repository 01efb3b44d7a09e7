//! The document as data: what a manifest is once it has been read, and the
//! text that each part of it stands for.
//!
//! A document is a list of entries, one per logical line. Each entry keeps
//! the bytes it was read from, cut into pieces; the text of the document is
//! these pieces put back together, with a newline between entries. An array
//! value is cut further, into its items, so that an item can be taken out and
//! everything around it stays as it was written.
//!
//! An item owns what stands before its value, back to the end of the line
//! that the item before it closes: the blanks and the lines, empty or with a
//! comment, above it. It owns what stands between its value and its comma. And
//! it owns the rest of its line after its comma (or after its value, where it
//! has no comma), the newline included, where that rest is nothing but blanks
//! and maybe a comment. So does the array own the rest of the line of its
//! opening bracket. In an array with one item to the line, an item is its
//! line, with the lines of comment above it.

use crate::scan::CLOSE_BRACKET;
use crate::scan::COMMA;
use crate::scan::NEWLINE;
use crate::scan::OPEN_BRACKET;
use vstd::prelude::*;

verus! {

/// One item of an array, as mathematical data.
pub ghost struct ItemView {
    /// Blanks, newlines and comments before the value.
    pub prefix: Seq<u8>,
    /// The value as written.
    pub value: Seq<u8>,
    /// Blanks, newlines and comments between the value and the comma after it.
    pub suffix: Seq<u8>,
    /// The rest of the item's line, where that is nothing but blanks and
    /// maybe a comment: what stands after the item's comma, or after its value
    /// where no comma follows, up to the newline and with it.
    pub tail: Seq<u8>,
}

/// An array, as mathematical data.
pub ghost struct ArrayView {
    /// The rest of the line of the opening bracket, where that is nothing but
    /// blanks and maybe a comment, up to the newline and with it.
    pub head: Seq<u8>,
    pub items: Seq<ItemView>,
    /// Whether a comma follows the last item.
    pub trailing_comma: bool,
    /// Blanks, newlines and comments before the closing bracket.
    pub trailing: Seq<u8>,
}

/// A value, as mathematical data.
pub ghost enum ValueView {
    /// A string, number, date, boolean or inline table, as written.
    Plain(Seq<u8>),
    Array(ArrayView),
}

/// An entry, as mathematical data.
pub ghost enum EntryView {
    /// A line with nothing but blanks and, maybe, a comment.
    Blank { text: Seq<u8> },
    /// A table header, `[name]`, or with `repeated` an array-of-tables header,
    /// `[[name]]`. `before` runs up to the name, `after` from its end.
    Header { before: Seq<u8>, name: Seq<u8>, after: Seq<u8>, repeated: bool },
    /// A key with its value. `between` holds the `=` and the blanks around it;
    /// `after` holds the blanks and the comment that end the line.
    Pair { before: Seq<u8>, key: Seq<u8>, between: Seq<u8>, value: ValueView, after: Seq<u8> },
}

/// A document, as mathematical data.
pub ghost struct DocumentView {
    pub entries: Seq<EntryView>,
}

impl ItemView {
    /// The text of the item; with `followed`, the comma after it too.
    pub open spec fn text(self, followed: bool) -> Seq<u8> {
        self.prefix + self.value + self.suffix + (if followed {
            seq![COMMA]
        } else {
            Seq::empty()
        }) + self.tail
    }
}

/// The text of a list of items of which each is followed by a comma.
pub open spec fn followed_text(items: Seq<ItemView>) -> Seq<u8>
    decreases items.len(),
{
    if items.len() == 0 {
        Seq::empty()
    } else {
        followed_text(items.drop_last()) + items.last().text(true)
    }
}

/// The text of a list of items: a comma follows each item but the last, and
/// the last too where `trailing_comma` says so.
pub open spec fn items_text(items: Seq<ItemView>, trailing_comma: bool) -> Seq<u8> {
    if items.len() == 0 {
        Seq::empty()
    } else {
        followed_text(items.drop_last()) + items.last().text(trailing_comma)
    }
}

impl ArrayView {
    /// What stands between the brackets: the head, the items and the
    /// trailing text.
    pub open spec fn inner_text(self) -> Seq<u8> {
        self.head + items_text(self.items, self.trailing_comma) + self.trailing
    }

    /// The text of the array, with its brackets.
    pub open spec fn text(self) -> Seq<u8> {
        seq![OPEN_BRACKET] + self.inner_text() + seq![CLOSE_BRACKET]
    }
}

impl ValueView {
    /// The text of the value.
    pub open spec fn text(self) -> Seq<u8> {
        match self {
            ValueView::Plain(raw) => raw,
            ValueView::Array(array) => array.text(),
        }
    }
}

impl EntryView {
    /// The text of the entry, without the newline that ends its line.
    pub open spec fn text(self) -> Seq<u8> {
        match self {
            EntryView::Blank { text } => text,
            EntryView::Header { before, name, after, repeated } => before + name + after,
            EntryView::Pair { before, key, between, value, after } => before + key + between
                + value.text() + after,
        }
    }
}

/// The text of a list of entries: the entries with a newline between neighbours.
pub open spec fn entries_text(entries: Seq<EntryView>) -> Seq<u8>
    decreases entries.len(),
{
    if entries.len() == 0 {
        Seq::empty()
    } else if entries.len() == 1 {
        entries[0].text()
    } else {
        entries_text(entries.drop_last()) + seq![NEWLINE] + entries.last().text()
    }
}

impl DocumentView {
    /// The text of the document.
    pub open spec fn text(self) -> Seq<u8> {
        entries_text(self.entries)
    }
}

/// One item of an array.
pub struct Item {
    pub prefix: Vec<u8>,
    pub value: Vec<u8>,
    pub suffix: Vec<u8>,
    pub tail: Vec<u8>,
}

/// An array value, cut into its items.
pub struct Array {
    pub head: Vec<u8>,
    pub items: Vec<Item>,
    pub trailing_comma: bool,
    pub trailing: Vec<u8>,
}

/// The value of a key.
pub enum Value {
    Plain(Vec<u8>),
    Array(Array),
}

/// One logical line of a document.
pub enum Entry {
    Blank { text: Vec<u8> },
    Header { before: Vec<u8>, name: Vec<u8>, after: Vec<u8>, repeated: bool },
    Pair { before: Vec<u8>, key: Vec<u8>, between: Vec<u8>, value: Value, after: Vec<u8> },
}

/// A manifest that has been read.
pub struct Document {
    pub entries: Vec<Entry>,
}

impl View for Item {
    type V = ItemView;

    open spec fn view(&self) -> ItemView {
        ItemView {
            prefix: self.prefix@,
            value: self.value@,
            suffix: self.suffix@,
            tail: self.tail@,
        }
    }
}

/// The items of a vector, as mathematical data.
pub open spec fn items_view(items: Seq<Item>) -> Seq<ItemView> {
    Seq::new(items.len(), |i: int| items[i]@)
}

impl View for Array {
    type V = ArrayView;

    open spec fn view(&self) -> ArrayView {
        ArrayView {
            head: self.head@,
            items: items_view(self.items@),
            trailing_comma: self.trailing_comma,
            trailing: self.trailing@,
        }
    }
}

impl View for Value {
    type V = ValueView;

    open spec fn view(&self) -> ValueView {
        match self {
            Value::Plain(raw) => ValueView::Plain(raw@),
            Value::Array(array) => ValueView::Array(array@),
        }
    }
}

impl View for Entry {
    type V = EntryView;

    open spec fn view(&self) -> EntryView {
        match self {
            Entry::Blank { text } => EntryView::Blank { text: text@ },
            Entry::Header { before, name, after, repeated } => EntryView::Header {
                before: before@,
                name: name@,
                after: after@,
                repeated: *repeated,
            },
            Entry::Pair { before, key, between, value, after } => EntryView::Pair {
                before: before@,
                key: key@,
                between: between@,
                value: value@,
                after: after@,
            },
        }
    }
}

/// The entries of a vector, as mathematical data.
pub open spec fn entries_view(entries: Seq<Entry>) -> Seq<EntryView> {
    Seq::new(entries.len(), |i: int| entries[i]@)
}

impl View for Document {
    type V = DocumentView;

    open spec fn view(&self) -> DocumentView {
        DocumentView { entries: entries_view(self.entries@) }
    }
}

} // verus!
