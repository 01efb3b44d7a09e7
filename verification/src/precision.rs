//! What a removal changes and what it leaves alone.
//!
//! The laws here are stated over documents as mathematical data. They say
//! that a removal takes out the items that ask for the name and no others,
//! that the text around the dependency list and the text of every item that
//! stays are the bytes that were there before, and that removing one name
//! never adds a dependency on another.

use crate::editor::dependencies_word;
use crate::editor::find_in_project;
use crate::editor::items_asking;
use crate::editor::items_without;
use crate::editor::lemma_find_in_project_bounds;
use crate::editor::project_word;
use crate::model::entries_text;
use crate::model::items_text;
use crate::model::ArrayView;
use crate::model::DocumentView;
use crate::model::EntryView;
use crate::model::ItemView;
use crate::model::ValueView;
use crate::requirement::entry_name;
use crate::reread::item_values;
use crate::scan::NEWLINE;
use vstd::prelude::*;

verus! {

/// A removal parts the items in two: those that stay do not ask for the
/// name, those that leave do, and every item is on one side. Where no item
/// asks for the name, all stay.
pub proof fn lemma_items_parted(items: Seq<ItemView>, name: Seq<u8>)
    ensures
        forall|i: int|
            0 <= i < items_without(items, name).len() ==> entry_name(
                (#[trigger] items_without(items, name)[i]).value,
            ) != Some(name),
        forall|i: int|
            0 <= i < items_asking(items, name).len() ==> entry_name(
                (#[trigger] items_asking(items, name)[i]).value,
            ) == Some(name),
        items_without(items, name).len() + items_asking(items, name).len() == items.len(),
        items_asking(items, name).len() == 0 ==> items_without(items, name) == items,
        items_without(items, name).len() == items.len() ==> items_without(items, name) == items,
    decreases items.len(),
{
    if items.len() > 0 {
        lemma_items_parted(items.drop_last(), name);
        if entry_name(items.last().value) != Some(name) {
            assert(items.drop_last().push(items.last()) =~= items);
        }
    }
}

/// The items that stay are the items that do not ask for the name, in the
/// order in which they stood; and likewise the items that leave.
pub proof fn lemma_items_filtered(items: Seq<ItemView>, name: Seq<u8>)
    ensures
        items_without(items, name) == items.filter(
            |item: ItemView| entry_name(item.value) != Some(name),
        ),
        items_asking(items, name) == items.filter(
            |item: ItemView| entry_name(item.value) == Some(name),
        ),
    decreases items.len(),
{
    reveal(Seq::filter);
    if items.len() > 0 {
        lemma_items_filtered(items.drop_last(), name);
    }
}

/// The values among `values` that do not ask for `name`, in their order.
pub open spec fn values_without(values: Seq<Seq<u8>>, name: Seq<u8>) -> Seq<Seq<u8>> {
    values.filter(|value: Seq<u8>| entry_name(value) != Some(name))
}

/// The values of the items that stay are the values that do not ask for the
/// name.
pub proof fn lemma_kept_values(items: Seq<ItemView>, name: Seq<u8>)
    ensures
        item_values(items_without(items, name)) == values_without(item_values(items), name),
    decreases items.len(),
{
    reveal(Seq::filter);
    let values = item_values(items);
    if items.len() > 0 {
        lemma_kept_values(items.drop_last(), name);
        assert(values.drop_last() =~= item_values(items.drop_last()));
        assert(values.last() == items.last().value);
        let kept = items_without(items.drop_last(), name);
        if entry_name(items.last().value) != Some(name) {
            assert(item_values(kept.push(items.last())) =~= item_values(kept).push(
                items.last().value,
            ));
        }
    } else {
        assert(item_values(items_without(items, name)) =~= values);
    }
}

/// After the removal of `gone`, the items that ask for `name` are none if
/// `name` is `gone`, and as many as before if it is not.
pub proof fn lemma_asking_after_removal(items: Seq<ItemView>, gone: Seq<u8>, name: Seq<u8>)
    ensures
        items_asking(items_without(items, gone), name).len() == if name == gone {
            0
        } else {
            items_asking(items, name).len()
        },
    decreases items.len(),
{
    if items.len() > 0 {
        lemma_asking_after_removal(items.drop_last(), gone, name);
        if entry_name(items.last().value) != Some(gone) {
            let kept = items_without(items.drop_last(), gone).push(items.last());
            assert(kept.drop_last() =~= items_without(items.drop_last(), gone));
        }
    }
}

/// The same, for an array and what a removal makes of it.
pub proof fn lemma_array_asking_after_removal(array: ArrayView, gone: Seq<u8>, name: Seq<u8>)
    ensures
        items_asking(array.without(gone).items, name).len() == if name == gone {
            0
        } else {
            items_asking(array.items, name).len()
        },
{
    lemma_asking_after_removal(array.items, gone, name);
}

/// The text before the entry at `at`, with the newline that ends it.
pub open spec fn text_before(entries: Seq<EntryView>, at: int) -> Seq<u8> {
    if at <= 0 {
        Seq::empty()
    } else {
        entries_text(entries.subrange(0, at)) + seq![NEWLINE]
    }
}

/// The text after the entry at `at`, with the newline that starts it.
pub open spec fn text_after(entries: Seq<EntryView>, at: int) -> Seq<u8>
    decreases entries.len() - at,
{
    if at + 1 >= entries.len() || at < 0 {
        Seq::empty()
    } else {
        seq![NEWLINE] + entries[at + 1].text() + text_after(entries, at + 1)
    }
}

/// The text of a list of entries is the text before one of them, the text of
/// that entry, and the text after it.
pub proof fn lemma_entries_text_split(entries: Seq<EntryView>, at: int)
    requires
        0 <= at < entries.len(),
    ensures
        entries_text(entries) == text_before(entries, at) + entries[at].text() + text_after(
            entries,
            at,
        ),
    decreases entries.len() - at,
{
    let front = entries.subrange(0, at + 1);
    assert(front.drop_last() =~= entries.subrange(0, at));
    assert(front.last() == entries[at]);
    assert(entries_text(front) =~= text_before(entries, at) + entries[at].text()) by {
        if at == 0 {
            assert(front[0] == entries[0]);
        }
    }
    if at + 1 == entries.len() {
        assert(front =~= entries);
        assert(entries_text(entries) =~= text_before(entries, at) + entries[at].text() + text_after(
            entries,
            at,
        ));
    } else {
        lemma_entries_text_split(entries, at + 1);
        assert(text_before(entries, at + 1) == entries_text(front) + seq![NEWLINE]);
        assert(entries_text(entries) =~= text_before(entries, at) + entries[at].text() + text_after(
            entries,
            at,
        ));
    }
}

/// The text around an entry does not depend on that entry.
pub proof fn lemma_surroundings_stay(entries: Seq<EntryView>, at: int, entry: EntryView)
    requires
        0 <= at < entries.len(),
    ensures
        text_before(entries.update(at, entry), at) == text_before(entries, at),
        text_after(entries.update(at, entry), at) == text_after(entries, at),
{
    assert(entries.update(at, entry).subrange(0, at) =~= entries.subrange(0, at));
    lemma_text_after_from(entries, entries.update(at, entry), at);
}

/// The text after `at` is that of the entries after `at`.
proof fn lemma_text_after_from(a: Seq<EntryView>, b: Seq<EntryView>, at: int)
    requires
        a.len() == b.len(),
        0 <= at < a.len(),
        forall|i: int| at < i < a.len() ==> a[i] == b[i],
    ensures
        text_after(a, at) == text_after(b, at),
    decreases a.len() - at,
{
    if at + 1 < a.len() {
        lemma_text_after_from(a, b, at + 1);
    }
}

impl DocumentView {
    /// The dependency list, where the document has one that is an array.
    pub open spec fn dependency_array(self) -> Option<ArrayView> {
        match self.dependencies_at() {
            Some(at) => match self.entries[at] {
                EntryView::Pair { value: ValueView::Array(array), .. } => Some(array),
                _ => None,
            },
            None => None,
        }
    }

    /// The text from the start of the document to the dependency list.
    pub open spec fn text_up_to_dependencies(self) -> Seq<u8>
        recommends
            self.dependency_array() is Some,
    {
        let at = self.dependencies_at()->0;
        match self.entries[at] {
            EntryView::Pair { before, key, between, .. } => text_before(self.entries, at) + before
                + key + between,
            _ => Seq::empty(),
        }
    }

    /// The text from the end of the dependency list to the end of the document.
    pub open spec fn text_from_dependencies(self) -> Seq<u8>
        recommends
            self.dependency_array() is Some,
    {
        let at = self.dependencies_at()->0;
        match self.entries[at] {
            EntryView::Pair { after, .. } => after + text_after(self.entries, at),
            _ => Seq::empty(),
        }
    }
}

/// An entry with another array for its value stands where the first stood:
/// what is looked for under `[project]` is found at the same place.
proof fn lemma_find_after_update(
    entries: Seq<EntryView>,
    at: int,
    entry: EntryView,
    i: int,
    in_project: bool,
    word: Seq<u8>,
)
    requires
        0 <= at < entries.len(),
        entries[at] is Pair,
        entry is Pair,
        entries[at]->Pair_key == entry->Pair_key,
    ensures
        find_in_project(entries.update(at, entry), i, in_project, word) == find_in_project(
            entries,
            i,
            in_project,
            word,
        ),
    decreases entries.len() - i,
{
    let changed = entries.update(at, entry);
    if 0 <= i < entries.len() {
        match entries[i] {
            EntryView::Blank { .. } => {
                lemma_find_after_update(entries, at, entry, i + 1, in_project, word);
            },
            EntryView::Header { name, repeated, .. } => {
                lemma_find_after_update(
                    entries,
                    at,
                    entry,
                    i + 1,
                    !repeated && name == project_word(),
                    word,
                );
            },
            EntryView::Pair { key, .. } => {
                assert(changed[i] is Pair && changed[i]->Pair_key == key);
                if !(in_project && key == word) {
                    lemma_find_after_update(entries, at, entry, i + 1, in_project, word);
                }
            },
        }
    }
}

/// A removal leaves every key of the table `[project]` where it stood.
pub proof fn lemma_removal_moves_no_key(document: DocumentView, name: Seq<u8>, word: Seq<u8>)
    ensures
        document.without(name).project_key_at(word) == document.project_key_at(word),
        document.without(name).entries.len() == document.entries.len(),
{
    match document.dependencies_at() {
        Some(at) => {
            lemma_find_in_project_bounds(document.entries, 0, false, dependencies_word());
            lemma_find_after_update(
                document.entries,
                at,
                document.entries[at].without(name),
                0,
                false,
                word,
            );
        },
        None => {},
    }
}

/// Removal precision, on the text. The text of a document with a dependency
/// list is the text up to the list, the list, and the text from the list on.
/// A removal changes neither the first nor the last of these, and between
/// the brackets it leaves the head, the items that do not ask for the name,
/// in their order and as they were written, a comma after each but the last,
/// the trailing comma where the list had one and an item is left for it to
/// follow, and the trailing text.
pub proof fn lemma_removal_is_precise(document: DocumentView, name: Seq<u8>)
    requires
        document.dependency_array() is Some,
    ensures
        document.text() == document.text_up_to_dependencies()
            + document.dependency_array()->0.text() + document.text_from_dependencies(),
        document.without(name).dependency_array() == Some(
            document.dependency_array()->0.without(name),
        ),
        document.without(name).text() == document.text_up_to_dependencies()
            + document.dependency_array()->0.without(name).text()
            + document.text_from_dependencies(),
        ({
            let array = document.dependency_array()->0;
            let kept = items_without(array.items, name);
            array.without(name).inner_text() == array.head + items_text(
                kept,
                array.trailing_comma && kept.len() > 0,
            ) + array.trailing
        }),
{
    let at = document.dependencies_at()->0;
    let array = document.dependency_array()->0;
    lemma_find_in_project_bounds(document.entries, 0, false, dependencies_word());
    let entry = document.entries[at];
    let edited = entry.without(name);
    lemma_removal_moves_no_key(document, name, dependencies_word());
    lemma_entries_text_split(document.entries, at);
    lemma_entries_text_split(document.entries.update(at, edited), at);
    lemma_surroundings_stay(document.entries, at, edited);
    match entry {
        EntryView::Pair { before, key, between, value, after } => {
            assert(document.text() =~= document.text_up_to_dependencies() + array.text()
                + document.text_from_dependencies());
            assert(document.without(name).text() =~= document.text_up_to_dependencies()
                + array.without(name).text() + document.text_from_dependencies());
        },
        _ => {},
    }
}

/// What a removal leaves: the dependencies that do not ask for the name, in
/// their order and as they were written.
pub proof fn lemma_removal_leaves_values(document: DocumentView, name: Seq<u8>)
    ensures
        document.without(name).dependency_values() == values_without(
            document.dependency_values(),
            name,
        ),
{
    reveal(Seq::filter);
    match document.dependency_array() {
        Some(array) => {
            lemma_removal_is_precise(document, name);
            lemma_kept_values(array.items, name);
        },
        None => {
            lemma_removal_moves_no_key(document, name, dependencies_word());
            match document.dependencies_at() {
                Some(at) => {
                    lemma_find_in_project_bounds(document.entries, 0, false, dependencies_word());
                    assert(document.without(name).entries =~= document.entries);
                },
                None => {},
            }
            assert(values_without(Seq::empty(), name) =~= Seq::empty());
        },
    }
}

/// Where no dependency asks for the name, a removal changes nothing.
pub proof fn lemma_nothing_asked_nothing_changed(document: DocumentView, name: Seq<u8>)
    requires
        document.is_sound(),
        document.asking(name).len() == 0,
    ensures
        document.without(name) == document,
{
    match document.dependencies_at() {
        Some(at) => {
            lemma_find_in_project_bounds(document.entries, 0, false, dependencies_word());
            assert(document.entries[at].is_sound());
            match document.entries[at] {
                EntryView::Pair { value: ValueView::Array(array), .. } => {
                    lemma_items_parted(array.items, name);
                },
                _ => {},
            }
            assert(document.without(name).entries =~= document.entries);
        },
        None => {},
    }
}

/// After the removal of `gone`, the dependencies that ask for `name` are none
/// if `name` is `gone`, and as many as before if it is not: a removal is
/// final, and it neither adds nor takes a dependency on another package.
pub proof fn lemma_removal_touches_one_name(document: DocumentView, gone: Seq<u8>, name: Seq<u8>)
    ensures
        document.without(gone).asking(name).len() == if name == gone {
            0
        } else {
            document.asking(name).len()
        },
{
    lemma_removal_moves_no_key(document, gone, dependencies_word());
    match document.dependencies_at() {
        Some(at) => {
            lemma_find_in_project_bounds(document.entries, 0, false, dependencies_word());
            match document.entries[at] {
                EntryView::Pair { value: ValueView::Array(array), .. } => {
                    lemma_array_asking_after_removal(array, gone, name);
                },
                _ => {},
            }
        },
        None => {},
    }
}

} // verus!
