//! Taking dependencies out of a document.
//!
//! The dependency list of a manifest is the array under the key
//! `dependencies` of the table `[project]`. Removing a package takes out of
//! that array every item that asks for it, each with its prefix, its suffix,
//! its tail and one comma; no other byte of the document changes.
//!
//! An array is found by its path: the name of its table and its key, each as
//! it is written in the manifest. The removal works on any array so found,
//! which serves the lists of optional dependencies as it serves the
//! dependency list.

use crate::bytes::copy_bytes;
use crate::bytes::same_bytes;
use crate::model::items_view;
use crate::model::Array;
use crate::model::ArrayView;
use crate::model::Document;
use crate::model::DocumentView;
use crate::model::Entry;
use crate::model::EntryView;
use crate::model::Item;
use crate::model::ItemView;
use crate::model::Value;
use crate::model::ValueView;
use crate::name::PackageName;
use crate::requirement::entry_name;
use crate::requirement::entry_names;
use crate::reread::item_values;
use crate::soundness::lemma_removal_at_stays_sound;
use crate::soundness::lemma_removal_in_stays_sound;
use crate::soundness::lemma_removal_stays_sound;
use vstd::prelude::*;

verus! {

/// The word `project`.
pub open spec fn project_word() -> Seq<u8> {
    seq!['p' as u8, 'r' as u8, 'o' as u8, 'j' as u8, 'e' as u8, 'c' as u8, 't' as u8]
}

/// The word `dependencies`.
pub open spec fn dependencies_word() -> Seq<u8> {
    seq![
        'd' as u8,
        'e' as u8,
        'p' as u8,
        'e' as u8,
        'n' as u8,
        'd' as u8,
        'e' as u8,
        'n' as u8,
        'c' as u8,
        'i' as u8,
        'e' as u8,
        's' as u8,
    ]
}

/// The position, at or after `i`, of the first entry with the key `word` in
/// the table `table`: under a header `[table]` and before the next header.
/// `inside` says whether the header that governs `i` is `[table]`. The keys
/// before the first header are in the table with the empty name.
pub open spec fn find_key(
    entries: Seq<EntryView>,
    i: int,
    inside: bool,
    table: Seq<u8>,
    word: Seq<u8>,
) -> Option<int>
    decreases entries.len() - i,
{
    if !(0 <= i < entries.len()) {
        None
    } else {
        match entries[i] {
            EntryView::Blank { .. } => find_key(entries, i + 1, inside, table, word),
            EntryView::Header { name, repeated, .. } => find_key(
                entries,
                i + 1,
                !repeated && name == table,
                table,
                word,
            ),
            EntryView::Pair { key, .. } => if inside && key == word {
                Some(i)
            } else {
                find_key(entries, i + 1, inside, table, word)
            },
        }
    }
}

/// The position, at or after `i`, of the first entry with the key `word` in
/// the table `[project]`.
pub open spec fn find_in_project(
    entries: Seq<EntryView>,
    i: int,
    in_project: bool,
    word: Seq<u8>,
) -> Option<int> {
    find_key(entries, i, in_project, project_word(), word)
}

/// The items of `items` that do not ask for `name`, in their order.
pub open spec fn items_without(items: Seq<ItemView>, name: Seq<u8>) -> Seq<ItemView>
    decreases items.len(),
{
    if items.len() == 0 {
        items
    } else if entry_name(items.last().value) == Some(name) {
        items_without(items.drop_last(), name)
    } else {
        items_without(items.drop_last(), name).push(items.last())
    }
}

/// The items of `items` that ask for `name`, in their order.
pub open spec fn items_asking(items: Seq<ItemView>, name: Seq<u8>) -> Seq<ItemView>
    decreases items.len(),
{
    if items.len() == 0 {
        items
    } else if entry_name(items.last().value) == Some(name) {
        items_asking(items.drop_last(), name).push(items.last())
    } else {
        items_asking(items.drop_last(), name)
    }
}

impl ArrayView {
    /// The array without the items that ask for `name`. Each leaves with
    /// its prefix, its suffix, its tail and one comma: the comma after it, or
    /// where it has none, being the last, the comma after the last item that
    /// stays.
    pub open spec fn without(self, name: Seq<u8>) -> ArrayView {
        let kept = items_without(self.items, name);
        ArrayView {
            head: self.head,
            items: kept,
            trailing_comma: self.trailing_comma && kept.len() > 0,
            trailing: self.trailing,
        }
    }
}

impl EntryView {
    /// The entry with the items that ask for `name` taken out of its array; an
    /// entry without an array is unchanged.
    pub open spec fn without(self, name: Seq<u8>) -> EntryView {
        match self {
            EntryView::Pair { before, key, between, value: ValueView::Array(array), after } => {
                EntryView::Pair {
                    before,
                    key,
                    between,
                    value: ValueView::Array(array.without(name)),
                    after,
                }
            },
            _ => self,
        }
    }

    /// The items of the entry's array that ask for `name`.
    pub open spec fn asking(self, name: Seq<u8>) -> Seq<ItemView> {
        match self {
            EntryView::Pair { value: ValueView::Array(array), .. } => items_asking(
                array.items,
                name,
            ),
            _ => Seq::empty(),
        }
    }
}

impl DocumentView {
    /// Where the key `word` of the table `table` stands, if the document has
    /// it.
    pub open spec fn key_at(self, table: Seq<u8>, word: Seq<u8>) -> Option<int> {
        find_key(self.entries, 0, table.len() == 0, table, word)
    }

    /// Where the key `word` of the table `[project]` stands, if the document
    /// has it.
    pub open spec fn project_key_at(self, word: Seq<u8>) -> Option<int> {
        find_in_project(self.entries, 0, false, word)
    }

    /// Where the dependency list stands, if the document has one.
    pub open spec fn dependencies_at(self) -> Option<int> {
        self.project_key_at(dependencies_word())
    }

    /// The document without the items that ask for `name` in the array at the
    /// entry `at`; the document itself where it has no such entry.
    pub open spec fn without_at(self, at: Option<int>, name: Seq<u8>) -> DocumentView {
        match at {
            Some(at) => DocumentView {
                entries: self.entries.update(at, self.entries[at].without(name)),
            },
            None => self,
        }
    }

    /// The items that ask for `name` in the array at the entry `at`.
    pub open spec fn asking_at(self, at: Option<int>, name: Seq<u8>) -> Seq<ItemView> {
        match at {
            Some(at) => self.entries[at].asking(name),
            None => Seq::empty(),
        }
    }

    /// The document without the items that ask for `name` in the array under
    /// the key `word` of the table `table`.
    pub open spec fn without_in(self, table: Seq<u8>, word: Seq<u8>, name: Seq<u8>) -> DocumentView {
        self.without_at(self.key_at(table, word), name)
    }

    /// The items that ask for `name` in the array under the key `word` of the
    /// table `table`, in their order.
    pub open spec fn asking_in(self, table: Seq<u8>, word: Seq<u8>, name: Seq<u8>) -> Seq<
        ItemView,
    > {
        self.asking_at(self.key_at(table, word), name)
    }

    /// The document without the dependencies on `name`.
    pub open spec fn without(self, name: Seq<u8>) -> DocumentView {
        self.without_at(self.dependencies_at(), name)
    }

    /// The dependencies on `name`, in their order.
    pub open spec fn asking(self, name: Seq<u8>) -> Seq<ItemView> {
        self.asking_at(self.dependencies_at(), name)
    }
}

/// What is found is a key of the document, with the word that was looked for.
pub proof fn lemma_find_key_bounds(
    entries: Seq<EntryView>,
    i: int,
    inside: bool,
    table: Seq<u8>,
    word: Seq<u8>,
)
    ensures
        find_key(entries, i, inside, table, word) matches Some(at) ==> 0 <= i <= at
            < entries.len() && (entries[at] matches EntryView::Pair { key, .. } && key == word),
    decreases entries.len() - i,
{
    if 0 <= i < entries.len() {
        match entries[i] {
            EntryView::Blank { .. } => lemma_find_key_bounds(entries, i + 1, inside, table, word),
            EntryView::Header { name, repeated, .. } => lemma_find_key_bounds(
                entries,
                i + 1,
                !repeated && name == table,
                table,
                word,
            ),
            EntryView::Pair { key, .. } => if !(inside && key == word) {
                lemma_find_key_bounds(entries, i + 1, inside, table, word)
            },
        }
    }
}

/// What is found in the table `[project]` is a key of the document, with the
/// word that was looked for.
pub proof fn lemma_find_in_project_bounds(
    entries: Seq<EntryView>,
    i: int,
    in_project: bool,
    word: Seq<u8>,
)
    ensures
        find_in_project(entries, i, in_project, word) matches Some(at) ==> 0 <= i <= at
            < entries.len() && (entries[at] matches EntryView::Pair { key, .. } && key == word),
{
    lemma_find_key_bounds(entries, i, in_project, project_word(), word);
}

/// The word `project`.
pub fn project_key() -> (r: Vec<u8>)
    ensures
        r@ == project_word(),
{
    let r = vec!['p' as u8, 'r' as u8, 'o' as u8, 'j' as u8, 'e' as u8, 'c' as u8, 't' as u8];
    assert(r@ =~= project_word());
    r
}

/// The word `dependencies`.
pub fn dependencies_key() -> (r: Vec<u8>)
    ensures
        r@ == dependencies_word(),
{
    let r = vec![
        'd' as u8,
        'e' as u8,
        'p' as u8,
        'e' as u8,
        'n' as u8,
        'd' as u8,
        'e' as u8,
        'n' as u8,
        'c' as u8,
        'i' as u8,
        'e' as u8,
        's' as u8,
    ];
    assert(r@ =~= dependencies_word());
    r
}

/// The values of a vector, as mathematical data.
pub open spec fn values_view(values: Seq<Vec<u8>>) -> Seq<Seq<u8>> {
    Seq::new(values.len(), |k: int| values[k]@)
}

/// A copy of an item.
pub fn copy_item(item: &Item) -> (r: Item)
    ensures
        r@ == item@,
{
    Item {
        prefix: copy_bytes(item.prefix.as_slice()),
        value: copy_bytes(item.value.as_slice()),
        suffix: copy_bytes(item.suffix.as_slice()),
        tail: copy_bytes(item.tail.as_slice()),
    }
}

/// Parts an array's items: those that do not ask for `name`, and those that do.
pub fn split_items(items: &Vec<Item>, name: &PackageName) -> (r: (Vec<Item>, Vec<Item>))
    ensures
        items_view(r.0@) == items_without(items_view(items@), name@),
        items_view(r.1@) == items_asking(items_view(items@), name@),
{
    let mut kept: Vec<Item> = Vec::new();
    let mut taken: Vec<Item> = Vec::new();
    let mut i: usize = 0;
    assert(items_view(kept@) =~= items_without(items_view(items@).subrange(0, 0), name@));
    assert(items_view(taken@) =~= items_asking(items_view(items@).subrange(0, 0), name@));
    while i < items.len()
        invariant
            i <= items@.len(),
            items_view(kept@) == items_without(items_view(items@).subrange(0, i as int), name@),
            items_view(taken@) == items_asking(items_view(items@).subrange(0, i as int), name@),
        decreases items@.len() - i,
    {
        let ghost done = items_view(items@).subrange(0, i as int);
        let ghost next = items_view(items@).subrange(0, i + 1);
        assert(next.drop_last() =~= done);
        assert(next.last() == items@[i as int]@);
        let item = copy_item(&items[i]);
        if entry_names(items[i].value.as_slice(), name) {
            assert(items_view(taken@.push(item)) =~= items_view(taken@).push(item@));
            taken.push(item);
        } else {
            assert(items_view(kept@.push(item)) =~= items_view(kept@).push(item@));
            kept.push(item);
        }
        i += 1;
    }
    assert(items_view(items@).subrange(0, i as int) =~= items_view(items@));
    (kept, taken)
}

impl Document {
    /// Finds the first entry with the key `word` in the table `table`. The
    /// keys before the first header are in the table with the empty name.
    pub fn key_at(&self, table: &[u8], word: &[u8]) -> (r: Option<usize>)
        ensures
            match r {
                Some(at) => self@.key_at(table@, word@) == Some(at as int) && at
                    < self.entries@.len(),
                None => self@.key_at(table@, word@) is None,
            },
    {
        let mut i: usize = 0;
        let mut inside = table.len() == 0;
        while i < self.entries.len()
            invariant
                i <= self.entries@.len(),
                self@.key_at(table@, word@) == find_key(
                    self@.entries,
                    i as int,
                    inside,
                    table@,
                    word@,
                ),
            decreases self.entries@.len() - i,
        {
            assert(self@.entries[i as int] == self.entries@[i as int]@);
            match &self.entries[i] {
                Entry::Blank { .. } => {},
                Entry::Header { name, repeated, .. } => {
                    inside = !*repeated && same_bytes(name.as_slice(), table);
                },
                Entry::Pair { key, .. } => {
                    if inside && same_bytes(key.as_slice(), word) {
                        return Some(i);
                    }
                },
            }
            i += 1;
        }
        None
    }

    /// Finds the first entry with the key `word` under a header `[project]`.
    pub fn project_key_at(&self, word: &[u8]) -> (r: Option<usize>)
        ensures
            match r {
                Some(at) => self@.project_key_at(word@) == Some(at as int) && at
                    < self.entries@.len(),
                None => self@.project_key_at(word@) is None,
            },
    {
        let table = project_key();
        self.key_at(table.as_slice(), word)
    }

    /// Finds the entry that holds the dependency list.
    pub fn dependencies_at(&self) -> (r: Option<usize>)
        ensures
            match r {
                Some(at) => self@.dependencies_at() == Some(at as int) && at < self.entries@.len(),
                None => self@.dependencies_at() is None,
            },
    {
        let word = dependencies_key();
        self.project_key_at(word.as_slice())
    }

    /// The values of the dependency list, as they are written, in their
    /// order; none where the manifest has no list.
    pub fn dependency_values(&self) -> (r: Vec<Vec<u8>>)
        ensures
            values_view(r@) == self@.dependency_values(),
    {
        let mut values: Vec<Vec<u8>> = Vec::new();
        let at = match self.dependencies_at() {
            Some(at) => at,
            None => {
                assert(values_view(values@) =~= Seq::empty());
                return values;
            },
        };
        assert(self@.entries[at as int] == self.entries@[at as int]@);
        match &self.entries[at] {
            Entry::Pair { value: Value::Array(array), .. } => {
                let mut i: usize = 0;
                while i < array.items.len()
                    invariant
                        i <= array.items@.len(),
                        values_view(values@) == item_values(items_view(array.items@)).subrange(
                            0,
                            i as int,
                        ),
                    decreases array.items@.len() - i,
                {
                    let value = copy_bytes(array.items[i].value.as_slice());
                    let ghost all = item_values(items_view(array.items@));
                    assert(all[i as int] == array.items@[i as int]@.value);
                    assert(all.subrange(0, i + 1) =~= all.subrange(0, i as int).push(value@));
                    assert(values_view(values@.push(value)) =~= values_view(values@).push(value@));
                    values.push(value);
                    i += 1;
                }
                assert(values_view(values@) =~= item_values(items_view(array.items@)));
                values
            },
            _ => {
                assert(values_view(values@) =~= Seq::empty());
                values
            },
        }
    }

    /// Removes from the array at the entry `at` every item that asks for
    /// `name`, and returns what was removed, in the order in which it stood.
    /// An entry without an array is left as it is. A sound document stays
    /// sound.
    pub fn remove_at(&mut self, at: usize, name: &PackageName) -> (removed: Vec<Item>)
        requires
            at < old(self).entries@.len(),
        ensures
            final(self)@ == old(self)@.without_at(Some(at as int), name@),
            items_view(removed@) == old(self)@.asking_at(Some(at as int), name@),
            old(self)@.is_sound() ==> final(self)@.is_sound(),
    {
        proof {
            if self@.is_sound() {
                lemma_removal_at_stays_sound(self@, Some(at as int), name@);
            }
        }
        assert(self@.entries[at as int] == self.entries@[at as int]@);
        let (entry, removed) = match &self.entries[at] {
            Entry::Pair { before, key, between, value: Value::Array(array), after } => {
                let (kept, taken) = split_items(&array.items, name);
                let entry = Entry::Pair {
                    before: copy_bytes(before.as_slice()),
                    key: copy_bytes(key.as_slice()),
                    between: copy_bytes(between.as_slice()),
                    value: Value::Array(
                        Array {
                            head: copy_bytes(array.head.as_slice()),
                            trailing_comma: array.trailing_comma && kept.len() > 0,
                            items: kept,
                            trailing: copy_bytes(array.trailing.as_slice()),
                        },
                    ),
                    after: copy_bytes(after.as_slice()),
                };
                (entry, taken)
            },
            _ => {
                assert(self@.without_at(Some(at as int), name@).entries =~= self@.entries);
                return Vec::new();
            },
        };
        assert(entry@ == old(self)@.entries[at as int].without(name@));
        self.entries[at] = entry;
        assert(self@.entries =~= old(self)@.without_at(Some(at as int), name@).entries);
        removed
    }

    /// Removes from the array under the key `word` of the table `table` every
    /// item that asks for `name`, and returns what was removed, in the order
    /// in which it stood. Nothing else in the document changes. A sound
    /// document stays sound.
    pub fn remove_from(&mut self, table: &[u8], word: &[u8], name: &PackageName) -> (removed: Vec<
        Item,
    >)
        ensures
            final(self)@ == old(self)@.without_in(table@, word@, name@),
            items_view(removed@) == old(self)@.asking_in(table@, word@, name@),
            old(self)@.is_sound() ==> final(self)@.is_sound(),
    {
        proof {
            if self@.is_sound() {
                lemma_removal_in_stays_sound(self@, table@, word@, name@);
            }
        }
        match self.key_at(table, word) {
            Some(at) => self.remove_at(at, name),
            None => Vec::new(),
        }
    }

    /// Removes every dependency on `name` and returns what was removed, in
    /// the order in which it stood. Nothing else in the document changes; a
    /// document without a dependency list, or without a dependency on `name`,
    /// is left as it is and nothing is returned. A sound document stays
    /// sound, so that its text can be read again.
    pub fn remove_dependency(&mut self, name: &PackageName) -> (removed: Vec<Item>)
        ensures
            final(self)@ == old(self)@.without(name@),
            items_view(removed@) == old(self)@.asking(name@),
            old(self)@.is_sound() ==> final(self)@.is_sound(),
    {
        proof {
            if self@.is_sound() {
                lemma_removal_stays_sound(self@, name@);
            }
        }
        match self.dependencies_at() {
            Some(at) => self.remove_at(at, name),
            None => Vec::new(),
        }
    }
}

} // verus!
