//! A request to remove several packages at once.
//!
//! The names are taken in the order given, each from the document as the
//! names before it left it. A name without a dependency at its turn fails the
//! whole request: the result is then that name and no text, whatever the
//! names before it removed.

use crate::document::parse_text;
use crate::document::ParseError;
use crate::model::Document;
use crate::model::DocumentView;
use crate::model::Entry;
use crate::model::EntryView;
use crate::model::Value;
use crate::model::ValueView;
use crate::name::name_of;
use crate::name::PackageName;
use crate::precision::lemma_removal_touches_one_name;
use crate::requirement::is_line_string;
use crate::requirement::string_content;
use crate::reread::alike;
use crate::reread::lemma_sound_reads_back;
use crate::scan::APOSTROPHE;
use crate::scan::QUOTE;
use crate::soundness::lemma_read_is_sound;
use crate::soundness::lemma_removal_stays_sound;
use vstd::prelude::*;
use vstd::slice::slice_subrange;

verus! {

/// Why a manifest was not edited.
pub enum EditError {
    /// The text is no manifest.
    Parse(ParseError),
    /// The manifest has no dependency on this name.
    DependencyNotFound(PackageName),
}

/// Why a manifest was not edited, as mathematical data.
pub ghost enum EditErrorView {
    Parse(int),
    DependencyNotFound(Seq<u8>),
}

impl View for EditError {
    type V = EditErrorView;

    open spec fn view(&self) -> EditErrorView {
        match self {
            EditError::Parse(error) => EditErrorView::Parse(error.offset as int),
            EditError::DependencyNotFound(name) => EditErrorView::DependencyNotFound(name@),
        }
    }
}

/// The names of a vector, as mathematical data.
pub open spec fn names_view(names: Seq<PackageName>) -> Seq<Seq<u8>> {
    Seq::new(names.len(), |i: int| names[i]@)
}

/// The document after the names from position `i` on were removed one after
/// the other; or the position of the first name that had no dependency left at
/// its turn.
pub open spec fn remove_each(document: DocumentView, names: Seq<Seq<u8>>, i: int) -> Result<
    DocumentView,
    int,
>
    decreases names.len() - i,
{
    if !(0 <= i < names.len()) {
        Ok(document)
    } else if document.asking(names[i]).len() == 0 {
        Err(i)
    } else {
        remove_each(document.without(names[i]), names, i + 1)
    }
}

/// The text of the manifest `text` after the removal of `names`; or why there
/// is none.
pub open spec fn edited_text(text: Seq<u8>, names: Seq<Seq<u8>>) -> Result<
    Seq<u8>,
    EditErrorView,
> {
    match parse_text(text) {
        Err(offset) => Err(EditErrorView::Parse(offset)),
        Ok(document) => match remove_each(document, names, 0) {
            Err(missing) => Err(EditErrorView::DependencyNotFound(names[missing])),
            Ok(edited) => Ok(edited.text()),
        },
    }
}

/// The word `name`.
pub open spec fn name_word() -> Seq<u8> {
    seq!['n' as u8, 'a' as u8, 'm' as u8, 'e' as u8]
}

impl DocumentView {
    /// The project's own name: the key `name` of the table `[project]`, where
    /// its value is a one-line string that holds a name and nothing else.
    pub open spec fn project_name(self) -> Option<Seq<u8>> {
        match self.project_key_at(name_word()) {
            Some(at) => match self.entries[at] {
                EntryView::Pair { value: ValueView::Plain(raw), .. } => if is_line_string(raw) {
                    name_of(string_content(raw))
                } else {
                    None
                },
                _ => None,
            },
            None => None,
        }
    }
}

/// The word `name`.
pub fn name_key() -> (r: Vec<u8>)
    ensures
        r@ == name_word(),
{
    let r = vec!['n' as u8, 'a' as u8, 'm' as u8, 'e' as u8];
    assert(r@ =~= name_word());
    r
}

impl Document {
    /// The project's own name, if the manifest gives one.
    pub fn project_name(&self) -> (r: Option<PackageName>)
        ensures
            match r {
                Some(name) => self@.project_name() == Some(name@),
                None => self@.project_name() is None,
            },
    {
        let word = name_key();
        let at = match self.project_key_at(word.as_slice()) {
            Some(at) => at,
            None => {
                return None;
            },
        };
        assert(self@.entries[at as int] == self.entries@[at as int]@);
        match &self.entries[at] {
            Entry::Pair { value: Value::Plain(raw), .. } => {
                let n = raw.len();
                if n < 2 {
                    return None;
                }
                let quote = raw[0];
                if (quote != QUOTE && quote != APOSTROPHE) || raw[n - 1] != quote {
                    return None;
                }
                if n >= 3 && raw[1] == quote {
                    return None;
                }
                match PackageName::new(slice_subrange(raw.as_slice(), 1, n - 1)) {
                    Ok(name) => Some(name),
                    Err(_) => None,
                }
            },
            _ => None,
        }
    }

    /// Removes the names one after the other. Gives the document without
    /// them, or the position of the first name that had no dependency left at
    /// its turn; the document is then given up.
    pub fn remove_each(self, names: &[PackageName]) -> (r: Result<Document, usize>)
        ensures
            match r {
                Ok(edited) => remove_each(self@, names_view(names@), 0) == Ok::<DocumentView, int>(
                    edited@,
                ) && (self@.is_sound() ==> edited@.is_sound()),
                Err(missing) => remove_each(self@, names_view(names@), 0) == Err::<
                    DocumentView,
                    int,
                >(missing as int) && missing < names@.len(),
            },
    {
        let mut document = self;
        let mut i: usize = 0;
        while i < names.len()
            invariant
                i <= names@.len(),
                remove_each(self@, names_view(names@), 0) == remove_each(
                    document@,
                    names_view(names@),
                    i as int,
                ),
                self@.is_sound() ==> document@.is_sound(),
            decreases names@.len() - i,
        {
            let removed = document.remove_dependency(&names[i]);
            if removed.len() == 0 {
                return Err(i);
            }
            i += 1;
        }
        Ok(document)
    }
}

/// Edits a manifest: reads `text`, removes the names one after the other, and
/// writes the document that is left. What it writes is a manifest again.
pub fn edit_manifest(text: &[u8], names: &[PackageName]) -> (r: Result<Vec<u8>, EditError>)
    ensures
        match r {
            Ok(out) => edited_text(text@, names_view(names@)) == Ok::<Seq<u8>, EditErrorView>(
                out@,
            ) && parse_text(out@) is Ok,
            Err(error) => edited_text(text@, names_view(names@)) == Err::<Seq<u8>, EditErrorView>(
                error@,
            ),
        },
{
    let document = match Document::parse(text) {
        Ok(document) => document,
        Err(error) => {
            return Err(EditError::Parse(error));
        },
    };
    proof {
        lemma_edited_text_reads_back(text@, names_view(names@));
    }
    match document.remove_each(names) {
        Ok(edited) => Ok(edited.to_bytes()),
        Err(missing) => Err(EditError::DependencyNotFound(names[missing].duplicate())),
    }
}


/// A name that has no dependency in the document fails the request, at its
/// own turn or before: removals add no dependency, so none can be found for
/// it later.
pub proof fn lemma_missing_name_fails(
    document: DocumentView,
    names: Seq<Seq<u8>>,
    i: int,
    missing: int,
)
    requires
        0 <= i <= missing < names.len(),
        document.asking(names[missing]).len() == 0,
    ensures
        remove_each(document, names, i) matches Err(at) && i <= at <= missing,
    decreases names.len() - i,
{
    if document.asking(names[i]).len() > 0 {
        lemma_removal_touches_one_name(document, names[i], names[missing]);
        lemma_missing_name_fails(document.without(names[i]), names, i + 1, missing);
    }
}

/// All or nothing: where a request succeeds, every name of it had a
/// dependency in the document as it was read, and the document that is left
/// has a dependency on none of them.
pub proof fn lemma_request_is_whole(document: DocumentView, names: Seq<Seq<u8>>)
    ensures
        remove_each(document, names, 0) matches Ok(edited) ==> forall|k: int|
            0 <= k < names.len() ==> document.asking(#[trigger] names[k]).len() > 0
                && edited.asking(names[k]).len() == 0,
{
    match remove_each(document, names, 0) {
        Ok(edited) => {
            assert forall|k: int| 0 <= k < names.len() implies document.asking(
                #[trigger] names[k],
            ).len() > 0 && edited.asking(names[k]).len() == 0 by {
                if document.asking(names[k]).len() == 0 {
                    lemma_missing_name_fails(document, names, 0, k);
                }
                lemma_removed_names_stay_removed(document, names, 0, k);
            }
        },
        Err(_) => {},
    }
}

/// A name that the request has removed, or that had no dependency when the
/// request reached `i`, has none in the document that is left.
proof fn lemma_removed_names_stay_removed(
    document: DocumentView,
    names: Seq<Seq<u8>>,
    i: int,
    k: int,
)
    requires
        0 <= i <= names.len(),
        0 <= k < names.len(),
        k < i ==> document.asking(names[k]).len() == 0,
    ensures
        remove_each(document, names, i) matches Ok(edited) ==> edited.asking(names[k]).len() == 0,
    decreases names.len() - i,
{
    if i < names.len() && document.asking(names[i]).len() > 0 {
        lemma_removal_touches_one_name(document, names[i], names[k]);
        lemma_removed_names_stay_removed(document.without(names[i]), names, i + 1, k);
    }
}

/// A request for two different names, of which the document has the first
/// and not the second, fails on the second: the removal of the first is not
/// part of any result.
pub proof fn lemma_second_name_missing(document: DocumentView, first: Seq<u8>, second: Seq<u8>)
    requires
        first != second,
        document.asking(first).len() > 0,
        document.asking(second).len() == 0,
    ensures
        remove_each(document, seq![first, second], 0) == Err::<DocumentView, int>(1),
{
    let names = seq![first, second];
    lemma_removal_touches_one_name(document, first, second);
    assert(names[0] == first && names[1] == second);
    let after = document.without(first);
    assert(remove_each(after, names, 1) == Err::<DocumentView, int>(1));
}

/// A request leaves a sound document sound.
pub proof fn lemma_request_stays_sound(document: DocumentView, names: Seq<Seq<u8>>, i: int)
    requires
        document.is_sound(),
    ensures
        remove_each(document, names, i) matches Ok(edited) ==> edited.is_sound(),
    decreases names.len() - i,
{
    if 0 <= i < names.len() && document.asking(names[i]).len() > 0 {
        lemma_removal_stays_sound(document, names[i]);
        lemma_request_stays_sound(document.without(names[i]), names, i + 1);
    }
}

/// What an edit writes is a manifest: the text that is left after a request
/// is read again, as the document that the request left, entry for entry and
/// dependency for dependency.
pub proof fn lemma_edited_text_reads_back(text: Seq<u8>, names: Seq<Seq<u8>>)
    ensures
        edited_text(text, names) matches Ok(out) ==> (parse_text(out) matches Ok(read) && alike(
            read,
            remove_each(parse_text(text)->Ok_0, names, 0)->Ok_0,
        )),
{
    match parse_text(text) {
        Ok(document) => {
            lemma_read_is_sound(text);
            lemma_request_stays_sound(document, names, 0);
            match remove_each(document, names, 0) {
                Ok(edited) => {
                    lemma_sound_reads_back(edited);
                },
                Err(_) => {},
            }
        },
        Err(_) => {},
    }
}

} // verus!
