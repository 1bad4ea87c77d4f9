//! What an extension is told of a view.

use crate::protocol::{ContentId, Revision, Selection, ViewId};
use crate::text::{append_decimal, byte_len, decimal};
use crate::view::bindings::{Bound, ContentBindings};
use crate::view::definition::ViewDefinitionId;
use crate::view::instance::{document_of, View, ViewModel};
use std::collections::HashMap;
use vstd::prelude::*;
use vstd::string::StringExecFns;
use vstd::view::View as _;

verus! {

broadcast use vstd::std_specs::hash::group_hash_axioms;

/// A place in a text: its line, and how many UTF-16 units come before it there.
#[derive(Clone, Copy, Debug, PartialEq, Eq, Structural)]
pub struct ViewExtensionPosition {
    pub line: usize,
    pub character: usize,
}

/// A selection by the places of its ends.
#[derive(Clone, Copy, Debug, PartialEq, Eq, Structural)]
pub struct ViewExtensionSelection {
    pub anchor: ViewExtensionPosition,
    pub head: ViewExtensionPosition,
}

/// Where a character of a text is.
#[derive(Clone, Copy, Debug, PartialEq, Eq, Structural)]
pub struct TextPlace {
    pub char_index: usize,
    pub position: ViewExtensionPosition,
}

/// The first of the places, from index `i` on, of a character.
pub open spec fn place_from(places: Seq<TextPlace>, char_index: usize, i: int) -> Option<
    ViewExtensionPosition,
>
    decreases places.len() - i,
{
    if i >= places.len() {
        None
    } else if places[i].char_index == char_index {
        Some(places[i].position)
    } else {
        place_from(places, char_index, i + 1)
    }
}

/// The place of a character, where it is known.
pub open spec fn place_of(places: Seq<TextPlace>, char_index: usize) -> Option<
    ViewExtensionPosition,
> {
    place_from(places, char_index, 0)
}

/// A text with the places of characters.
pub struct TextModel {
    pub text: Seq<char>,
    pub places: Seq<TextPlace>,
}

/// What is known of a content.
pub struct RecordModel {
    pub revision: Revision,
    pub text: Option<TextModel>,
    pub resource_name: Option<Seq<char>>,
}

/// A text with the places of characters.
pub struct TextRecord {
    pub text: String,
    pub places: Vec<TextPlace>,
}

/// What is known of a content: its revision, its text where it has one, and its name.
pub struct ContentRecord {
    pub revision: Revision,
    pub text: Option<TextRecord>,
    pub resource_name: Option<String>,
}

/// The characters of a text that may not be there.
pub open spec fn optional_chars(text: Option<String>) -> Option<Seq<char>> {
    match text {
        Some(text) => Some(text@),
        None => None,
    }
}

impl ContentRecord {
    pub open spec fn model(self) -> RecordModel {
        RecordModel {
            revision: self.revision,
            text: match self.text {
                Some(text) => Some(TextModel { text: text.text@, places: text.places@ }),
                None => None,
            },
            resource_name: optional_chars(self.resource_name),
        }
    }
}

/// The contents that views are about.
pub struct ContentTable {
    records: HashMap<u64, ContentRecord>,
}

impl ContentTable {
    /// What is known of each content.
    pub closed spec fn model(self) -> Map<u64, RecordModel> {
        self.records@.map_values(|record: ContentRecord| record.model())
    }

    pub fn new() -> (table: Self)
        ensures
            table.model() == Map::<u64, RecordModel>::empty(),
    {
        let table = ContentTable { records: HashMap::new() };
        assert(table.model() =~= Map::<u64, RecordModel>::empty());
        table
    }

    pub fn insert(&mut self, content: ContentId, record: ContentRecord)
        ensures
            final(self).model() == old(self).model().insert(content.0, record.model()),
    {
        self.records.insert(content.0, record);
        assert(self.model() =~= old(self).model().insert(content.0, record.model()));
    }

    pub fn get(&self, content: ContentId) -> (record: Option<&ContentRecord>)
        ensures
            match record {
                Some(record) => self.model().contains_key(content.0)
                    && self.model()[content.0] == record.model(),
                None => !self.model().contains_key(content.0),
            },
    {
        self.records.get(&content.0)
    }
}

/// Why an extension cannot be told of a view, or does not keep to its contract.
#[derive(Debug, PartialEq, Eq)]
pub struct ViewExtensionContractError {
    pub message: String,
}

/// The document of a view.
#[verifier::ext_equal]
pub struct DocumentModel {
    pub content: ContentId,
    pub revision: Revision,
    pub text: Seq<char>,
    pub resource_name: Option<Seq<char>>,
    pub selections: Seq<ViewExtensionSelection>,
    pub primary: ViewExtensionSelection,
}

/// The document of a view.
#[derive(Debug, PartialEq, Eq)]
pub struct ViewExtensionDocument {
    pub content_id: ContentId,
    pub revision: Revision,
    pub text: String,
    pub resource_name: Option<String>,
    pub selections: Vec<ViewExtensionSelection>,
    pub primary_selection: ViewExtensionSelection,
}

impl ViewExtensionDocument {
    pub open spec fn model(self) -> DocumentModel {
        DocumentModel {
            content: self.content_id,
            revision: self.revision,
            text: self.text@,
            resource_name: optional_chars(self.resource_name),
            selections: self.selections@,
            primary: self.primary_selection,
        }
    }
}

/// The document, where there is one.
pub open spec fn optional_document(document: Option<ViewExtensionDocument>) -> Option<
    DocumentModel,
> {
    match document {
        Some(document) => Some(document.model()),
        None => None,
    }
}

/// What an extension is told of a view.
#[verifier::ext_equal]
pub struct ContextModel {
    pub view: ViewId,
    pub definition: Seq<char>,
    pub revision: u64,
    pub bindings: Seq<Bound>,
    pub document: Option<DocumentModel>,
}

/// What an extension is told of a view.
pub struct ViewExtensionContext {
    pub view_id: ViewId,
    pub definition: ViewDefinitionId,
    pub revision: Revision,
    pub bindings: ContentBindings,
    pub document: Option<ViewExtensionDocument>,
}

impl ViewExtensionContext {
    pub open spec fn model(self) -> ContextModel {
        ContextModel {
            view: self.view_id,
            definition: self.definition.name(),
            revision: self.revision.0,
            bindings: self.bindings.model(),
            document: optional_document(self.document),
        }
    }
}

/// A selection by the places of its ends, where both are known.
pub open spec fn selection_of(places: Seq<TextPlace>, selection: Selection) -> Option<
    ViewExtensionSelection,
> {
    match (
        place_of(places, selection.anchor.char_index),
        place_of(places, selection.head.char_index),
    ) {
        (Some(anchor), Some(head)) => Some(ViewExtensionSelection { anchor, head }),
        _ => None,
    }
}

/// Both ends of every selection are known.
pub open spec fn all_placed(places: Seq<TextPlace>, selections: Seq<Selection>) -> bool {
    forall|i: int|
        0 <= i < selections.len() ==> selection_of(places, #[trigger] selections[i]) is Some
}

/// The selections by the places of their ends.
pub open spec fn selections_of(places: Seq<TextPlace>, selections: Seq<Selection>) -> Seq<
    ViewExtensionSelection,
> {
    selections.map_values(|selection: Selection| selection_of(places, selection)->0)
}

/// What an extension is told of a text that is too long.
pub open spec fn too_long(bytes: nat, maximum: nat) -> Seq<char> {
    "View extension document has "@ + decimal(bytes) + " text bytes; maximum is "@ + decimal(
        maximum,
    )
}

/// What an extension is told of the document of a view: nothing where it has no text or no
/// selections, else the text, unless it is too long or a selection has no place in it.
pub open spec fn document_told(
    view: ViewModel,
    contents: Map<u64, RecordModel>,
    maximum: usize,
) -> Result<Option<DocumentModel>, Seq<char>> {
    match (document_of(view), view.document_state) {
        (Some(content), Some(Some(selections))) => if !contents.contains_key(content.0) {
            Ok(None)
        } else {
            match contents[content.0].text {
                None => Ok(None),
                Some(text) => if byte_len(text.text) > maximum {
                    Err(too_long(byte_len(text.text) as nat, maximum as nat))
                } else if selection_of(text.places, selections.all[selections.primary]) is None
                    || !all_placed(text.places, selections.all) {
                    Err("View extension selection is invalid"@)
                } else {
                    Ok(
                        Some(
                            DocumentModel {
                                content,
                                revision: contents[content.0].revision,
                                text: text.text,
                                resource_name: contents[content.0].resource_name,
                                selections: selections_of(text.places, selections.all),
                                primary: selection_of(
                                    text.places,
                                    selections.all[selections.primary],
                                )->0,
                            },
                        ),
                    )
                },
            }
        },
        _ => Ok(None),
    }
}

/// What an extension is told of a view.
pub open spec fn context_told(
    id: ViewId,
    view: ViewModel,
    contents: Map<u64, RecordModel>,
    maximum: usize,
) -> Result<ContextModel, Seq<char>> {
    match document_told(view, contents, maximum) {
        Ok(document) => Ok(
            ContextModel {
                view: id,
                definition: view.definition,
                revision: view.revision,
                bindings: view.bindings,
                document,
            },
        ),
        Err(message) => Err(message),
    }
}

/// The document of a view and its revision, where the content is known.
pub open spec fn document_stamp(view: ViewModel, contents: Map<u64, RecordModel>) -> (
    Option<ContentId>,
    Option<Revision>,
) {
    match document_of(view) {
        Some(content) => if contents.contains_key(content.0) {
            (Some(content), Some(contents[content.0].revision))
        } else {
            (None, None)
        },
        None => (None, None),
    }
}

/// The document of a view and its revision, where the content is known.
pub fn extension_document_metadata(data: &View, contents: &ContentTable) -> (stamp: (
    Option<ContentId>,
    Option<Revision>,
))
    ensures
        stamp == document_stamp(data.model(), contents.model()),
{
    match data.document_content() {
        Some(content) => match contents.get(content) {
            Some(record) => (Some(content), Some(record.revision)),
            None => (None, None),
        },
        None => (None, None),
    }
}

/// The place of a character, where it is known.
pub fn extension_position(places: &Vec<TextPlace>, char_offset: usize) -> (position: Result<
    ViewExtensionPosition,
    ViewExtensionContractError,
>)
    ensures
        match position {
            Ok(position) => place_of(places@, char_offset) == Some(position),
            Err(error) => place_of(places@, char_offset) is None && error.message@
                == "View extension selection is invalid"@,
        },
{
    let mut i: usize = 0;
    while i < places.len()
        invariant
            i <= places.len(),
            place_of(places@, char_offset) == place_from(places@, char_offset, i as int),
        decreases places.len() - i,
    {
        if places[i].char_index == char_offset {
            return Ok(places[i].position);
        }
        i = i + 1;
    }
    Err(
        ViewExtensionContractError {
            message: String::from_str("View extension selection is invalid"),
        },
    )
}

/// A selection by the places of its ends, where both are known.
pub fn extension_selection(places: &Vec<TextPlace>, selection: Selection) -> (placed: Result<
    ViewExtensionSelection,
    ViewExtensionContractError,
>)
    ensures
        match placed {
            Ok(placed) => selection_of(places@, selection) == Some(placed),
            Err(error) => selection_of(places@, selection) is None && error.message@
                == "View extension selection is invalid"@,
        },
{
    let anchor = match extension_position(places, selection.anchor.char_index) {
        Ok(anchor) => anchor,
        Err(error) => {
            return Err(error);
        },
    };
    let head = match extension_position(places, selection.head.char_index) {
        Ok(head) => head,
        Err(error) => {
            return Err(error);
        },
    };
    Ok(ViewExtensionSelection { anchor, head })
}

/// What an extension is told of the document of a view.
pub fn extension_document(data: &View, contents: &ContentTable, maximum: usize) -> (result: Result<
    Option<ViewExtensionDocument>,
    ViewExtensionContractError,
>)
    ensures
        match result {
            Ok(document) => document_told(data.model(), contents.model(), maximum) == Ok::<
                Option<DocumentModel>,
                Seq<char>,
            >(optional_document(document)),
            Err(error) => document_told(data.model(), contents.model(), maximum) == Err::<
                Option<DocumentModel>,
                Seq<char>,
            >(error.message@),
        },
{
    let (content, state) = match data.document() {
        Some(document) => document,
        None => {
            return Ok(None);
        },
    };
    let record = match contents.get(content) {
        Some(record) => record,
        None => {
            return Ok(None);
        },
    };
    let text = match &record.text {
        Some(text) => text,
        None => {
            return Ok(None);
        },
    };
    let selections = match state.selections() {
        Some(selections) => selections,
        None => {
            return Ok(None);
        },
    };
    let bytes = text.text.as_str().len();
    if bytes > maximum {
        let mut message = String::from_str("View extension document has ");
        append_decimal(&mut message, bytes as u64);
        message.append(" text bytes; maximum is ");
        append_decimal(&mut message, maximum as u64);
        return Err(ViewExtensionContractError { message });
    }
    let primary_selection = match extension_selection(&text.places, selections.primary()) {
        Ok(selection) => selection,
        Err(error) => {
            return Err(error);
        },
    };
    let all = selections.all();
    let mut placed: Vec<ViewExtensionSelection> = Vec::new();
    let mut i: usize = 0;
    while i < all.len()
        invariant
            i <= all.len(),
            placed@.len() == i,
            forall|j: int|
                0 <= j < i ==> selection_of(text.places@, #[trigger] all@[j]) == Some(placed@[j]),
            all@ == selections.model().all,
            selection_of(
                text.places@,
                selections.model().all[selections.model().primary],
            ) is Some,
            document_of(data.model()) == Some(content),
            data.model().document_state == Some(Some(selections.model())),
            contents.model().contains_key(content.0),
            contents.model()[content.0] == record.model(),
            record.text == Some(*text),
            byte_len(text.text@) <= maximum,
        decreases all.len() - i,
    {
        match extension_selection(&text.places, all[i]) {
            Ok(selection) => {
                placed.push(selection);
            },
            Err(error) => {
                assert(!all_placed(text.places@, all@)) by {
                    assert(selection_of(text.places@, all@[i as int]) is None);
                }
                return Err(error);
            },
        }
        i = i + 1;
    }
    assert(placed@ =~= selections_of(text.places@, all@));
    let resource_name = match &record.resource_name {
        Some(name) => Some(name.clone()),
        None => None,
    };
    Ok(
        Some(
            ViewExtensionDocument {
                content_id: content,
                revision: record.revision,
                text: text.text.clone(),
                resource_name,
                selections: placed,
                primary_selection,
            },
        ),
    )
}

/// What an extension is told of a view.
pub fn extension_context(view: ViewId, data: &View, contents: &ContentTable, maximum: usize) -> (result:
    Result<ViewExtensionContext, ViewExtensionContractError>)
    ensures
        match result {
            Ok(context) => context_told(view, data.model(), contents.model(), maximum) == Ok::<
                ContextModel,
                Seq<char>,
            >(context.model()),
            Err(error) => context_told(view, data.model(), contents.model(), maximum) == Err::<
                ContextModel,
                Seq<char>,
            >(error.message@),
        },
{
    match extension_document(data, contents, maximum) {
        Ok(document) => Ok(
            ViewExtensionContext {
                view_id: view,
                definition: data.definition().clone(),
                revision: data.revision(),
                bindings: data.bindings().clone(),
                document,
            },
        ),
        Err(error) => Err(error),
    }
}

} // verus!
