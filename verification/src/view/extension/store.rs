//! Extensions, and what they last showed.

use crate::protocol::{ContentId, Revision, ViewId};
use crate::text::same_text;
use crate::view::definition::ViewDefinitionId;
use crate::view::extension::definition::{
    panes_of, ExtensionModel, PaneModel, ViewExtensionDefinition,
};
use crate::view::extension::document::{
    context_told, document_stamp, extension_context, extension_document_metadata, ContentTable,
    ContextModel, RecordModel, ViewExtensionContext, ViewExtensionContractError,
};
use crate::view::extension::presentation::{
    bounded, bounded_message, fault_lines, fault_presentation, LinesModel, NamedLinesPresentation,
};
use crate::view::extension::table::{lists_key, PaneCacheKey, PaneKeyModel, PaneTable};
use crate::view::forest::numbers_of;
use crate::view::instance::{View, ViewModel};
use crate::view::layout::LayoutError;
use crate::view::panes::space_for;
use crate::view::registry::{Catalog, ViewDefinitionRegistry};
use crate::view::scene::SceneBuilder;
use crate::view::workspace::{rising, ViewWorkspace};
use vstd::prelude::*;
use vstd::string::StringExecFns;
use vstd::view::View as _;

verus! {

/// The lines that an extension gave, or why it gave none.
pub open spec fn lines_given(
    result: Result<NamedLinesPresentation, ViewExtensionContractError>,
) -> Result<LinesModel, Seq<char>> {
    match result {
        Ok(presentation) => Ok(presentation.model()),
        Err(error) => Err(error.message@),
    }
}

/// That lines can be shown, or why they cannot.
pub open spec fn check_given(result: Result<(), ViewExtensionContractError>) -> Result<
    (),
    Seq<char>,
> {
    match result {
        Ok(_) => Ok(()),
        Err(error) => Err(error.message@),
    }
}

/// Provides the lines of panes. An extension may say what it provides, with `presents`, `checks`
/// and `unloads`; one that does not say may provide anything. Nothing is relied on about that: what
/// is provided is shown, and what is not is told.
pub trait ViewExtension: Sized {
    /// The extension may give those lines, and be another one after it.
    open spec fn presents(
        self,
        pane: Seq<char>,
        context: ContextModel,
        after: Self,
        lines: Result<LinesModel, Seq<char>>,
    ) -> bool {
        true
    }

    /// The extension may find that of lines.
    open spec fn checks(self, lines: LinesModel, found: Result<(), Seq<char>>) -> bool {
        true
    }

    /// The extension may become that once it is no longer used.
    open spec fn unloads(self, after: Self) -> bool {
        true
    }

    /// The lines of a pane, or why there are none.
    fn present(&mut self, pane: &str, context: &ViewExtensionContext) -> (result: Result<
        NamedLinesPresentation,
        ViewExtensionContractError,
    >)
        ensures
            old(self).presents(pane@, context.model(), *final(self), lines_given(result)),
    ;

    /// Whether lines can be shown, or why they cannot.
    fn check(&self, presentation: &NamedLinesPresentation) -> (result: Result<
        (),
        ViewExtensionContractError,
    >)
        ensures
            self.checks(presentation.model(), check_given(result)),
    ;

    /// The extension is no longer used.
    fn unload(&mut self)
        ensures
            old(self).unloads(*final(self)),
    ;
}

/// An extension and what it adds to views.
pub struct RegisteredExtension<E> {
    pub definition: ViewExtensionDefinition,
    pub extension: E,
}

/// What the extensions add to views.
pub open spec fn definitions_of<E>(extensions: Seq<RegisteredExtension<E>>) -> Seq<ExtensionModel> {
    extensions.map_values(|extension: RegisteredExtension<E>| extension.definition.model())
}

/// The extensions themselves.
pub open spec fn extensions_of<E>(extensions: Seq<RegisteredExtension<E>>) -> Seq<E> {
    extensions.map_values(|extension: RegisteredExtension<E>| extension.extension)
}

/// Why extensions cannot be taken up.
#[derive(Debug, PartialEq, Eq)]
pub enum ViewExtensionRegistrationError {
    /// Another extension has the name.
    Duplicate(String),
    /// No view definition has the name of the one that the extension adds to.
    UnknownTarget { extension: String, target: ViewDefinitionId },
    /// The workspace has no room for the panes.
    Layout(LayoutError),
}

impl ViewExtensionRegistrationError {
    /// What went wrong, in words; an error of the layout speaks for itself.
    pub fn message(&self) -> (message: Option<String>)
        ensures
            match *self {
                ViewExtensionRegistrationError::Duplicate(extension) => message matches Some(text)
                    && text@ == extension_fault_text(ExtensionFault::Duplicate(extension@)),
                ViewExtensionRegistrationError::UnknownTarget { extension, target } =>
                    message matches Some(text) && text@ == extension_fault_text(
                        ExtensionFault::UnknownTarget { extension: extension@, target: target.name() },
                    ),
                ViewExtensionRegistrationError::Layout(_) => message is None,
            },
    {
        match self {
            ViewExtensionRegistrationError::Duplicate(extension) => {
                let mut message = String::from_str("view extension '");
                message.append(extension.as_str());
                message.append("' is already registered");
                Some(message)
            },
            ViewExtensionRegistrationError::UnknownTarget { extension, target } => {
                let mut message = String::from_str("view extension '");
                message.append(extension.as_str());
                message.append("' targets unknown View definition '");
                message.append(target.as_str());
                message.append("'");
                Some(message)
            },
            ViewExtensionRegistrationError::Layout(_) => None,
        }
    }
}

/// What is wrong with extensions, in words.
pub open spec fn extension_fault_text(fault: ExtensionFault) -> Seq<char> {
    match fault {
        ExtensionFault::Duplicate(extension) => "view extension '"@ + extension
            + "' is already registered"@,
        ExtensionFault::UnknownTarget { extension, target } => "view extension '"@ + extension
            + "' targets unknown View definition '"@ + target + "'"@,
    }
}

/// Why extensions, from index `i` on, cannot be taken up.
pub enum ExtensionFault {
    Duplicate(Seq<char>),
    UnknownTarget { extension: Seq<char>, target: Seq<char> },
}

/// The error says why extensions cannot be taken up.
pub open spec fn tells_extension_fault(
    error: ViewExtensionRegistrationError,
    fault: ExtensionFault,
) -> bool {
    match fault {
        ExtensionFault::Duplicate(id) => error matches ViewExtensionRegistrationError::Duplicate(
            told,
        ) && told@ == id,
        ExtensionFault::UnknownTarget { extension, target } => error
            matches ViewExtensionRegistrationError::UnknownTarget {
            extension: told,
            target: told_target,
        } && told@ == extension && told_target.name() == target,
    }
}

/// Why extensions, from index `i` on, cannot be taken up.
pub open spec fn extensions_refusal(
    definitions: Seq<ExtensionModel>,
    catalog: Catalog,
    i: int,
) -> Option<ExtensionFault>
    decreases definitions.len() - i,
{
    if i >= definitions.len() {
        None
    } else if exists|j: int| 0 <= j < i && (#[trigger] definitions[j]).id == definitions[i].id {
        Some(ExtensionFault::Duplicate(definitions[i].id))
    } else if !catalog.contains_key(definitions[i].target) {
        Some(
            ExtensionFault::UnknownTarget {
                extension: definitions[i].id,
                target: definitions[i].target,
            },
        )
    } else {
        extensions_refusal(definitions, catalog, i + 1)
    }
}

/// What is kept of what a pane showed last.
pub struct CacheModel {
    pub view_revision: u64,
    pub content_revision: Option<Revision>,
    pub content: Option<ContentId>,
    pub lines: LinesModel,
}

/// What is kept of what a pane showed last.
pub struct PaneCacheEntry {
    pub view_revision: Revision,
    pub content_revision: Option<Revision>,
    pub content: Option<ContentId>,
    pub presentation: NamedLinesPresentation,
}

impl PaneCacheEntry {
    pub open spec fn model(self) -> CacheModel {
        CacheModel {
            view_revision: self.view_revision.0,
            content_revision: self.content_revision,
            content: self.content,
            lines: self.presentation.model(),
        }
    }
}

/// What is kept of panes: what they showed last, and which ones failed.
#[verifier::ext_equal]
pub struct PanesModel {
    pub cache: Map<PaneKeyModel, CacheModel>,
    pub faulted: Set<PaneKeyModel>,
}

/// A pane that is shown next to a view: `index` is where its extension stands, and `full_key` is
/// what the view calls it.
pub struct Visit {
    pub index: int,
    pub key: PaneKeyModel,
    pub full_key: Seq<char>,
}

/// What a builder of lines is asked for.
pub struct PresentRequest {
    pub key: PaneKeyModel,
    pub context: ContextModel,
}

/// The panes of an extension that are shown next to a view.
pub open spec fn pane_visits(
    index: int,
    extension: Seq<char>,
    panes: Seq<PaneModel>,
    id: u64,
    view: ViewModel,
) -> Seq<Visit>
    decreases panes.len(),
{
    if panes.len() == 0 {
        Seq::empty()
    } else {
        let rest = pane_visits(index, extension, panes.drop_last(), id, view);
        let pane = panes.last();
        if space_for(view.panes, pane.full_key) is Some {
            rest.push(
                Visit {
                    index,
                    key: PaneKeyModel { extension, view: id, pane: pane.key },
                    full_key: pane.full_key,
                },
            )
        } else {
            rest
        }
    }
}

/// The panes of an extension that are shown next to some views.
pub open spec fn view_visits(
    index: int,
    definition: ExtensionModel,
    views: Map<u64, ViewModel>,
    ids: Seq<u64>,
) -> Seq<Visit>
    decreases ids.len(),
{
    if ids.len() == 0 {
        Seq::empty()
    } else {
        let rest = view_visits(index, definition, views, ids.drop_last());
        let id = ids.last();
        if views[id].definition == definition.target {
            rest + pane_visits(index, definition.id, definition.panes, id, views[id])
        } else {
            rest
        }
    }
}

/// The panes of extensions that are shown next to some views.
pub open spec fn all_visits(
    definitions: Seq<ExtensionModel>,
    views: Map<u64, ViewModel>,
    ids: Seq<u64>,
) -> Seq<Visit>
    decreases definitions.len(),
{
    if definitions.len() == 0 {
        Seq::empty()
    } else {
        all_visits(definitions.drop_last(), views, ids) + view_visits(
            definitions.len() - 1,
            definitions.last(),
            views,
            ids,
        )
    }
}

/// The views and contents that panes are about.
pub struct Surroundings {
    pub views: Map<u64, ViewModel>,
    pub contents: Map<u64, RecordModel>,
    pub maximum: usize,
}

/// What a pane showed last is about the view and its document as they are.
pub open spec fn is_current(
    cache: Map<PaneKeyModel, CacheModel>,
    key: PaneKeyModel,
    around: Surroundings,
) -> bool {
    &&& cache.contains_key(key)
    &&& cache[key].view_revision == around.views[key.view].revision
    &&& cache[key].content_revision == document_stamp(
        around.views[key.view],
        around.contents,
    ).1
}

/// Lines are needed for a pane: it has not failed, and what it showed last is out of date.
pub open spec fn needs_lines(panes: PanesModel, key: PaneKeyModel, around: Surroundings) -> bool {
    !panes.faulted.contains(key) && !is_current(panes.cache, key, around)
}

/// What is kept of panes with the outcome of one of them, which is about a view and its document.
pub open spec fn panes_with(
    panes: PanesModel,
    key: PaneKeyModel,
    view: ViewModel,
    contents: Map<u64, RecordModel>,
    outcome: Result<LinesModel, Seq<char>>,
) -> PanesModel {
    let (content, content_revision) = document_stamp(view, contents);
    match outcome {
        Ok(lines) => PanesModel {
            cache: panes.cache.insert(
                key,
                CacheModel { view_revision: view.revision, content_revision, content, lines },
            ),
            ..panes
        },
        Err(message) => PanesModel {
            cache: panes.cache.insert(
                key,
                CacheModel {
                    view_revision: view.revision,
                    content_revision,
                    content,
                    lines: fault_lines(bounded(message)),
                },
            ),
            faulted: panes.faulted.insert(key),
        },
    }
}

/// What is kept of panes once one of them has got its lines, or has failed.
pub open spec fn panes_after(
    panes: PanesModel,
    key: PaneKeyModel,
    around: Surroundings,
    outcome: Result<LinesModel, Seq<char>>,
) -> PanesModel {
    if needs_lines(panes, key, around) {
        panes_with(panes, key, around.views[key.view], around.contents, outcome)
    } else {
        panes
    }
}

/// What comes of lines that an extension gave, and of what it found of them: a pane fails where it
/// has no lines, or has lines that cannot be shown.
pub open spec fn outcome_of(
    lines: Result<LinesModel, Seq<char>>,
    found: Result<(), Seq<char>>,
) -> Result<LinesModel, Seq<char>> {
    match (lines, found) {
        (Ok(_), Err(message)) => Err(message),
        _ => lines,
    }
}

/// The extension gave those lines, and found that of them.
pub open spec fn gave<E: ViewExtension>(
    extension: E,
    pane: Seq<char>,
    context: ContextModel,
    after: E,
    lines: Result<LinesModel, Seq<char>>,
    found: Result<(), Seq<char>>,
) -> bool {
    &&& extension.presents(pane, context, after, lines)
    &&& lines matches Ok(given) ==> after.checks(given, found)
}

/// Where a pane needs lines and there is something to tell of its view, the outcome is what its
/// extension gave; the other extensions are not asked.
pub open spec fn answered<E: ViewExtension>(
    before: Seq<E>,
    after: Seq<E>,
    panes: PanesModel,
    visit: Visit,
    around: Surroundings,
    outcome: Result<LinesModel, Seq<char>>,
) -> bool {
    if needs_lines(panes, visit.key, around) {
        match told_of(visit.key, around) {
            Ok(context) => exists|
                extension: E,
                lines: Result<LinesModel, Seq<char>>,
                found: Result<(), Seq<char>>,
            |
                #![trigger gave(before[visit.index], visit.key.pane, context, extension, lines, found)]
                gave(before[visit.index], visit.key.pane, context, extension, lines, found)
                    && outcome == outcome_of(lines, found) && after == before.update(
                    visit.index,
                    extension,
                ),
            Err(message) => outcome == Err::<LinesModel, Seq<char>>(message) && after == before,
        }
    } else {
        outcome_fits(visit.key, around, outcome) && after == before
    }
}

/// The outcomes of panes are what their extensions gave, one after the other.
pub open spec fn answered_in_turn<E: ViewExtension>(
    before: Seq<E>,
    after: Seq<E>,
    panes: PanesModel,
    visits: Seq<Visit>,
    around: Surroundings,
    outcomes: Seq<Result<LinesModel, Seq<char>>>,
) -> bool
    decreases visits.len(),
{
    &&& outcomes.len() == visits.len()
    &&& if visits.len() == 0 {
        after == before
    } else {
        exists|middle: Seq<E>|
            #![trigger answered(
                middle,
                after,
                visited_panes(panes, visits.drop_last(), outcomes.drop_last(), around),
                visits.last(),
                around,
                outcomes.last(),
            )]
            answered_in_turn(
                before,
                middle,
                panes,
                visits.drop_last(),
                around,
                outcomes.drop_last(),
            ) && answered(
                middle,
                after,
                visited_panes(panes, visits.drop_last(), outcomes.drop_last(), around),
                visits.last(),
                around,
                outcomes.last(),
            )
    }
}

/// What is told of the view of a pane.
pub open spec fn told_of(key: PaneKeyModel, around: Surroundings) -> Result<
    ContextModel,
    Seq<char>,
> {
    context_told(ViewId(key.view), around.views[key.view], around.contents, around.maximum)
}

/// What is asked of an extension for a pane.
pub open spec fn present_requests(
    panes: PanesModel,
    key: PaneKeyModel,
    around: Surroundings,
) -> Seq<PresentRequest> {
    match told_of(key, around) {
        Ok(context) => if needs_lines(panes, key, around) {
            seq![PresentRequest { key, context }]
        } else {
            Seq::empty()
        },
        Err(_) => Seq::empty(),
    }
}

/// The outcome is one that the pane can have: where nothing can be told of the view, that is what
/// it shows.
pub open spec fn outcome_fits(
    key: PaneKeyModel,
    around: Surroundings,
    outcome: Result<LinesModel, Seq<char>>,
) -> bool {
    told_of(key, around) matches Err(message) ==> outcome == Err::<LinesModel, Seq<char>>(message)
}

/// Every pane has an outcome that it can have.
pub open spec fn outcomes_fit(
    visits: Seq<Visit>,
    outcomes: Seq<Result<LinesModel, Seq<char>>>,
    around: Surroundings,
) -> bool {
    &&& outcomes.len() == visits.len()
    &&& forall|i: int|
        0 <= i < visits.len() ==> outcome_fits((#[trigger] visits[i]).key, around, outcomes[i])
}

/// What is kept of panes once they have got their lines, one after the other.
pub open spec fn visited_panes(
    before: PanesModel,
    visits: Seq<Visit>,
    outcomes: Seq<Result<LinesModel, Seq<char>>>,
    around: Surroundings,
) -> PanesModel
    decreases visits.len(),
{
    if visits.len() == 0 {
        before
    } else {
        panes_after(
            visited_panes(before, visits.drop_last(), outcomes.drop_last(), around),
            visits.last().key,
            around,
            outcomes.last(),
        )
    }
}

/// What is asked of extensions for panes to get their lines, one after the other.
pub open spec fn visited_requests(
    before: PanesModel,
    visits: Seq<Visit>,
    outcomes: Seq<Result<LinesModel, Seq<char>>>,
    around: Surroundings,
) -> Seq<PresentRequest>
    decreases visits.len(),
{
    if visits.len() == 0 {
        Seq::empty()
    } else {
        visited_requests(before, visits.drop_last(), outcomes.drop_last(), around)
            + present_requests(
            visited_panes(before, visits.drop_last(), outcomes.drop_last(), around),
            visits.last().key,
            around,
        )
    }
}

/// What is kept of the panes that are shown.
pub open spec fn kept_for(panes: PanesModel, visits: Seq<Visit>) -> PanesModel {
    PanesModel {
        cache: Map::new(
            |key: PaneKeyModel| panes.cache.contains_key(key) && is_visited(visits, key),
            |key: PaneKeyModel| panes.cache[key],
        ),
        faulted: Set::new(
            |key: PaneKeyModel| panes.faulted.contains(key) && is_visited(visits, key),
        ),
    }
}

/// The pane is shown.
pub open spec fn is_visited(visits: Seq<Visit>, key: PaneKeyModel) -> bool {
    exists|i: int| 0 <= i < visits.len() && (#[trigger] visits[i]).key == key
}

/// What a pane shows.
pub struct ShownPane {
    pub view: ViewId,
    pub key: Seq<char>,
    pub content: Option<ContentId>,
    pub lines: LinesModel,
}

/// What the panes show, in their order.
pub open spec fn shown_panes(visits: Seq<Visit>, cache: Map<PaneKeyModel, CacheModel>) -> Seq<
    ShownPane,
>
    decreases visits.len(),
{
    if visits.len() == 0 {
        Seq::empty()
    } else {
        let rest = shown_panes(visits.drop_last(), cache);
        let visit = visits.last();
        if cache.contains_key(visit.key) {
            rest.push(
                ShownPane {
                    view: ViewId(visit.key.view),
                    key: visit.full_key,
                    content: cache[visit.key].content,
                    lines: cache[visit.key].lines,
                },
            )
        } else {
            rest
        }
    }
}

/// What a pane of an extension shows.
pub struct ExtensionPane {
    pub view: ViewId,
    pub key: String,
    pub content: Option<ContentId>,
    pub presentation: NamedLinesPresentation,
}

impl ExtensionPane {
    pub open spec fn model(self) -> ShownPane {
        ShownPane {
            view: self.view,
            key: self.key@,
            content: self.content,
            lines: self.presentation.model(),
        }
    }
}

/// What panes of extensions show.
pub open spec fn shown_of(panes: Seq<ExtensionPane>) -> Seq<ShownPane> {
    panes.map_values(|pane: ExtensionPane| pane.model())
}

/// The numbers of the views, the smallest first.
pub open spec fn lists_views(views: Map<u64, ViewModel>, ids: Seq<u64>) -> bool {
    &&& rising(ids)
    &&& forall|id: u64| ids.contains(id) <==> #[trigger] views.contains_key(id)
}

/// Every pane that is shown is up to date, or has failed; nothing is kept of the others.
pub open spec fn was_refreshed(
    definitions: Seq<ExtensionModel>,
    before: PanesModel,
    after: PanesModel,
    shown: Seq<ShownPane>,
    around: Surroundings,
    ids: Seq<u64>,
    outcomes: Seq<Result<LinesModel, Seq<char>>>,
) -> bool {
    let visits = all_visits(definitions, around.views, ids);
    let panes = visited_panes(before, visits, outcomes, around);
    &&& lists_views(around.views, ids)
    &&& outcomes_fit(visits, outcomes, around)
    &&& after == kept_for(panes, visits)
    &&& shown == shown_panes(visits, panes.cache)
}

/// An extension goes with an owner: one of the owner's extensions has its name.
pub open spec fn goes_with_owner(
    definitions: Seq<ExtensionModel>,
    owner: Seq<char>,
    id: Seq<char>,
) -> bool {
    exists|i: int|
        0 <= i < definitions.len() && (#[trigger] definitions[i]).owner == owner
            && definitions[i].id == id
}

/// The extensions that stay without an owner.
pub open spec fn without_owner(
    all: Seq<ExtensionModel>,
    owner: Seq<char>,
    definitions: Seq<ExtensionModel>,
) -> Seq<ExtensionModel>
    decreases definitions.len(),
{
    if definitions.len() == 0 {
        Seq::empty()
    } else if goes_with_owner(all, owner, definitions.last().id) {
        without_owner(all, owner, definitions.drop_last())
    } else {
        without_owner(all, owner, definitions.drop_last()).push(definitions.last())
    }
}

/// The extensions themselves that stay without an owner.
pub open spec fn kept_extensions<E>(
    all: Seq<ExtensionModel>,
    owner: Seq<char>,
    definitions: Seq<ExtensionModel>,
    extensions: Seq<E>,
) -> Seq<E>
    decreases definitions.len(),
{
    if definitions.len() == 0 {
        Seq::empty()
    } else if goes_with_owner(all, owner, definitions.last().id) {
        kept_extensions(all, owner, definitions.drop_last(), extensions.drop_last())
    } else {
        kept_extensions(all, owner, definitions.drop_last(), extensions.drop_last()).push(
            extensions.last(),
        )
    }
}

/// The extension was told that it is no longer used.
pub open spec fn was_unloaded<E: ViewExtension>(extension: E) -> bool {
    exists|after: E| #[trigger] extension.unloads(after)
}

/// What is kept of panes without the extensions of an owner.
pub open spec fn panes_without_owner(
    all: Seq<ExtensionModel>,
    owner: Seq<char>,
    panes: PanesModel,
) -> PanesModel {
    PanesModel {
        cache: Map::new(
            |key: PaneKeyModel|
                panes.cache.contains_key(key) && !goes_with_owner(all, owner, key.extension),
            |key: PaneKeyModel| panes.cache[key],
        ),
        faulted: Set::new(
            |key: PaneKeyModel|
                panes.faulted.contains(key) && !goes_with_owner(all, owner, key.extension),
        ),
    }
}

/// A pane that is shown, to be looked at again.
struct VisitRecord {
    extension: usize,
    key: PaneCacheKey,
    full_key: String,
}

impl VisitRecord {
    spec fn model(self) -> Visit {
        Visit { index: self.extension as int, key: self.key.model(), full_key: self.full_key@ }
    }
}

/// The panes that are shown.
spec fn visits_of(records: Seq<VisitRecord>) -> Seq<Visit> {
    records.map_values(|record: VisitRecord| record.model())
}

/// Extensions, and what they last showed.
pub struct ViewExtensionStore<E> {
    extensions: Vec<RegisteredExtension<E>>,
    cache: PaneTable<PaneCacheEntry>,
    faulted: PaneTable<()>,
}

impl<E: ViewExtension> ViewExtensionStore<E> {
    /// What the extensions add to views.
    pub closed spec fn definitions(self) -> Seq<ExtensionModel> {
        definitions_of(self.extensions@)
    }

    /// What is kept of panes.
    pub closed spec fn panes(self) -> PanesModel {
        PanesModel {
            cache: self.cache.entries().map_values(|entry: PaneCacheEntry| entry.model()),
            faulted: self.faulted.entries().dom(),
        }
    }

    /// The extensions themselves.
    pub closed spec fn extensions(self) -> Seq<E> {
        extensions_of(self.extensions@)
    }

    /// No extensions.
    pub fn empty() -> (store: Self)
        ensures
            store.definitions() == Seq::<ExtensionModel>::empty(),
            store.panes() == (PanesModel { cache: Map::empty(), faulted: Set::empty() }),
            store.extensions() == Seq::<E>::empty(),
    {
        let store = ViewExtensionStore {
            extensions: Vec::new(),
            cache: PaneTable::new(),
            faulted: PaneTable::new(),
        };
        assert(store.definitions() =~= Seq::<ExtensionModel>::empty());
        assert(store.extensions() =~= Seq::<E>::empty());
        assert(store.panes() =~= (PanesModel { cache: Map::empty(), faulted: Set::empty() }));
        store
    }

    /// The extensions, where no two have the same name and all add to views of known definitions.
    pub fn new(
        extensions: Vec<RegisteredExtension<E>>,
        definitions: &ViewDefinitionRegistry,
    ) -> (result: Result<Self, ViewExtensionRegistrationError>)
        ensures
            match result {
                Ok(store) => {
                    &&& extensions_refusal(
                        definitions_of(extensions@),
                        definitions.model(),
                        0,
                    ) is None
                    &&& store.definitions() == definitions_of(extensions@)
                    &&& store.panes() == (PanesModel { cache: Map::empty(), faulted: Set::empty() })
                    &&& store.extensions() == extensions_of(extensions@)
                },
                Err(error) => extensions_refusal(
                    definitions_of(extensions@),
                    definitions.model(),
                    0,
                ) matches Some(fault) && tells_extension_fault(error, fault),
            },
    {
        let ghost all = definitions_of(extensions@);
        let ghost catalog = definitions.model();
        let mut i: usize = 0;
        while i < extensions.len()
            invariant
                i <= extensions.len(),
                all == definitions_of(extensions@),
                catalog == definitions.model(),
                extensions_refusal(all, catalog, 0) == extensions_refusal(all, catalog, i as int),
            decreases extensions.len() - i,
        {
            let definition = &extensions[i].definition;
            assert(all[i as int] == definition.model());
            let mut repeated = false;
            let mut j: usize = 0;
            while j < i
                invariant
                    j <= i,
                    i < extensions.len(),
                    all == definitions_of(extensions@),
                    definition.model() == all[i as int],
                    repeated == exists|k: int|
                        0 <= k < j && (#[trigger] all[k]).id == all[i as int].id,
                decreases i - j,
            {
                assert(all[j as int] == extensions@[j as int].definition.model());
                if same_text(extensions[j].definition.id(), definition.id()) {
                    assert(all[j as int].id == all[i as int].id);
                    repeated = true;
                }
                j = j + 1;
            }
            if repeated {
                return Err(
                    ViewExtensionRegistrationError::Duplicate(String::from_str(definition.id())),
                );
            }
            match definitions.get(definition.target()) {
                Some(_) => {},
                None => {
                    return Err(
                        ViewExtensionRegistrationError::UnknownTarget {
                            extension: String::from_str(definition.id()),
                            target: definition.target().clone(),
                        },
                    );
                },
            }
            i = i + 1;
        }
        let mut store = Self::empty();
        let ghost panes = store.panes();
        store.extensions = extensions;
        assert(store.panes() == panes);
        Ok(store)
    }

    /// What the extensions add to views, in their order.
    pub(crate) fn extension_definitions(&self) -> (definitions: Vec<&ViewExtensionDefinition>)
        ensures
            definitions@.len() == self.definitions().len(),
            forall|i: int|
                0 <= i < definitions@.len() ==> (#[trigger] definitions@[i]).model()
                    == self.definitions()[i],
    {
        let mut definitions: Vec<&ViewExtensionDefinition> = Vec::new();
        let mut i: usize = 0;
        while i < self.extensions.len()
            invariant
                i <= self.extensions.len(),
                definitions@.len() == i,
                self.definitions().len() == self.extensions@.len(),
                forall|j: int|
                    0 <= j < i ==> (#[trigger] definitions@[j]).model() == self.definitions()[j],
            decreases self.extensions.len() - i,
        {
            definitions.push(&self.extensions[i].definition);
            i = i + 1;
        }
        definitions
    }

    /// Whether there are no extensions.
    pub fn is_empty(&self) -> (empty: bool)
        ensures
            empty == (self.definitions().len() == 0),
    {
        self.extensions.len() == 0
    }

    /// Whether an extension adds to views of one of the definitions.
    pub fn targets_any(&self, definitions: &Vec<ViewDefinitionId>) -> (targets: bool)
        ensures
            targets == exists|i: int, j: int|
                0 <= i < self.definitions().len() && 0 <= j < definitions@.len() && (
                #[trigger] self.definitions()[i]).target == (#[trigger] definitions@[j]).name(),
    {
        let ghost all = self.definitions();
        let mut i: usize = 0;
        while i < self.extensions.len()
            invariant
                i <= self.extensions.len(),
                all == self.definitions(),
                forall|a: int, b: int|
                    0 <= a < i && 0 <= b < definitions@.len() ==> (#[trigger] all[a]).target != (
                    #[trigger] definitions@[b]).name(),
            decreases self.extensions.len() - i,
        {
            assert(all[i as int] == self.extensions@[i as int].definition.model());
            let target = self.extensions[i].definition.target();
            let mut j: usize = 0;
            while j < definitions.len()
                invariant
                    j <= definitions.len(),
                    i < self.extensions.len(),
                    all == self.definitions(),
                    all.len() == self.extensions.len(),
                    target.name() == all[i as int].target,
                    forall|b: int|
                        0 <= b < j ==> all[i as int].target != (#[trigger] definitions@[b]).name(),
                decreases definitions.len() - j,
            {
                if same_text(target.as_str(), definitions[j].as_str()) {
                    assert(all[i as int].target == definitions@[j as int].name());
                    return true;
                }
                j = j + 1;
            }
            i = i + 1;
        }
        false
    }

    /// What views call the panes of an owner's extensions.
    pub fn pane_keys_for_owner(&self, owner: &str) -> (keys: Vec<String>)
        ensures
            forall|key: Seq<char>|
                lists_text(keys@, key) <==> #[trigger] has_pane(self.definitions(), owner@, key),
    {
        let ghost all = self.definitions();
        let mut keys: Vec<String> = Vec::new();
        let mut i: usize = 0;
        while i < self.extensions.len()
            invariant
                i <= self.extensions.len(),
                all == self.definitions(),
                all.len() == self.extensions.len(),
                forall|key: Seq<char>|
                    lists_text(keys@, key) <==> #[trigger] has_pane(
                        all.take(i as int),
                        owner@,
                        key,
                    ),
            decreases self.extensions.len() - i,
        {
            let definition = &self.extensions[i].definition;
            assert(all[i as int] == definition.model());
            let ghost before = keys@;
            let ghost taken = all.take(i as int);
            let ghost next = all.take(i + 1);
            let owned = same_text(definition.owner(), owner);
            if owned {
                let panes = definition.panes();
                let ghost models = panes_of(panes@);
                let mut j: usize = 0;
                while j < panes.len()
                    invariant
                        j <= panes.len(),
                        models == panes_of(panes@),
                        forall|key: Seq<char>|
                            #[trigger] lists_text(keys@, key) <==> lists_text(before, key)
                                || exists|k: int|
                                0 <= k < j && (#[trigger] models[k]).full_key == key,
                    decreases panes.len() - j,
                {
                    assert(models[j as int] == panes@[j as int].model());
                    let ghost here = keys@;
                    let full_key = panes[j].full_key.clone();
                    keys.push(full_key);
                    proof {
                        assert forall|key: Seq<char>|
                            #[trigger] lists_text(keys@, key) <==> lists_text(here, key) || key
                                == models[j as int].full_key by {
                            if lists_text(keys@, key) {
                                let k = choose|k: int|
                                    0 <= k < keys@.len() && (#[trigger] keys@[k])@ == key;
                                if k < here.len() {
                                    assert(here[k]@ == key);
                                }
                            }
                            if lists_text(here, key) {
                                let k = choose|k: int|
                                    0 <= k < here.len() && (#[trigger] here[k])@ == key;
                                assert(keys@[k]@ == key);
                            }
                            if key == models[j as int].full_key {
                                assert(keys@[here.len() as int]@ == key);
                            }
                        }
                    }
                    j = j + 1;
                }
            }
            proof {
                assert forall|key: Seq<char>|
                    lists_text(keys@, key) <==> #[trigger] has_pane(next, owner@, key) by {
                    if has_pane(taken, owner@, key) {
                        let (a, b) = choose|a: int, b: int|
                            0 <= a < taken.len() && taken[a].owner == owner@ && 0 <= b
                                < taken[a].panes.len() && (#[trigger] taken[a].panes[b]).full_key
                                == key;
                        assert(next[a] == taken[a]);
                        assert(next[a].panes[b].full_key == key);
                    }
                    if has_pane(next, owner@, key) {
                        let (a, b) = choose|a: int, b: int|
                            0 <= a < next.len() && next[a].owner == owner@ && 0 <= b
                                < next[a].panes.len() && (#[trigger] next[a].panes[b]).full_key
                                == key;
                        if a < i {
                            assert(taken[a] == next[a]);
                            assert(taken[a].panes[b].full_key == key);
                        }
                    }
                    assert(next[i as int] == all[i as int]);
                    if owned {
                        let models = all[i as int].panes;
                        if exists|k: int| 0 <= k < models.len() && (#[trigger] models[k]).full_key
                            == key {
                            let k = choose|k: int|
                                0 <= k < models.len() && (#[trigger] models[k]).full_key == key;
                            assert(next[i as int].panes[k].full_key == key);
                        }
                    }
                }
            }
            i = i + 1;
        }
        assert(all.take(i as int) =~= all);
        keys
    }

    /// The panes that are shown next to the views of a workspace.
    fn visit_records<B: SceneBuilder>(&self, workspace: &ViewWorkspace<B>) -> (records: Vec<
        VisitRecord,
    >)
        ensures
            exists|ids: Seq<u64>| #[trigger]
                lists_views(workspace.model().views, ids) && visits_of(records@) == all_visits(
                    self.definitions(),
                    workspace.model().views,
                    ids,
                ),
            forall|i: int|
                0 <= i < records@.len() ==> (#[trigger] records@[i]).extension
                    < self.extensions@.len() && workspace.model().views.contains_key(
                    records@[i].key.view.0,
                ),
    {
        let ghost views = workspace.model().views;
        let ghost all = self.definitions();
        let list = workspace.views();
        let ghost ids = numbers_of(list@);
        assert(lists_views(views, ids));
        let mut records: Vec<VisitRecord> = Vec::new();
        let mut e: usize = 0;
        assert(visits_of(records@) =~= all_visits(all.take(0), views, ids));
        while e < self.extensions.len()
            invariant
                e <= self.extensions.len(),
                all == self.definitions(),
                all.len() == self.extensions@.len(),
                views == workspace.model().views,
                ids == numbers_of(list@),
                lists_views(views, ids),
                visits_of(records@) == all_visits(all.take(e as int), views, ids),
                forall|i: int|
                    0 <= i < records@.len() ==> (#[trigger] records@[i]).extension
                        < self.extensions@.len() && views.contains_key(records@[i].key.view.0),
            decreases self.extensions.len() - e,
        {
            let definition = &self.extensions[e].definition;
            let ghost model = definition.model();
            let ghost before = visits_of(records@);
            assert(all[e as int] == model);
            assert(all.take(e + 1).drop_last() =~= all.take(e as int));
            assert(all.take(e + 1).last() == model);
            let mut v: usize = 0;
            assert(before =~= before + view_visits(e as int, model, views, ids.take(0)));
            while v < list.len()
                invariant
                    v <= list.len(),
                    e < self.extensions.len(),
                    model == definition.model(),
                    views == workspace.model().views,
                    ids == numbers_of(list@),
                    lists_views(views, ids),
                    visits_of(records@) == before + view_visits(e as int, model, views, ids.take(v as int)),
                    forall|i: int|
                        0 <= i < records@.len() ==> (#[trigger] records@[i]).extension
                            < self.extensions@.len() && views.contains_key(
                            records@[i].key.view.0,
                        ),
                decreases list.len() - v,
            {
                let id = list[v];
                assert(ids[v as int] == id.0);
                assert(ids.contains(id.0));
                assert(views.contains_key(id.0));
                assert(ids.take(v + 1).drop_last() =~= ids.take(v as int));
                if let Some(data) = workspace.view(id) {
                    if same_text(data.definition().as_str(), definition.target().as_str()) {
                        let ghost here = visits_of(records@);
                        let panes = definition.panes();
                        let ghost models = panes_of(panes@);
                        let ghost view = data.model();
                        let mut p: usize = 0;
                        assert(here =~= here + pane_visits(
                            e as int,
                            model.id,
                            models.take(0),
                            id.0,
                            view,
                        ));
                        while p < panes.len()
                            invariant
                                p <= panes.len(),
                                e < self.extensions.len(),
                                model == definition.model(),
                                models == panes_of(panes@),
                                view == data.model(),
                                views.contains_key(id.0),
                                visits_of(records@) == here + pane_visits(
                                    e as int,
                                    model.id,
                                    models.take(p as int),
                                    id.0,
                                    view,
                                ),
                                forall|i: int|
                                    0 <= i < records@.len() ==> (#[trigger] records@[i]).extension
                                        < self.extensions@.len() && views.contains_key(
                                        records@[i].key.view.0,
                                    ),
                            decreases panes.len() - p,
                        {
                            let pane = &panes[p];
                            assert(models[p as int] == pane.model());
                            assert(models.take(p + 1).drop_last() =~= models.take(p as int));
                            let ghost so_far = records@;
                            if data.panes().space_for_key(pane.full_key.as_str()).is_some() {
                                let record = VisitRecord {
                                    extension: e,
                                    key: PaneCacheKey {
                                        extension: String::from_str(definition.id()),
                                        view: id,
                                        pane: pane.key.clone(),
                                    },
                                    full_key: pane.full_key.clone(),
                                };
                                let ghost visit = record.model();
                                records.push(record);
                                assert(visits_of(records@) =~= visits_of(so_far).push(visit));
                                assert(visits_of(records@) =~= here + pane_visits(
                                    e as int,
                                    model.id,
                                    models.take(p + 1),
                                    id.0,
                                    view,
                                ));
                            }
                            p = p + 1;
                        }
                        assert(models.take(p as int) =~= models);
                        assert(visits_of(records@) =~= before + view_visits(
                            e as int,
                            model,
                            views,
                            ids.take(v + 1),
                        ));
                    }
                }
                v = v + 1;
            }
            assert(ids.take(v as int) =~= ids);
            e = e + 1;
        }
        assert(all.take(e as int) =~= all);
        records
    }

    /// Whether what a pane showed last is about the view and its document as they are.
    fn cache_is_current(
        &self,
        key: &PaneCacheKey,
        view_revision: Revision,
        content_revision: Option<Revision>,
    ) -> (current: bool)
        ensures
            current == (self.panes().cache.contains_key(key.model())
                && self.panes().cache[key.model()].view_revision == view_revision.0
                && self.panes().cache[key.model()].content_revision == content_revision),
    {
        match self.cache.get(key) {
            Some(entry) => entry.view_revision == view_revision && entry.content_revision
                == content_revision,
            None => false,
        }
    }

    /// Keeps the outcome of a pane: the lines to show, or why there are none.
    pub fn settle(
        &mut self,
        key: &PaneCacheKey,
        view: &View,
        contents: &ContentTable,
        result: Result<NamedLinesPresentation, ViewExtensionContractError>,
    )
        ensures
            final(self).definitions() == old(self).definitions(),
            final(self).extensions() == old(self).extensions(),
            final(self).panes() == panes_with(
                old(self).panes(),
                key.model(),
                view.model(),
                contents.model(),
                lines_given(result),
            ),
    {
        let ghost before = self.panes();
        let ghost outcome = lines_given(result);
        let view_revision = view.revision();
        let (content, content_revision) = extension_document_metadata(view, contents);
        match result {
            Ok(presentation) => {
                self.cache.insert(
                    key.clone(),
                    PaneCacheEntry { view_revision, content_revision, content, presentation },
                );
            },
            Err(error) => {
                let message = bounded_message(error.message);
                let presentation = fault_presentation(message.as_str());
                self.faulted.insert(key.clone(), ());
                self.cache.insert(
                    key.clone(),
                    PaneCacheEntry { view_revision, content_revision, content, presentation },
                );
            },
        }
        assert(self.panes() =~= panes_with(
            before,
            key.model(),
            view.model(),
            contents.model(),
            outcome,
        ));
    }

    /// The lines that an extension gives for a pane, where it finds that they can be shown.
    fn ask(&mut self, index: usize, pane: &str, context: &ViewExtensionContext) -> (result: Result<
        NamedLinesPresentation,
        ViewExtensionContractError,
    >)
        requires
            index < old(self).extensions@.len(),
        ensures
            final(self).definitions() == old(self).definitions(),
            final(self).panes() == old(self).panes(),
            exists|
                extension: E,
                lines: Result<LinesModel, Seq<char>>,
                found: Result<(), Seq<char>>,
            |
                #![trigger gave(
                    old(self).extensions()[index as int],
                    pane@,
                    context.model(),
                    extension,
                    lines,
                    found,
                )]
                gave(
                    old(self).extensions()[index as int],
                    pane@,
                    context.model(),
                    extension,
                    lines,
                    found,
                ) && lines_given(result) == outcome_of(lines, found) && final(self).extensions()
                    == old(self).extensions().update(index as int, extension),
    {
        let ghost before = *self;
        let registered = &mut self.extensions[index];
        let presented = registered.extension.present(pane, context);
        let ghost lines = lines_given(presented);
        let ghost mut found: Result<(), Seq<char>> = Ok(());
        let ghost after = registered.extension;
        let result = match presented {
            Ok(presentation) => {
                let checked = registered.extension.check(&presentation);
                proof {
                    found = check_given(checked);
                }
                match checked {
                    Ok(_) => Ok(presentation),
                    Err(error) => Err(error),
                }
            },
            Err(error) => Err(error),
        };
        proof {
            assert(self.definitions() =~= before.definitions());
            assert(self.panes() =~= before.panes());
            assert(self.extensions() =~= before.extensions().update(index as int, after));
            assert(gave(
                before.extensions()[index as int],
                pane@,
                context.model(),
                after,
                lines,
                found,
            ));
        }
        result
    }

    /// Brings one pane up to date.
    fn visit<B: SceneBuilder>(
        &mut self,
        record: &VisitRecord,
        workspace: &ViewWorkspace<B>,
        contents: &ContentTable,
        maximum: usize,
    )
        requires
            record.extension < old(self).extensions@.len(),
            workspace.model().views.contains_key(record.key.view.0),
        ensures
            final(self).definitions() == old(self).definitions(),
            ({
                let around = Surroundings {
                    views: workspace.model().views,
                    contents: contents.model(),
                    maximum,
                };
                exists|outcome: Result<LinesModel, Seq<char>>| #[trigger]
                    answered(
                        old(self).extensions(),
                        final(self).extensions(),
                        old(self).panes(),
                        record.model(),
                        around,
                        outcome,
                    ) && final(self).panes() == panes_after(
                        old(self).panes(),
                        record.model().key,
                        around,
                        outcome,
                    )
            }),
    {
        let ghost around = Surroundings {
            views: workspace.model().views,
            contents: contents.model(),
            maximum,
        };
        let ghost key = record.key.model();
        let ghost before = self.panes();
        let ghost extensions = self.extensions();
        let data = match workspace.view(record.key.view) {
            Some(data) => data,
            None => vstd::pervasive::unreached(),
        };
        let (_, content_revision) = extension_document_metadata(data, contents);
        if self.faulted.contains(&record.key) || self.cache_is_current(
            &record.key,
            data.revision(),
            content_revision,
        ) {
            proof {
                let outcome: Result<LinesModel, Seq<char>> = match told_of(key, around) {
                    Ok(_) => Ok(fault_lines(Seq::empty())),
                    Err(message) => Err(message),
                };
                assert(answered(
                    extensions,
                    self.extensions(),
                    before,
                    record.model(),
                    around,
                    outcome,
                ));
            }
            return ;
        }
        assert(needs_lines(before, key, around));
        let result = match extension_context(record.key.view, data, contents, maximum) {
            Ok(context) => {
                let presented = self.ask(record.extension, record.key.pane.as_str(), &context);
                proof {
                    let index = record.extension as int;
                    let (extension, lines, found) = choose|
                        extension: E,
                        lines: Result<LinesModel, Seq<char>>,
                        found: Result<(), Seq<char>>,
                    |
                        #![trigger gave(
                            extensions[index],
                            key.pane,
                            context.model(),
                            extension,
                            lines,
                            found,
                        )]
                        gave(extensions[index], key.pane, context.model(), extension, lines, found)
                            && lines_given(presented) == outcome_of(lines, found)
                            && self.extensions() == extensions.update(index, extension);
                    let told = told_of(key, around)->Ok_0;
                    assert(told == context.model());
                    assert(gave(
                        extensions[record.model().index],
                        record.model().key.pane,
                        told,
                        extension,
                        lines,
                        found,
                    ));
                }
                presented
            },
            Err(error) => Err(error),
        };
        proof {
            assert(answered(
                extensions,
                self.extensions(),
                before,
                record.model(),
                around,
                lines_given(result),
            ));
        }
        self.settle(&record.key, data, contents, result);
    }

    /// Brings every pane that is shown up to date, forgets the others, and tells what the panes
    /// show. A pane that failed stays so for as long as it is shown.
    pub fn refresh<B: SceneBuilder>(
        &mut self,
        workspace: &ViewWorkspace<B>,
        contents: &ContentTable,
        maximum: usize,
    ) -> (shown: Vec<ExtensionPane>)
        ensures
            final(self).definitions() == old(self).definitions(),
            ({
                let around = Surroundings {
                    views: workspace.model().views,
                    contents: contents.model(),
                    maximum,
                };
                exists|ids: Seq<u64>, outcomes: Seq<Result<LinesModel, Seq<char>>>| #[trigger]
                    was_refreshed(
                        old(self).definitions(),
                        old(self).panes(),
                        final(self).panes(),
                        shown_of(shown@),
                        around,
                        ids,
                        outcomes,
                    ) && answered_in_turn(
                        old(self).extensions(),
                        final(self).extensions(),
                        old(self).panes(),
                        all_visits(old(self).definitions(), around.views, ids),
                        around,
                        outcomes,
                    )
            }),
    {
        let ghost around = Surroundings {
            views: workspace.model().views,
            contents: contents.model(),
            maximum,
        };
        let ghost before = self.panes();
        let ghost extensions = self.extensions();
        let ghost definitions = self.definitions();
        let records = self.visit_records(workspace);
        let ghost ids = choose|ids: Seq<u64>| #[trigger]
            lists_views(around.views, ids) && visits_of(records@) == all_visits(
                definitions,
                around.views,
                ids,
            );
        let ghost visits = visits_of(records@);
        let ghost mut outcomes: Seq<Result<LinesModel, Seq<char>>> = Seq::empty();
        let mut i: usize = 0;
        assert(visits.take(0) =~= Seq::empty());
        while i < records.len()
            invariant
                i <= records.len(),
                around == (Surroundings {
                    views: workspace.model().views,
                    contents: contents.model(),
                    maximum,
                }),
                visits == visits_of(records@),
                self.definitions() == definitions,
                forall|j: int|
                    0 <= j < records@.len() ==> (#[trigger] records@[j]).extension
                        < definitions.len() && around.views.contains_key(records@[j].key.view.0),
                answered_in_turn(
                    extensions,
                    self.extensions(),
                    before,
                    visits.take(i as int),
                    around,
                    outcomes,
                ),
                self.panes() == visited_panes(before, visits.take(i as int), outcomes, around),
            decreases records.len() - i,
        {
            let ghost here = self.panes();
            let ghost middle = self.extensions();
            let ghost visit = records@[i as int].model();
            assert(self.extensions@.len() == definitions.len());
            self.visit(&records[i], workspace, contents, maximum);
            proof {
                let outcome = choose|outcome: Result<LinesModel, Seq<char>>| #[trigger]
                    answered(middle, self.extensions(), here, visit, around, outcome)
                        && self.panes() == panes_after(here, visit.key, around, outcome);
                let taken = visits.take(i as int);
                let next = visits.take(i + 1);
                let now = outcomes.push(outcome);
                assert(visits[i as int] == visit);
                assert(next.drop_last() =~= taken);
                assert(next.last() == visit);
                assert(now.drop_last() =~= outcomes);
                assert(now.last() == outcome);
                assert(answered_in_turn(
                    extensions,
                    self.extensions(),
                    before,
                    next,
                    around,
                    now,
                ));
                outcomes = now;
            }
            i = i + 1;
        }
        assert(visits.take(i as int) =~= visits);
        let ghost panes = self.panes();
        let ghost last = self.extensions();
        let mut shown: Vec<ExtensionPane> = Vec::new();
        let mut keys: Vec<PaneCacheKey> = Vec::new();
        let mut k: usize = 0;
        assert(shown_of(shown@) =~= shown_panes(visits.take(0), panes.cache));
        while k < records.len()
            invariant
                k <= records.len(),
                visits == visits_of(records@),
                panes == self.panes(),
                last == self.extensions(),
                shown_of(shown@) == shown_panes(visits.take(k as int), panes.cache),
                keys@.len() == k,
                forall|j: int|
                    0 <= j < k ==> (#[trigger] keys@[j]).model() == records@[j].key.model(),
            decreases records.len() - k,
        {
            let record = &records[k];
            assert(visits[k as int] == record.model());
            assert(visits.take(k + 1).drop_last() =~= visits.take(k as int));
            if let Some(entry) = self.cache.get(&record.key) {
                let ghost so_far = shown@;
                let pane = ExtensionPane {
                    view: record.key.view,
                    key: record.full_key.clone(),
                    content: entry.content,
                    presentation: entry.presentation.clone(),
                };
                let ghost model = pane.model();
                shown.push(pane);
                assert(shown_of(shown@) =~= shown_of(so_far).push(model));
                assert(panes.cache[record.key.model()] == entry.model());
            }
            keys.push(record.key.clone());
            k = k + 1;
        }
        proof {
            assert forall|key: PaneKeyModel| lists_key(keys@, key) == #[trigger] is_visited(
                visits,
                key,
            ) by {
                if lists_key(keys@, key) {
                    let j = choose|j: int| 0 <= j < keys@.len() && (#[trigger] keys@[j]).model()
                        == key;
                    assert(visits[j].key == key);
                }
                if is_visited(visits, key) {
                    let j = choose|j: int| 0 <= j < visits.len() && (#[trigger] visits[j]).key
                        == key;
                    assert(visits[j] == records@[j].model());
                    assert(keys@[j].model() == key);
                }
            }
        }
        self.cache.keep(&keys);
        self.faulted.keep(&keys);
        proof {
            assert(self.panes() =~= kept_for(panes, visits));
            lemma_answers_fit(extensions, last, before, visits, around, outcomes);
            assert(was_refreshed(
                definitions,
                before,
                self.panes(),
                shown_of(shown@),
                around,
                ids,
                outcomes,
            ));
        }
        shown
    }

    /// Stops using the extensions of an owner, and tells how many there were.
    pub fn remove_owner(&mut self, owner: &str) -> (removed: usize)
        ensures
            final(self).definitions() == without_owner(
                old(self).definitions(),
                owner@,
                old(self).definitions(),
            ),
            removed == old(self).definitions().len() - final(self).definitions().len(),
            final(self).panes() == panes_without_owner(
                old(self).definitions(),
                owner@,
                old(self).panes(),
            ),
            kept_extensions(
                old(self).definitions(),
                owner@,
                old(self).definitions(),
                old(self).extensions(),
            ) == final(self).extensions(),
            forall|i: int|
                0 <= i < old(self).definitions().len() && goes_with_owner(
                    old(self).definitions(),
                    owner@,
                    old(self).definitions()[i].id,
                ) ==> was_unloaded(#[trigger] old(self).extensions()[i]),
    {
        let ghost all = self.definitions();
        let ghost before = self.panes();
        let ghost extensions = self.extensions();
        let mut ids: Vec<String> = Vec::new();
        let mut i: usize = 0;
        while i < self.extensions.len()
            invariant
                i <= self.extensions.len(),
                all == self.definitions(),
                all.len() == self.extensions@.len(),
                forall|id: Seq<char>|
                    lists_text(ids@, id) <==> #[trigger] goes_with_owner(
                        all.take(i as int),
                        owner@,
                        id,
                    ),
            decreases self.extensions.len() - i,
        {
            let definition = &self.extensions[i].definition;
            let ghost here = ids@;
            let ghost taken = all.take(i as int);
            let ghost next = all.take(i + 1);
            assert(all[i as int] == definition.model());
            assert(next =~= taken.push(all[i as int]));
            let owned = same_text(definition.owner(), owner);
            if owned {
                ids.push(String::from_str(definition.id()));
            }
            proof {
                assert forall|id: Seq<char>|
                    lists_text(ids@, id) <==> #[trigger] goes_with_owner(next, owner@, id) by {
                    if lists_text(ids@, id) {
                        let k = choose|k: int| 0 <= k < ids@.len() && (#[trigger] ids@[k])@ == id;
                        if k < here.len() {
                            assert(here[k]@ == id);
                            assert(lists_text(here, id));
                            assert(goes_with_owner(taken, owner@, id));
                        } else {
                            assert(next[i as int].id == id);
                        }
                    }
                    if goes_with_owner(taken, owner@, id) {
                        let k = choose|k: int|
                            0 <= k < taken.len() && (#[trigger] taken[k]).owner == owner@
                                && taken[k].id == id;
                        assert(next[k] == taken[k]);
                        let m = choose|m: int| 0 <= m < here.len() && (#[trigger] here[m])@ == id;
                        assert(ids@[m] == here[m]);
                    }
                    if goes_with_owner(next, owner@, id) {
                        let k = choose|k: int|
                            0 <= k < next.len() && (#[trigger] next[k]).owner == owner@
                                && next[k].id == id;
                        if k < i {
                            assert(taken[k] == next[k]);
                            assert(goes_with_owner(taken, owner@, id));
                        } else {
                            assert(ids@[here.len() as int]@ == id);
                        }
                    }
                }
            }
            i = i + 1;
        }
        assert(all.take(i as int) =~= all);
        let mut kept: Vec<RegisteredExtension<E>> = Vec::new();
        let mut removed: usize = 0;
        let ghost mut done: int = 0;
        assert(definitions_of(kept@) =~= without_owner(all, owner@, all.take(0)));
        assert(all.skip(0) =~= all);
        assert(extensions.skip(0) =~= extensions);
        assert(extensions_of(kept@) =~= Seq::<E>::empty());
        while self.extensions.len() > 0
            invariant
                0 <= done <= all.len(),
                self.definitions() == all.skip(done),
                self.extensions@.len() == all.len() - done,
                self.panes() == before,
                self.extensions() == extensions.skip(done),
                extensions.len() == all.len(),
                extensions_of(kept@) == kept_extensions(
                    all,
                    owner@,
                    all.take(done),
                    extensions.take(done),
                ),
                forall|i: int|
                    0 <= i < done && goes_with_owner(all, owner@, all[i].id) ==> was_unloaded(
                        #[trigger] extensions[i],
                    ),
                forall|id: Seq<char>|
                    lists_text(ids@, id) <==> #[trigger] goes_with_owner(all, owner@, id),
                definitions_of(kept@) == without_owner(all, owner@, all.take(done)),
                removed == done - kept@.len(),
                all.len() <= usize::MAX,
            decreases self.extensions.len(),
        {
            let ghost here = self.extensions@;
            let mut extension = self.extensions.remove(0);
            let ghost model = extension.definition.model();
            proof {
                assert(all.skip(done)[0] == model);
                assert(definitions_of(here)[0] == model);
                assert(self.extensions@ =~= here.skip(1));
                assert forall|j: int| 0 <= j < all.len() - done - 1 implies #[trigger] all.skip(
                    done + 1,
                )[j] == self.definitions()[j] by {
                    assert(definitions_of(here)[j + 1] == all.skip(done)[j + 1]);
                    assert(self.extensions@[j] == here[j + 1]);
                }
                assert(self.definitions() =~= all.skip(done + 1));
                assert(extensions.skip(done)[0] == extensions_of(here)[0]);
                assert forall|j: int| 0 <= j < all.len() - done - 1 implies
                    #[trigger] extensions.skip(done + 1)[j] == self.extensions()[j] by {
                    assert(extensions_of(here)[j + 1] == extensions.skip(done)[j + 1]);
                    assert(self.extensions@[j] == here[j + 1]);
                }
                assert(self.extensions() =~= extensions.skip(done + 1));
                assert(extensions.take(done + 1).drop_last() =~= extensions.take(done));
                assert(extensions.take(done + 1).last() == extension.extension);
                assert(all.take(done + 1).drop_last() =~= all.take(done));
                assert(all.take(done + 1).last() == model);
                assert(self.panes() =~= before);
                done = done + 1;
            }
            let goes = holds_text(&ids, extension.definition.id());
            if goes {
                let ghost unloading = extension.extension;
                extension.extension.unload();
                assert(unloading.unloads(extension.extension));
                assert(was_unloaded(extensions[done - 1]));
                removed = removed + 1;
            } else {
                let ghost so_far = kept@;
                let ghost staying = extension.extension;
                kept.push(extension);
                assert(extensions_of(kept@) =~= extensions_of(so_far).push(staying));
                assert(definitions_of(kept@) =~= definitions_of(so_far).push(model));
            }
        }
        assert(all.take(done) =~= all);
        assert(extensions.take(done) =~= extensions);
        self.extensions = kept;
        let cached = self.cache.keys();
        let kept_cached = keys_without(&cached, &ids);
        self.cache.keep(&kept_cached);
        let failed = self.faulted.keys();
        let kept_failed = keys_without(&failed, &ids);
        self.faulted.keep(&kept_failed);
        assert(self.panes() =~= panes_without_owner(all, owner@, before));
        removed
    }
}

/// What extensions gave is what panes can have.
proof fn lemma_answers_fit<E: ViewExtension>(
    before: Seq<E>,
    after: Seq<E>,
    panes: PanesModel,
    visits: Seq<Visit>,
    around: Surroundings,
    outcomes: Seq<Result<LinesModel, Seq<char>>>,
)
    requires
        answered_in_turn(before, after, panes, visits, around, outcomes),
    ensures
        outcomes_fit(visits, outcomes, around),
    decreases visits.len(),
{
    if visits.len() > 0 {
        let rest = visits.drop_last();
        let fewer = outcomes.drop_last();
        let middle = choose|middle: Seq<E>|
            #![trigger answered(
                middle,
                after,
                visited_panes(panes, rest, fewer, around),
                visits.last(),
                around,
                outcomes.last(),
            )]
            answered_in_turn(before, middle, panes, rest, around, fewer) && answered(
                middle,
                after,
                visited_panes(panes, rest, fewer, around),
                visits.last(),
                around,
                outcomes.last(),
            );
        lemma_answers_fit(before, middle, panes, rest, around, fewer);
        assert forall|i: int| 0 <= i < visits.len() implies outcome_fits(
            (#[trigger] visits[i]).key,
            around,
            outcomes[i],
        ) by {
            if i < rest.len() {
                assert(rest[i] == visits[i]);
                assert(fewer[i] == outcomes[i]);
            }
        }
    }
}

/// Whether the text is among the texts.
fn holds_text(texts: &Vec<String>, text: &str) -> (holds: bool)
    ensures
        holds == lists_text(texts@, text@),
{
    let mut i: usize = 0;
    while i < texts.len()
        invariant
            i <= texts.len(),
            forall|j: int| 0 <= j < i ==> (#[trigger] texts@[j])@ != text@,
        decreases texts.len() - i,
    {
        if same_text(texts[i].as_str(), text) {
            assert(texts@[i as int]@ == text@);
            return true;
        }
        i = i + 1;
    }
    false
}

/// The panes of other extensions than these.
fn keys_without(keys: &Vec<PaneCacheKey>, ids: &Vec<String>) -> (rest: Vec<PaneCacheKey>)
    ensures
        forall|key: PaneKeyModel|
            #[trigger] lists_key(rest@, key) <==> lists_key(keys@, key) && !lists_text(
                ids@,
                key.extension,
            ),
{
    let mut rest: Vec<PaneCacheKey> = Vec::new();
    let mut i: usize = 0;
    while i < keys.len()
        invariant
            i <= keys.len(),
            forall|key: PaneKeyModel|
                #[trigger] lists_key(rest@, key) <==> lists_key(keys@.take(i as int), key)
                    && !lists_text(ids@, key.extension),
        decreases keys.len() - i,
    {
        let ghost here = rest@;
        let ghost taken = keys@.take(i as int);
        let ghost next = keys@.take(i + 1);
        let ghost model = keys@[i as int].model();
        let stays = !holds_text(ids, keys[i].extension.as_str());
        if stays {
            rest.push(keys[i].clone());
        }
        proof {
            assert forall|key: PaneKeyModel|
                #[trigger] lists_key(rest@, key) <==> lists_key(next, key) && !lists_text(
                    ids@,
                    key.extension,
                ) by {
                if lists_key(here, key) {
                    let k = choose|k: int| 0 <= k < here.len() && (#[trigger] here[k]).model()
                        == key;
                    assert(rest@[k] == here[k]);
                }
                if lists_key(rest@, key) {
                    let k = choose|k: int| 0 <= k < rest@.len() && (#[trigger] rest@[k]).model()
                        == key;
                    if k < here.len() {
                        assert(here[k].model() == key);
                        assert(lists_key(here, key));
                    } else {
                        assert(next[i as int].model() == key);
                    }
                }
                if lists_key(taken, key) {
                    let k = choose|k: int| 0 <= k < taken.len() && (#[trigger] taken[k]).model()
                        == key;
                    assert(next[k].model() == key);
                }
                if lists_key(next, key) {
                    let k = choose|k: int| 0 <= k < next.len() && (#[trigger] next[k]).model()
                        == key;
                    if k < i {
                        assert(taken[k].model() == key);
                        assert(lists_key(taken, key));
                    } else if stays {
                        assert(rest@[here.len() as int].model() == key);
                    }
                }
            }
        }
        i = i + 1;
    }
    assert(keys@.take(i as int) =~= keys@);
    rest
}

/// The text is among the texts.
pub open spec fn lists_text(texts: Seq<String>, text: Seq<char>) -> bool {
    exists|i: int| 0 <= i < texts.len() && (#[trigger] texts[i])@ == text
}

/// An extension of the owner has a pane that views call by the key.
pub open spec fn has_pane(
    definitions: Seq<ExtensionModel>,
    owner: Seq<char>,
    key: Seq<char>,
) -> bool {
    exists|i: int, j: int|
        0 <= i < definitions.len() && definitions[i].owner == owner && 0 <= j
            < definitions[i].panes.len() && (#[trigger] definitions[i].panes[j]).full_key == key
}

} // verus!
