//! Which panes extensions get, what they are asked for and what is shown of their answers.

use crate::protocol::{SpaceId, ViewId};
use crate::view::bindings::content_of;
use crate::view::extension::definition::{ExtensionModel, PaneModel};
use crate::view::extension::document::{document_stamp, RecordModel};
use crate::view::extension::presentation::LinesModel;
use crate::view::extension::reconcile::{
    all_installs, pane_installs, shown_in, view_installs, Install,
};
use crate::view::extension::store::{
    all_visits, answered, extensions_refusal, gave, goes_with_owner, is_visited, kept_extensions,
    kept_for, needs_lines, outcome_of, pane_visits, panes_with, present_requests, shown_panes,
    tells_extension_fault, told_of, view_visits, without_owner, CacheModel, ExtensionFault,
    PanesModel, ShownPane, Surroundings, ViewExtension, ViewExtensionRegistrationError, Visit,
};
use crate::view::extension::table::PaneKeyModel;
use crate::view::instance::ViewModel;
use crate::view::panes::{key_for, space_for};
use crate::view::registry::Catalog;
use crate::view::scene::{Exchange, SceneRequest, Sizing};
use crate::view::soundness::WorkspaceModel;
use crate::view::workspace::queries::replacement_space;
use crate::view::workspace::request_laws::law_pane_is_asked_for_on_its_side;
use vstd::prelude::*;

verus! {

/// The document of a view that panes are about is what its role of that name is bound to, at the
/// revision that is known of it; a document that is not known counts as none.
pub proof fn law_panes_are_about_the_document(view: ViewModel, contents: Map<u64, RecordModel>)
    ensures
        match content_of(view.bindings, "document"@) {
            Some(content) => if contents.contains_key(content.0) {
                document_stamp(view, contents) == (
                    Some(content),
                    Some(contents[content.0].revision),
                )
            } else {
                document_stamp(view, contents).0 is None && document_stamp(view, contents).1
                    is None
            },
            None => document_stamp(view, contents).0 is None && document_stamp(
                view,
                contents,
            ).1 is None,
        },
{
}

/// Lines are asked for exactly where nothing is kept of the pane, or where the view or its document
/// have changed since; not of a pane that has failed.
pub proof fn law_lines_are_asked_for_when_outdated(
    panes: PanesModel,
    key: PaneKeyModel,
    around: Surroundings,
)
    ensures
        panes.faulted.contains(key) ==> !needs_lines(panes, key, around),
        !panes.faulted.contains(key) && !panes.cache.contains_key(key) ==> needs_lines(
            panes,
            key,
            around,
        ),
        !panes.faulted.contains(key) && panes.cache.contains_key(key) ==> (needs_lines(
            panes,
            key,
            around,
        ) <==> panes.cache[key].view_revision != around.views[key.view].revision
            || panes.cache[key].content_revision != document_stamp(
            around.views[key.view],
            around.contents,
        ).1),
        told_of(key, around) matches Ok(context) ==> {
            &&& needs_lines(panes, key, around) ==> present_requests(panes, key, around).len() == 1
                && present_requests(panes, key, around)[0].key == key && present_requests(
                panes,
                key,
                around,
            )[0].context == context
            &&& !needs_lines(panes, key, around) ==> present_requests(panes, key, around).len()
                == 0
        },
        told_of(key, around) is Err ==> present_requests(panes, key, around).len() == 0,
{
}

/// What is answered is kept with the revisions that it is about. A failure is kept as one line that
/// tells of it, at most five hundred and twelve characters long after its opening words, and marks
/// its pane. Other panes stay as they are.
pub proof fn law_answers_are_kept(
    panes: PanesModel,
    key: PaneKeyModel,
    view: ViewModel,
    contents: Map<u64, RecordModel>,
    outcome: Result<LinesModel, Seq<char>>,
)
    ensures
        ({
            let after = panes_with(panes, key, view, contents, outcome);
            &&& after.cache.contains_key(key)
            &&& after.cache[key].view_revision == view.revision
            &&& after.cache[key].content == document_stamp(view, contents).0
            &&& after.cache[key].content_revision == document_stamp(view, contents).1
            &&& outcome matches Ok(lines) ==> after.cache[key].lines == lines && after.faulted
                == panes.faulted
            &&& outcome matches Err(message) ==> {
                let lines = after.cache[key].lines;
                &&& after.faulted.contains(key)
                &&& lines.base_face is None
                &&& lines.rows.len() == 1 && lines.rows[0].len() == 1
                &&& lines.rows[0][0].face is None
                &&& message.len() <= 512 ==> lines.rows[0][0].text == "extension fault: "@
                    + message
                &&& message.len() > 512 ==> lines.rows[0][0].text == "extension fault: "@
                    + message.take(512)
            }
            &&& forall|other: PaneKeyModel|
                other != key ==> {
                    &&& #[trigger] after.cache.contains_key(other) == panes.cache.contains_key(
                        other,
                    )
                    &&& after.cache[other] == panes.cache[other]
                    &&& after.faulted.contains(other) == panes.faulted.contains(other)
                }
        }),
{
}

/// An answer counts as what its check says: lines that do not pass it are a failure with the
/// message of the check.
pub proof fn law_lines_must_pass_their_check(lines: LinesModel, message: Seq<char>)
    ensures
        outcome_of(Ok(lines), Ok(())) == Ok::<LinesModel, Seq<char>>(lines),
        outcome_of(Ok(lines), Err(message)) == Err::<LinesModel, Seq<char>>(message),
        outcome_of(Err(message), Ok(())) == Err::<LinesModel, Seq<char>>(message),
        forall|found: Result<(), Seq<char>>| #[trigger]
            outcome_of(Err(message), found) == Err::<LinesModel, Seq<char>>(message),
{
}

/// A visit is of a pane of an extension, next to a view of the definition that the extension is
/// for, that has a space for it.
pub open spec fn is_due(
    visit: Visit,
    definitions: Seq<ExtensionModel>,
    views: Map<u64, ViewModel>,
    ids: Seq<u64>,
    pane: int,
) -> bool {
    &&& 0 <= visit.index < definitions.len()
    &&& ids.contains(visit.key.view)
    &&& views[visit.key.view].definition == definitions[visit.index].target
    &&& visit.key.extension == definitions[visit.index].id
    &&& 0 <= pane < definitions[visit.index].panes.len()
    &&& visit.key.pane == definitions[visit.index].panes[pane].key
    &&& visit.full_key == definitions[visit.index].panes[pane].full_key
    &&& space_for(views[visit.key.view].panes, visit.full_key) is Some
}

proof fn lemma_pane_visits(
    index: int,
    extension: Seq<char>,
    panes: Seq<PaneModel>,
    id: u64,
    view: ViewModel,
)
    ensures
        forall|visit: Visit|
            #![trigger pane_visits(index, extension, panes, id, view).contains(visit)]
            pane_visits(index, extension, panes, id, view).contains(visit) <==> {
                &&& visit.index == index
                &&& visit.key.extension == extension
                &&& visit.key.view == id
                &&& space_for(view.panes, visit.full_key) is Some
                &&& exists|k: int|
                    0 <= k < panes.len() && (#[trigger] panes[k]).key == visit.key.pane
                        && panes[k].full_key == visit.full_key
            },
    decreases panes.len(),
{
    broadcast use vstd::seq_lib::group_seq_properties;

    if panes.len() > 0 {
        let fewer = panes.drop_last();
        lemma_pane_visits(index, extension, fewer, id, view);
        let n = panes.len() - 1;
        let all = pane_visits(index, extension, panes, id, view);
        let rest = pane_visits(index, extension, fewer, id, view);
        assert forall|visit: Visit|
            #![trigger all.contains(visit)]
            all.contains(visit) <==> {
                &&& visit.index == index
                &&& visit.key.extension == extension
                &&& visit.key.view == id
                &&& space_for(view.panes, visit.full_key) is Some
                &&& exists|k: int|
                    0 <= k < panes.len() && (#[trigger] panes[k]).key == visit.key.pane
                        && panes[k].full_key == visit.full_key
            } by {
            if all.contains(visit) {
                if rest.contains(visit) {
                    let k = choose|k: int|
                        0 <= k < fewer.len() && (#[trigger] fewer[k]).key == visit.key.pane
                            && fewer[k].full_key == visit.full_key;
                    assert(panes[k] == fewer[k]);
                } else {
                    assert(panes[n].key == visit.key.pane);
                }
            } else if visit.index == index && visit.key.extension == extension && visit.key.view
                == id && space_for(view.panes, visit.full_key) is Some && exists|k: int|
                0 <= k < panes.len() && (#[trigger] panes[k]).key == visit.key.pane
                    && panes[k].full_key == visit.full_key {
                let k = choose|k: int|
                    0 <= k < panes.len() && (#[trigger] panes[k]).key == visit.key.pane
                        && panes[k].full_key == visit.full_key;
                if k < n {
                    assert(fewer[k] == panes[k]);
                    assert(rest.contains(visit));
                } else {
                    assert(all.last() == visit);
                    assert(all.contains(all.last()));
                }
            }
        }
    }
}

proof fn lemma_view_visits(
    index: int,
    definition: ExtensionModel,
    views: Map<u64, ViewModel>,
    ids: Seq<u64>,
    visit: Visit,
)
    ensures
        view_visits(index, definition, views, ids).contains(visit) <==> {
            &&& visit.index == index
            &&& visit.key.extension == definition.id
            &&& ids.contains(visit.key.view)
            &&& views[visit.key.view].definition == definition.target
            &&& space_for(views[visit.key.view].panes, visit.full_key) is Some
            &&& exists|k: int|
                0 <= k < definition.panes.len() && (#[trigger] definition.panes[k]).key
                    == visit.key.pane && definition.panes[k].full_key == visit.full_key
        },
    decreases ids.len(),
{
    broadcast use vstd::seq_lib::group_seq_properties;

    if ids.len() > 0 {
        let fewer = ids.drop_last();
        lemma_view_visits(index, definition, views, fewer, visit);
        lemma_pane_visits(
            index,
            definition.id,
            definition.panes,
            ids.last(),
            views[ids.last()],
        );
        assert(ids =~= fewer.push(ids.last()));
    }
}

/// The panes that are gone through are exactly those of the extensions, next to every view of the
/// definition that each is for, that have a space there.
pub proof fn law_every_pane_is_visited(
    definitions: Seq<ExtensionModel>,
    views: Map<u64, ViewModel>,
    ids: Seq<u64>,
    visit: Visit,
)
    ensures
        all_visits(definitions, views, ids).contains(visit) <==> exists|pane: int| #[trigger]
            is_due(visit, definitions, views, ids, pane),
    decreases definitions.len(),
{
    broadcast use vstd::seq_lib::group_seq_properties;

    if definitions.len() > 0 {
        let fewer = definitions.drop_last();
        let n = definitions.len() - 1;
        law_every_pane_is_visited(fewer, views, ids, visit);
        lemma_view_visits(n, definitions.last(), views, ids, visit);
        if all_visits(definitions, views, ids).contains(visit) {
            if all_visits(fewer, views, ids).contains(visit) {
                let pane = choose|pane: int| #[trigger] is_due(visit, fewer, views, ids, pane);
                assert(is_due(visit, definitions, views, ids, pane));
            } else {
                let last = definitions.last();
                let k = choose|k: int|
                    0 <= k < last.panes.len() && (#[trigger] last.panes[k]).key == visit.key.pane
                        && last.panes[k].full_key == visit.full_key;
                assert(is_due(visit, definitions, views, ids, k));
            }
        }
        if exists|pane: int| #[trigger] is_due(visit, definitions, views, ids, pane) {
            let pane = choose|pane: int| #[trigger] is_due(visit, definitions, views, ids, pane);
            if visit.index < n {
                assert(fewer[visit.index] == definitions[visit.index]);
                assert(is_due(visit, fewer, views, ids, pane));
            } else {
                assert(definitions.last().panes[pane].key == visit.key.pane);
            }
        }
    }
}

/// What is shown is, pane by pane, what is kept of those that are gone through: next to which view,
/// under which key, about which content, and which lines.
pub proof fn law_kept_lines_are_shown(
    visits: Seq<Visit>,
    cache: Map<PaneKeyModel, CacheModel>,
)
    ensures
        shown_panes(visits, cache) == visits.filter(
            |visit: Visit| cache.contains_key(visit.key),
        ).map_values(
            |visit: Visit|
                ShownPane {
                    view: ViewId(visit.key.view),
                    key: visit.full_key,
                    content: cache[visit.key].content,
                    lines: cache[visit.key].lines,
                },
        ),
    decreases visits.len(),
{
    reveal(Seq::filter);
    if visits.len() > 0 {
        law_kept_lines_are_shown(visits.drop_last(), cache);
    }
}

/// What is kept after a refresh is what was kept of panes that were gone through.
pub proof fn law_other_panes_are_forgotten(
    panes: PanesModel,
    visits: Seq<Visit>,
    key: PaneKeyModel,
    i: int,
)
    ensures
        0 <= i < visits.len() && visits[i].key == key ==> {
            &&& kept_for(panes, visits).cache.contains_key(key) == panes.cache.contains_key(key)
            &&& panes.cache.contains_key(key) ==> kept_for(panes, visits).cache[key]
                == panes.cache[key]
            &&& kept_for(panes, visits).faulted.contains(key) == panes.faulted.contains(key)
        },
        (forall|j: int| 0 <= j < visits.len() ==> (#[trigger] visits[j]).key != key) ==> {
            &&& !kept_for(panes, visits).cache.contains_key(key)
            &&& !kept_for(panes, visits).faulted.contains(key)
        },
{
    if 0 <= i < visits.len() && visits[i].key == key {
        assert(is_visited(visits, key));
    }
}

proof fn lemma_extensions_refusal(
    definitions: Seq<ExtensionModel>,
    catalog: Catalog,
    i: int,
)
    requires
        0 <= i,
    ensures
        extensions_refusal(definitions, catalog, i) is None <==> forall|k: int|
            #![trigger definitions[k]]
            i <= k < definitions.len() ==> catalog.contains_key(definitions[k].target) && forall|
                j: int,
            |
                0 <= j < k ==> (#[trigger] definitions[j]).id != definitions[k].id,
        extensions_refusal(definitions, catalog, i) matches Some(ExtensionFault::Duplicate(id))
            ==> exists|j: int, k: int|
            0 <= j < k < definitions.len() && (#[trigger] definitions[j]).id == id && (
            #[trigger] definitions[k]).id == id,
        extensions_refusal(definitions, catalog, i) matches Some(
            ExtensionFault::UnknownTarget { extension, target },
        ) ==> !catalog.contains_key(target) && exists|k: int|
            0 <= k < definitions.len() && (#[trigger] definitions[k]).id == extension
                && definitions[k].target == target,
    decreases definitions.len() - i,
{
    if i < definitions.len() {
        lemma_extensions_refusal(definitions, catalog, i + 1);
        assert(definitions[i].id == definitions[i].id);
    }
}

/// Extensions are taken up exactly where their names differ and the definitions that they are for
/// are known. What is told otherwise is the name that occurs twice, or what is not known.
pub proof fn law_extensions_must_fit(
    definitions: Seq<ExtensionModel>,
    catalog: Catalog,
)
    ensures
        extensions_refusal(definitions, catalog, 0) is None <==> {
            &&& forall|j: int, k: int|
                0 <= j < k < definitions.len() ==> (#[trigger] definitions[j]).id != (
                #[trigger] definitions[k]).id
            &&& forall|k: int|
                0 <= k < definitions.len() ==> catalog.contains_key(
                    (#[trigger] definitions[k]).target,
                )
        },
        extensions_refusal(definitions, catalog, 0) matches Some(ExtensionFault::Duplicate(id))
            ==> exists|j: int, k: int|
            0 <= j < k < definitions.len() && (#[trigger] definitions[j]).id == id && (
            #[trigger] definitions[k]).id == id,
        extensions_refusal(definitions, catalog, 0) matches Some(
            ExtensionFault::UnknownTarget { extension, target },
        ) ==> !catalog.contains_key(target) && exists|k: int|
            0 <= k < definitions.len() && (#[trigger] definitions[k]).id == extension
                && definitions[k].target == target,
{
    lemma_extensions_refusal(definitions, catalog, 0);
}

proof fn lemma_kept_together<E>(
    all: Seq<ExtensionModel>,
    owner: Seq<char>,
    definitions: Seq<ExtensionModel>,
    extensions: Seq<E>,
)
    requires
        definitions.len() == extensions.len(),
    ensures
        kept_extensions(all, owner, definitions, extensions).len() == without_owner(
            all,
            owner,
            definitions,
        ).len(),
        without_owner(all, owner, definitions) == definitions.filter(
            |definition: ExtensionModel| !goes_with_owner(all, owner, definition.id),
        ),
        forall|k: int|
            #![trigger kept_extensions(all, owner, definitions, extensions)[k]]
            0 <= k < kept_extensions(all, owner, definitions, extensions).len() ==> exists|i: int|
                0 <= i < definitions.len() && kept_extensions(
                    all,
                    owner,
                    definitions,
                    extensions,
                )[k] == #[trigger] extensions[i] && without_owner(all, owner, definitions)[k]
                    == definitions[i],
    decreases definitions.len(),
{
    reveal(Seq::filter);
    if definitions.len() > 0 {
        let fewer = definitions.drop_last();
        let shorter = extensions.drop_last();
        lemma_kept_together(all, owner, fewer, shorter);
        let kept = kept_extensions(all, owner, definitions, extensions);
        assert forall|k: int| #![trigger kept[k]] 0 <= k < kept.len() implies exists|i: int|
            0 <= i < definitions.len() && kept[k] == #[trigger] extensions[i] && without_owner(
                all,
                owner,
                definitions,
            )[k] == definitions[i] by {
            let earlier = kept_extensions(all, owner, fewer, shorter);
            if k < earlier.len() {
                assert(earlier[k] == kept[k]);
                let i = choose|i: int|
                    0 <= i < fewer.len() && earlier[k] == #[trigger] shorter[i] && without_owner(
                        all,
                        owner,
                        fewer,
                    )[k] == fewer[i];
                assert(extensions[i] == shorter[i]);
                assert(definitions[i] == fewer[i]);
            } else {
                assert(extensions[extensions.len() - 1] == kept[k]);
            }
        }
    }
}

/// When an owner goes, exactly the extensions go that have the name of one of its own, and the
/// others stay in their order, each with its definition.
pub proof fn law_owner_takes_its_extensions<E>(
    definitions: Seq<ExtensionModel>,
    extensions: Seq<E>,
    owner: Seq<char>,
)
    requires
        definitions.len() == extensions.len(),
    ensures
        without_owner(definitions, owner, definitions) == definitions.filter(
            |definition: ExtensionModel|
                !exists|i: int|
                    0 <= i < definitions.len() && (#[trigger] definitions[i]).owner == owner
                        && definitions[i].id == definition.id,
        ),
        kept_extensions(definitions, owner, definitions, extensions).len() == without_owner(
            definitions,
            owner,
            definitions,
        ).len(),
        forall|k: int|
            #![trigger kept_extensions(definitions, owner, definitions, extensions)[k]]
            0 <= k < kept_extensions(definitions, owner, definitions, extensions).len()
                ==> exists|i: int|
                0 <= i < definitions.len() && kept_extensions(
                    definitions,
                    owner,
                    definitions,
                    extensions,
                )[k] == #[trigger] extensions[i] && without_owner(
                    definitions,
                    owner,
                    definitions,
                )[k] == definitions[i],
{
    lemma_kept_together(definitions, owner, definitions, extensions);
    let stays = |definition: ExtensionModel| !goes_with_owner(definitions, owner, definition.id);
    let other = |definition: ExtensionModel|
        !exists|i: int|
            0 <= i < definitions.len() && (#[trigger] definitions[i]).owner == owner
                && definitions[i].id == definition.id;
    assert(stays =~= other);
}

proof fn lemma_view_installs(
    definition: ExtensionModel,
    views: Map<u64, ViewModel>,
    ids: Seq<u64>,
    install: Install,
)
    ensures
        view_installs(definition, views, ids).contains(install) <==> {
            &&& ids.contains(install.view.0)
            &&& views[install.view.0].definition == definition.target
            &&& exists|k: int|
                #![trigger definition.panes[k]]
                0 <= k < definition.panes.len() && definition.panes[k].full_key == install.key
                    && definition.panes[k].side == install.side && definition.panes[k].size
                    == install.size
        },
    decreases ids.len(),
{
    broadcast use vstd::seq_lib::group_seq_properties;

    if ids.len() > 0 {
        let fewer = ids.drop_last();
        lemma_view_installs(definition, views, fewer, install);
        assert(ids =~= fewer.push(ids.last()));
        let here = pane_installs(ids.last(), definition.panes);
        if here.contains(install) {
            let k = choose|k: int| 0 <= k < here.len() && here[k] == install;
            assert(definition.panes[k].full_key == install.key);
        }
        if install.view.0 == ids.last() && exists|k: int|
            #![trigger definition.panes[k]]
            0 <= k < definition.panes.len() && definition.panes[k].full_key == install.key
                && definition.panes[k].side == install.side && definition.panes[k].size
                == install.size {
            let k = choose|k: int|
                #![trigger definition.panes[k]]
                0 <= k < definition.panes.len() && definition.panes[k].full_key == install.key
                    && definition.panes[k].side == install.side && definition.panes[k].size
                    == install.size;
            assert(here[k] == install);
            assert(here.contains(install));
        }
    }
}

/// A pane is to be shown next to a view exactly where an extension for the definition of that view
/// has it, under its key, on its side and in its size.
pub proof fn law_every_pane_is_installed(
    definitions: Seq<ExtensionModel>,
    views: Map<u64, ViewModel>,
    ids: Seq<u64>,
    install: Install,
)
    ensures
        all_installs(definitions, views, ids).contains(install) <==> ids.contains(install.view.0)
            && exists|i: int, k: int|
            #![trigger definitions[i].panes[k]]
            {
                &&& 0 <= i < definitions.len()
                &&& views[install.view.0].definition == definitions[i].target
                &&& 0 <= k < definitions[i].panes.len()
                &&& definitions[i].panes[k].full_key == install.key
                &&& definitions[i].panes[k].side == install.side
                &&& definitions[i].panes[k].size == install.size
            },
    decreases definitions.len(),
{
    broadcast use vstd::seq_lib::group_seq_properties;

    if definitions.len() > 0 {
        let fewer = definitions.drop_last();
        let n = definitions.len() - 1;
        law_every_pane_is_installed(fewer, views, ids, install);
        lemma_view_installs(definitions.last(), views, ids, install);
        if all_installs(definitions, views, ids).contains(install) {
            if all_installs(fewer, views, ids).contains(install) {
                let (i, k) = choose|i: int, k: int|
                    #![trigger fewer[i].panes[k]]
                    {
                        &&& 0 <= i < fewer.len()
                        &&& views[install.view.0].definition == fewer[i].target
                        &&& 0 <= k < fewer[i].panes.len()
                        &&& fewer[i].panes[k].full_key == install.key
                        &&& fewer[i].panes[k].side == install.side
                        &&& fewer[i].panes[k].size == install.size
                    };
                assert(definitions[i].panes[k] == fewer[i].panes[k]);
            } else {
                let last = definitions.last();
                let k = choose|k: int|
                    #![trigger last.panes[k]]
                    0 <= k < last.panes.len() && last.panes[k].full_key == install.key
                        && last.panes[k].side == install.side && last.panes[k].size
                        == install.size;
                assert(definitions[n].panes[k] == last.panes[k]);
            }
        }
        if exists|i: int, k: int|
            #![trigger definitions[i].panes[k]]
            {
                &&& 0 <= i < definitions.len()
                &&& views[install.view.0].definition == definitions[i].target
                &&& 0 <= k < definitions[i].panes.len()
                &&& definitions[i].panes[k].full_key == install.key
                &&& definitions[i].panes[k].side == install.side
                &&& definitions[i].panes[k].size == install.size
            } {
            let (i, k) = choose|i: int, k: int|
                #![trigger definitions[i].panes[k]]
                {
                    &&& 0 <= i < definitions.len()
                    &&& views[install.view.0].definition == definitions[i].target
                    &&& 0 <= k < definitions[i].panes.len()
                    &&& definitions[i].panes[k].full_key == install.key
                    &&& definitions[i].panes[k].side == install.side
                    &&& definitions[i].panes[k].size == install.size
                };
            if i < n {
                assert(fewer[i].panes[k] == definitions[i].panes[k]);
            } else {
                assert(definitions.last().panes[k] == definitions[i].panes[k]);
            }
        }
    }
}

/// A pane that is shown anew has a space of its own that its view uses under its key, next to the
/// space through which the view is reached; the focus and the other views stay.
pub proof fn law_installed_pane_has_its_space(
    before: WorkspaceModel,
    after: WorkspaceModel,
    said: Seq<Exchange>,
    install: Install,
    space: SpaceId,
)
    requires
        shown_in(before, after, said, install, space),
        before.views.contains_key(install.view.0),
    ensures
        key_for(after.views[install.view.0].panes, space) == Some(install.key),
        said.len() == 2,
        said[0].request matches SceneRequest::Split { target, view, focusable, .. }
            && replacement_space(before, install.view.0) == Some(target) && view == install.view
            && !focusable,
        said[1].request == (SceneRequest::Size {
            target: space,
            sizing: Sizing::Fixed(install.size as i32),
        }),
        after.views.dom() == before.views.dom(),
        forall|other: u64|
            #![trigger after.views[other]]
            other != install.view.0 ==> after.views[other] == before.views[other],
        after.focused == before.focused,
        after.scene_revision == (before.scene_revision + 1) as u64,
        after.next_view_id == before.next_view_id,
{
    law_pane_is_asked_for_on_its_side(
        install.view,
        replacement_space(before, install.view.0)->0,
        install.side,
        install.size,
        said,
        space,
    );
    assert(after.views.dom() =~= before.views.dom());
}

/// Panes are gone through extension by extension, view by view and in the order in which an
/// extension has them.
pub proof fn law_visits_go_in_order(
    definitions: Seq<ExtensionModel>,
    definition: ExtensionModel,
    views: Map<u64, ViewModel>,
    ids: Seq<u64>,
    id: u64,
    index: int,
)
    ensures
        all_visits(definitions.push(definition), views, ids) == all_visits(definitions, views, ids)
            + view_visits(definitions.len() as int, definition, views, ids),
        views[id].definition != definition.target ==> view_visits(
            index,
            definition,
            views,
            ids.push(id),
        ) == view_visits(index, definition, views, ids),
        views[id].definition == definition.target ==> view_visits(
            index,
            definition,
            views,
            ids.push(id),
        ) == view_visits(index, definition, views, ids) + definition.panes.filter(
            |pane: PaneModel| space_for(views[id].panes, pane.full_key) is Some,
        ).map_values(
            |pane: PaneModel|
                Visit {
                    index,
                    key: PaneKeyModel { extension: definition.id, view: id, pane: pane.key },
                    full_key: pane.full_key,
                },
        ),
{
    assert(definitions.push(definition).drop_last() =~= definitions);
    assert(ids.push(id).drop_last() =~= ids);
    lemma_pane_visits_in_order(index, definition.id, definition.panes, id, views[id]);
}

proof fn lemma_pane_visits_in_order(
    index: int,
    extension: Seq<char>,
    panes: Seq<PaneModel>,
    id: u64,
    view: ViewModel,
)
    ensures
        pane_visits(index, extension, panes, id, view) == panes.filter(
            |pane: PaneModel| space_for(view.panes, pane.full_key) is Some,
        ).map_values(
            |pane: PaneModel|
                Visit {
                    index,
                    key: PaneKeyModel { extension, view: id, pane: pane.key },
                    full_key: pane.full_key,
                },
        ),
    decreases panes.len(),
{
    reveal(Seq::filter);
    if panes.len() > 0 {
        lemma_pane_visits_in_order(index, extension, panes.drop_last(), id, view);
    }
}

/// Panes are to be shown extension by extension, view by view and in the order in which an
/// extension has them.
pub proof fn law_installs_go_in_order(
    definitions: Seq<ExtensionModel>,
    definition: ExtensionModel,
    views: Map<u64, ViewModel>,
    ids: Seq<u64>,
    id: u64,
    k: int,
)
    ensures
        all_installs(definitions.push(definition), views, ids) == all_installs(
            definitions,
            views,
            ids,
        ) + view_installs(definition, views, ids),
        views[id].definition != definition.target ==> view_installs(
            definition,
            views,
            ids.push(id),
        ) == view_installs(definition, views, ids),
        views[id].definition == definition.target ==> {
            let before = view_installs(definition, views, ids);
            let after = view_installs(definition, views, ids.push(id));
            &&& after.len() == before.len() + definition.panes.len()
            &&& after.take(before.len() as int) == before
            &&& 0 <= k < definition.panes.len() ==> {
                let install = after[before.len() + k];
                &&& install.view.0 == id
                &&& install.key == definition.panes[k].full_key
                &&& install.side == definition.panes[k].side
                &&& install.size == definition.panes[k].size
            }
        },
{
    assert(definitions.push(definition).drop_last() =~= definitions);
    assert(ids.push(id).drop_last() =~= ids);
    let before = view_installs(definition, views, ids);
    let after = view_installs(definition, views, ids.push(id));
    if views[id].definition == definition.target {
        assert(after == before + pane_installs(id, definition.panes));
        assert(after.take(before.len() as int) =~= before);
    }
}

/// An extension is asked about a pane that needs lines with the key that it gave the pane and with
/// what is told of its view; what it answers counts as its check says. No other extension is asked.
/// Where nothing can be told of the view, none is asked, and the reason is the failure.
pub proof fn law_extension_is_asked_about_its_pane<E: ViewExtension>(
    before: Seq<E>,
    after: Seq<E>,
    panes: PanesModel,
    visit: Visit,
    around: Surroundings,
    outcome: Result<LinesModel, Seq<char>>,
)
    requires
        answered(before, after, panes, visit, around, outcome),
        needs_lines(panes, visit.key, around),
        0 <= visit.index < before.len(),
    ensures
        told_of(visit.key, around) matches Ok(context) ==> exists|
            lines: Result<LinesModel, Seq<char>>,
            found: Result<(), Seq<char>>,
        |
            #![trigger gave(
                before[visit.index],
                visit.key.pane,
                context,
                after[visit.index],
                lines,
                found,
            )]
            {
                &&& before[visit.index].presents(
                    visit.key.pane,
                    context,
                    after[visit.index],
                    lines,
                )
                &&& lines matches Ok(given) ==> after[visit.index].checks(given, found)
                &&& lines matches Err(message) ==> outcome == Err::<LinesModel, Seq<char>>(message)
                &&& lines matches Ok(given) ==> (found is Ok ==> outcome == Ok::<
                    LinesModel,
                    Seq<char>,
                >(given))
                &&& lines is Ok ==> (found matches Err(message) ==> outcome == Err::<
                    LinesModel,
                    Seq<char>,
                >(message))
            },
        told_of(visit.key, around) matches Err(message) ==> outcome == Err::<
            LinesModel,
            Seq<char>,
        >(message) && after == before,
        after.len() == before.len(),
        forall|k: int|
            0 <= k < before.len() && k != visit.index ==> #[trigger] after[k] == before[k],
{
    if let Ok(context) = told_of(visit.key, around) {
        let (extension, lines, found) = choose|
            extension: E,
            lines: Result<LinesModel, Seq<char>>,
            found: Result<(), Seq<char>>,
        |
            #![trigger gave(before[visit.index], visit.key.pane, context, extension, lines, found)]
            gave(before[visit.index], visit.key.pane, context, extension, lines, found)
                && outcome == outcome_of(lines, found) && after == before.update(
                visit.index,
                extension,
            );
        assert(after[visit.index] == extension);
        assert(gave(
            before[visit.index],
            visit.key.pane,
            context,
            after[visit.index],
            lines,
            found,
        ));
    }
}

/// A refused extension is told by its name, and what it is for where that is not known.
pub proof fn law_extension_faults_are_told(
    error: ViewExtensionRegistrationError,
    extension: Seq<char>,
    target: Seq<char>,
)
    ensures
        tells_extension_fault(error, ExtensionFault::Duplicate(extension)) ==> (error
            matches ViewExtensionRegistrationError::Duplicate(told) && told@ == extension),
        tells_extension_fault(error, ExtensionFault::UnknownTarget { extension, target }) ==> (error
            matches ViewExtensionRegistrationError::UnknownTarget {
            extension: told,
            target: told_target,
        } && told@ == extension && told_target.name() == target),
{
}

} // verus!
