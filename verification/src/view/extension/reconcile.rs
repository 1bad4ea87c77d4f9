//! Shows the panes of extensions next to the views that they are for.

use crate::protocol::{SpaceId, ViewId};
use crate::text::same_text;
use crate::view::extension::definition::{
    panes_of, ExtensionModel, PaneModel, ViewExtensionPaneSide,
};
use crate::view::extension::store::{
    lists_views, ViewExtension, ViewExtensionRegistrationError, ViewExtensionStore,
};
use crate::view::forest::numbers_of;
use crate::view::instance::ViewModel;
use crate::view::layout::LayoutError;
use crate::view::panes::space_for;
use crate::view::scene::{Exchange, SceneBuilder};
use crate::view::soundness::{scene_of, WorkspaceModel};
use crate::view::workspace::extension_panes::{
    cannot_install, is_reserved, pane_said, tells_no_anchor, tells_reserved, with_extension_pane,
};
use crate::view::workspace::queries::replacement_space;
use crate::view::workspace::{
    group_talk, lemma_may_say_nothing, lemma_nothing_said_yet, lemma_said, ViewWorkspace,
};
use vstd::prelude::*;
use vstd::view::View as _;

verus! {

broadcast use group_talk;

/// A pane to show next to a view.
pub struct Install {
    pub view: ViewId,
    pub key: Seq<char>,
    pub side: ViewExtensionPaneSide,
    pub size: u16,
}

/// The panes to show next to a view.
pub open spec fn pane_installs(id: u64, panes: Seq<PaneModel>) -> Seq<Install> {
    panes.map_values(
        |pane: PaneModel|
            Install { view: ViewId(id), key: pane.full_key, side: pane.side, size: pane.size },
    )
}

/// The panes of an extension to show next to some views.
pub open spec fn view_installs(
    definition: ExtensionModel,
    views: Map<u64, ViewModel>,
    ids: Seq<u64>,
) -> Seq<Install>
    decreases ids.len(),
{
    if ids.len() == 0 {
        Seq::empty()
    } else {
        let rest = view_installs(definition, views, ids.drop_last());
        if views[ids.last()].definition == definition.target {
            rest + pane_installs(ids.last(), definition.panes)
        } else {
            rest
        }
    }
}

/// The panes of extensions to show next to some views.
pub open spec fn all_installs(
    definitions: Seq<ExtensionModel>,
    views: Map<u64, ViewModel>,
    ids: Seq<u64>,
) -> Seq<Install>
    decreases definitions.len(),
{
    if definitions.len() == 0 {
        Seq::empty()
    } else {
        all_installs(definitions.drop_last(), views, ids) + view_installs(
            definitions.last(),
            views,
            ids,
        )
    }
}

/// A pane has been shown in a space next to a view.
pub open spec fn shown_in(
    before: WorkspaceModel,
    after: WorkspaceModel,
    said: Seq<Exchange>,
    install: Install,
    space: SpaceId,
) -> bool {
    let id = install.view.0;
    &&& replacement_space(before, id) is Some
    &&& after == with_extension_pane(
        before,
        install.view,
        install.key,
        space,
        scene_of(after),
    )
    &&& pane_said(
        install.view,
        replacement_space(before, id)->0,
        install.side,
        install.size,
        said,
        space,
    )
}

/// A pane is shown next to a view, if it was not before.
pub open spec fn was_installed(
    before: WorkspaceModel,
    after: WorkspaceModel,
    said: Seq<Exchange>,
    install: Install,
) -> bool {
    &&& before.views.contains_key(install.view.0)
    &&& !is_reserved(install.key)
    &&& if space_for(before.views[install.view.0].panes, install.key) is Some {
        after == before && said == Seq::<Exchange>::empty()
    } else {
        exists|space: SpaceId| #[trigger] shown_in(before, after, said, install, space)
    }
}

/// One of several panes is shown: what came before it.
pub struct InstallStep {
    pub middle: WorkspaceModel,
    pub first: Seq<Exchange>,
    pub last: Seq<Exchange>,
}

/// Panes are shown, one after the other.
pub open spec fn installed_in_turn(
    before: WorkspaceModel,
    after: WorkspaceModel,
    said: Seq<Exchange>,
    installs: Seq<Install>,
) -> bool
    decreases installs.len(),
{
    if installs.len() == 0 {
        after == before && said == Seq::<Exchange>::empty()
    } else {
        exists|step: InstallStep|
            #![trigger was_installed(step.middle, after, step.last, installs.last())]
            installed_in_turn(before, step.middle, step.first, installs.drop_last())
                && was_installed(step.middle, after, step.last, installs.last()) && said
                == step.first + step.last
    }
}

/// The error says why a pane cannot be shown, with what was said to the builder for it.
pub open spec fn install_fails(
    workspace: WorkspaceModel,
    install: Install,
    said: Seq<Exchange>,
    error: LayoutError,
) -> bool {
    if is_reserved(install.key) {
        tells_reserved(error, install.key)
    } else {
        &&& space_for(workspace.views[install.view.0].panes, install.key) is None
        &&& match replacement_space(workspace, install.view.0) {
            None => tells_no_anchor(error, install.view, install.key),
            Some(anchor) => cannot_install(
                workspace,
                install.view,
                install.key,
                anchor,
                install.side,
                install.size,
                said,
                error,
            ),
        }
    }
}

/// A pane to show next to a view.
struct InstallRecord {
    view: ViewId,
    key: String,
    side: ViewExtensionPaneSide,
    size: u16,
}

impl InstallRecord {
    spec fn model(self) -> Install {
        Install { view: self.view, key: self.key@, side: self.side, size: self.size }
    }
}

/// The panes to show.
spec fn installs_of(records: Seq<InstallRecord>) -> Seq<Install> {
    records.map_values(|record: InstallRecord| record.model())
}

/// The views of a workspace have room for the panes of extensions.
pub open spec fn has_room(
    definitions: Seq<ExtensionModel>,
    workspace: WorkspaceModel,
    ids: Seq<u64>,
) -> bool {
    workspace.scene_revision + all_installs(definitions, workspace.views, ids).len() < u64::MAX
}

/// The panes were shown up to one that could not be.
pub open spec fn installed_up_to(
    before: WorkspaceModel,
    after: WorkspaceModel,
    said: Seq<Exchange>,
    installs: Seq<Install>,
    count: int,
    last: Seq<Exchange>,
    error: LayoutError,
) -> bool {
    &&& 0 <= count < installs.len()
    &&& installed_in_turn(before, after, said, installs.take(count))
    &&& install_fails(after, installs[count], last, error)
}

impl<E: ViewExtension> ViewExtensionStore<E> {
    /// The panes to show next to the views of a workspace.
    fn install_records<B: SceneBuilder>(&self, workspace: &ViewWorkspace<B>) -> (records: Vec<
        InstallRecord,
    >)
        ensures
            exists|ids: Seq<u64>| #[trigger]
                lists_views(workspace.model().views, ids) && installs_of(records@) == all_installs(
                    self.definitions(),
                    workspace.model().views,
                    ids,
                ),
            forall|i: int|
                0 <= i < records@.len() ==> workspace.model().views.contains_key(
                    (#[trigger] records@[i]).view.0,
                ),
    {
        let ghost views = workspace.model().views;
        let ghost all = self.definitions();
        let list = workspace.views();
        let ghost ids = numbers_of(list@);
        assert(lists_views(views, ids));
        let extensions = self.extension_definitions();
        let mut records: Vec<InstallRecord> = Vec::new();
        let mut e: usize = 0;
        assert(installs_of(records@) =~= all_installs(all.take(0), views, ids));
        while e < extensions.len()
            invariant
                e <= extensions.len(),
                all.len() == extensions@.len(),
                forall|i: int|
                    0 <= i < extensions@.len() ==> (#[trigger] extensions@[i]).model() == all[i],
                views == workspace.model().views,
                ids == numbers_of(list@),
                lists_views(views, ids),
                installs_of(records@) == all_installs(all.take(e as int), views, ids),
                forall|i: int|
                    0 <= i < records@.len() ==> views.contains_key((#[trigger] records@[i]).view.0),
            decreases extensions.len() - e,
        {
            let definition = extensions[e];
            let ghost model = definition.model();
            let ghost before = installs_of(records@);
            assert(all[e as int] == model);
            assert(all.take(e + 1).drop_last() =~= all.take(e as int));
            assert(all.take(e + 1).last() == model);
            let mut v: usize = 0;
            assert(before =~= before + view_installs(model, views, ids.take(0)));
            while v < list.len()
                invariant
                    v <= list.len(),
                    model == definition.model(),
                    views == workspace.model().views,
                    ids == numbers_of(list@),
                    lists_views(views, ids),
                    installs_of(records@) == before + view_installs(
                        model,
                        views,
                        ids.take(v as int),
                    ),
                    forall|i: int|
                        0 <= i < records@.len() ==> views.contains_key(
                            (#[trigger] records@[i]).view.0,
                        ),
                decreases list.len() - v,
            {
                let id = list[v];
                assert(ids[v as int] == id.0);
                assert(ids.contains(id.0));
                assert(views.contains_key(id.0));
                assert(ids.take(v + 1).drop_last() =~= ids.take(v as int));
                if let Some(data) = workspace.view(id) {
                    if same_text(data.definition().as_str(), definition.target().as_str()) {
                        let ghost here = installs_of(records@);
                        let panes = definition.panes();
                        let ghost models = panes_of(panes@);
                        let mut p: usize = 0;
                        assert(here =~= here + pane_installs(id.0, models.take(0)));
                        while p < panes.len()
                            invariant
                                p <= panes.len(),
                                models == panes_of(panes@),
                                views.contains_key(id.0),
                                installs_of(records@) == here + pane_installs(
                                    id.0,
                                    models.take(p as int),
                                ),
                                forall|i: int|
                                    0 <= i < records@.len() ==> views.contains_key(
                                        (#[trigger] records@[i]).view.0,
                                    ),
                            decreases panes.len() - p,
                        {
                            let pane = &panes[p];
                            assert(models[p as int] == pane.model());
                            let ghost so_far = records@;
                            let record = InstallRecord {
                                view: id,
                                key: pane.full_key.clone(),
                                side: pane.side,
                                size: pane.size,
                            };
                            let ghost install = record.model();
                            records.push(record);
                            assert(installs_of(records@) =~= installs_of(so_far).push(install));
                            assert(pane_installs(id.0, models.take(p + 1)) =~= pane_installs(
                                id.0,
                                models.take(p as int),
                            ).push(install));
                            assert(installs_of(records@) =~= here + pane_installs(
                                id.0,
                                models.take(p + 1),
                            ));
                            p = p + 1;
                        }
                        assert(models.take(p as int) =~= models);
                        assert(installs_of(records@) =~= before + view_installs(
                            model,
                            views,
                            ids.take(v + 1),
                        ));
                    }
                }
                v = v + 1;
            }
            assert(ids.take(v as int) =~= ids);
            e = e + 1;
        }
        assert(all.take(e as int) =~= all);
        records
    }

    /// Shows the panes of the extensions next to the views that they are for. Where one cannot be
    /// shown, those before it stay.
    pub fn reconcile_workspace<B: SceneBuilder>(&self, workspace: &mut ViewWorkspace<B>) -> (result:
        Result<(), ViewExtensionRegistrationError>)
        requires
            old(workspace).valid(),
            forall|ids: Seq<u64>| #[trigger]
                lists_views(old(workspace).model().views, ids) ==> has_room(
                    self.definitions(),
                    old(workspace).model(),
                    ids,
                ),
        ensures
            final(workspace).valid(),
            old(workspace).went_on(*final(workspace)),
            exists|ids: Seq<u64>| #[trigger]
                lists_views(old(workspace).model().views, ids) && ({
                    let installs = all_installs(
                        self.definitions(),
                        old(workspace).model().views,
                        ids,
                    );
                    let said = old(workspace).said(*final(workspace));
                    match result {
                        Ok(_) => installed_in_turn(
                            old(workspace).model(),
                            final(workspace).model(),
                            said,
                            installs,
                        ),
                        Err(ViewExtensionRegistrationError::Layout(error)) => exists|
                            count: int,
                            last: Seq<Exchange>,
                        |
                            final(workspace).may_say(last) && #[trigger] installed_up_to(
                                old(workspace).model(),
                                final(workspace).model(),
                                said,
                                installs,
                                count,
                                last,
                                error,
                            ),
                        Err(_) => false,
                    }
                }),
    {
        let ghost before = workspace.model();
        let ghost start = *workspace;
        let records = self.install_records(workspace);
        let ghost ids = choose|ids: Seq<u64>| #[trigger]
            lists_views(before.views, ids) && installs_of(records@) == all_installs(
                self.definitions(),
                before.views,
                ids,
            );
        let ghost installs = installs_of(records@);
        assert(has_room(self.definitions(), before, ids));
        let ghost mut said: Seq<Exchange> = Seq::empty();
        proof {
            lemma_nothing_said_yet(start, *workspace);
        }
        let mut i: usize = 0;
        assert(installs.take(0) =~= Seq::empty());
        while i < records.len()
            invariant
                i <= records.len(),
                before == old(workspace).model(),
                start == *old(workspace),
                start.went_on(*workspace),
                lists_views(before.views, ids),
                installs == installs_of(records@),
                installs == all_installs(self.definitions(), before.views, ids),
                before.scene_revision + installs.len() < u64::MAX,
                workspace.valid(),
                workspace.model().scene_revision <= before.scene_revision + i,
                workspace.model().views.dom() == before.views.dom(),
                forall|j: int|
                    0 <= j < records@.len() ==> before.views.contains_key(
                        (#[trigger] records@[j]).view.0,
                    ),
                start.said(*workspace) == said,
                installed_in_turn(before, workspace.model(), said, installs.take(i as int)),
            decreases records.len() - i,
        {
            let record = &records[i];
            let ghost install = record.model();
            assert(installs[i as int] == install);
            let ghost middle = workspace.model();
            let ghost here = *workspace;
            match workspace.install_extension_pane(
                record.view,
                record.key.as_str(),
                record.side,
                record.size,
            ) {
                Ok(space) => {
                    proof {
                        let last = here.said(*workspace);
                        let after = workspace.model();
                        lemma_said(start, here, *workspace);
                        if space_for(middle.views[install.view.0].panes, install.key) is Some {
                            lemma_nothing_said_yet(here, *workspace);
                        } else {
                            assert(after.views.dom() =~= middle.views.dom());
                            assert(shown_in(middle, after, last, install, space));
                        }
                        assert(was_installed(middle, after, last, install));
                        let step = InstallStep { middle, first: said, last };
                        lemma_next_install(
                            before,
                            after,
                            installs.take(i as int),
                            install,
                            step,
                        );
                        assert(installs.take(i + 1) =~= installs.take(i as int).push(install));
                        said = said + last;
                    }
                },
                Err(error) => {
                    proof {
                        let reserved = is_reserved(install.key);
                        let last = if reserved || replacement_space(middle, install.view.0)
                            is None {
                            Seq::<Exchange>::empty()
                        } else {
                            let anchor = replacement_space(middle, install.view.0)->0;
                            choose|last: Seq<Exchange>| #[trigger]
                                here.may_say(last) && cannot_install(
                                    middle,
                                    install.view,
                                    install.key,
                                    anchor,
                                    install.side,
                                    install.size,
                                    last,
                                    error,
                                )
                        };
                        lemma_may_say_nothing(here);
                        assert(installed_up_to(
                            before,
                            workspace.model(),
                            said,
                            installs,
                            i as int,
                            last,
                            error,
                        ));
                    }
                    return Err(ViewExtensionRegistrationError::Layout(error));
                },
            }
            i = i + 1;
        }
        assert(installs.take(i as int) =~= installs);
        Ok(())
    }
}

/// One more pane is shown.
proof fn lemma_next_install(
    before: WorkspaceModel,
    after: WorkspaceModel,
    installs: Seq<Install>,
    install: Install,
    step: InstallStep,
)
    requires
        installed_in_turn(before, step.middle, step.first, installs),
        was_installed(step.middle, after, step.last, install),
    ensures
        installed_in_turn(before, after, step.first + step.last, installs.push(install)),
{
    let list = installs.push(install);
    assert(list.drop_last() =~= installs);
    assert(list.last() == install);
}

} // verus!
