//! What can go wrong with a layout, and where status bars are shown.

use crate::protocol::{ContentId, SpaceId, ViewId};
use crate::text::{append_decimal, decimal};
use crate::view::definition::{BindingKey, ViewDefinitionId};
use crate::view::panes::PaneKey;
use crate::view::scene::SceneError;
use vstd::prelude::*;
use vstd::string::StringExecFns;

verus! {

/// Where status bars are shown.
#[derive(Clone, Copy, Debug, PartialEq, Eq, Structural)]
pub enum StatusBarPlacement {
    /// One for the whole workspace; it belongs to the view that has the focus.
    Global,
    /// One for each view.
    PerPane,
}

/// A status bar: where it is shown and what it is about.
#[derive(Clone, Copy, Debug, PartialEq, Eq, Structural)]
pub struct StatusBarHandle {
    pub space: SpaceId,
    pub target_view: ViewId,
    pub content: ContentId,
}

/// What is wrong with a diff view.
#[derive(Clone, Copy, Debug, PartialEq, Eq, Structural)]
pub enum DiffFault {
    NotABareParent,
    WrongChildCount,
    MissingChild,
    InconsistentChild,
}

/// What is wrong with a workspace, or with what is asked of it.
#[derive(Debug, PartialEq, Eq)]
pub enum WorkspaceFault {
    FocusNotFocusable,
    MissingViewInScene { space: SpaceId, view: ViewId },
    SpaceWithoutPane(SpaceId),
    DuplicateSpace,
    StalePane { view: ViewId, space: SpaceId },
    MissingParent { view: ViewId, parent: ViewId },
    ForeignChild { parent: ViewId, child: ViewId },
    InvalidChild { view: ViewId, child: ViewId },
    Diff { view: ViewId, fault: DiffFault },
    SubtreeCycle,
    ParentCycle,
    GlobalStatusInconsistent,
    GlobalStatusStale,
    RetainedGlobalStatus,
    StatusIndexMismatch,
    ReservedPaneKey(PaneKey),
    NoPaneAnchor { view: ViewId, key: PaneKey },
    ReservedPaneRemoval(PaneKey),
    InvalidDocumentState(ViewId),
    DocumentStateMismatch,
    CompoundChildCount(ViewId),
    CompoundRoot(ViewDefinitionId),
    CompoundChildIdentity { definition: ViewDefinitionId, child: String },
    CompoundChildBinding {
        definition: ViewDefinitionId,
        child: String,
        child_binding: BindingKey,
        parent_binding: BindingKey,
    },
    CompoundOwnsPane(ViewDefinitionId),
    ParentOwnsChildren,
    ChildrenNotDistinct,
    AlreadyHasParent(ViewId),
    NoSwitchableOwner(ViewId),
    ReplacementMismatch,
    ParentWithoutRoot,
}

/// What is wrong with a diff view, in words.
pub open spec fn diff_text(fault: DiffFault) -> Seq<char> {
    match fault {
        DiffFault::NotABareParent => "must be a switchable parent without body or status Pane"@,
        DiffFault::WrongChildCount => "must own exactly left and right child Views"@,
        DiffFault::MissingChild => "references a missing child View"@,
        DiffFault::InconsistentChild => "binding and BufferView child are inconsistent"@,
    }
}

impl DiffFault {
    /// What is wrong with a diff view, in words.
    pub fn message(&self) -> (message: &'static str)
        ensures
            message@ == diff_text(*self),
    {
        match self {
            DiffFault::NotABareParent => "must be a switchable parent without body or status Pane",
            DiffFault::WrongChildCount => "must own exactly left and right child Views",
            DiffFault::MissingChild => "references a missing child View",
            DiffFault::InconsistentChild => "binding and BufferView child are inconsistent",
        }
    }
}

/// What is wrong, in words.
pub open spec fn fault_text(fault: WorkspaceFault) -> Seq<char> {
    match fault {
        WorkspaceFault::FocusNotFocusable => "focus does not reference a focusable View Pane"@,
        WorkspaceFault::MissingViewInScene { space, view } =>
            "Scene space "@ + decimal(space.0 as nat) + " references missing View "@
                + decimal(view.0 as nat),
        WorkspaceFault::SpaceWithoutPane(space) =>
            "Scene space "@ + decimal(space.0 as nat) + " has no owning PaneKey"@,
        WorkspaceFault::DuplicateSpace => "Scene contains duplicate Space identity"@,
        WorkspaceFault::StalePane { view, space } =>
            "View "@ + decimal(view.0 as nat) + " owns stale Pane space "@
                + decimal(space.0 as nat),
        WorkspaceFault::MissingParent { view, parent } =>
            "View "@ + decimal(view.0 as nat) + " has missing semantic parent "@
                + decimal(parent.0 as nat),
        WorkspaceFault::ForeignChild { parent, child } =>
            "semantic parent "@ + decimal(parent.0 as nat) + " does not own child "@
                + decimal(child.0 as nat),
        WorkspaceFault::InvalidChild { view, child } =>
            "View "@ + decimal(view.0 as nat) + " has an invalid semantic child "@
                + decimal(child.0 as nat),
        WorkspaceFault::Diff { view, fault } =>
            "DiffView "@ + decimal(view.0 as nat) + " "@ + diff_text(fault),
        WorkspaceFault::SubtreeCycle => "semantic View tree contains a cycle or duplicate child"@,
        WorkspaceFault::ParentCycle => "semantic View graph contains a parent cycle"@,
        WorkspaceFault::GlobalStatusInconsistent => "global status ownership is inconsistent"@,
        WorkspaceFault::GlobalStatusStale => "global status has stale View Pane ownership"@,
        WorkspaceFault::RetainedGlobalStatus => "per-pane workspace retains a global status Space"@,
        WorkspaceFault::StatusIndexMismatch =>
            "per-pane status index does not match View Pane ownership"@,
        WorkspaceFault::ReservedPaneKey(key) =>
            "view extension pane key '"@ + key@ + "' is reserved"@,
        WorkspaceFault::NoPaneAnchor { view, key } =>
            "View "@ + decimal(view.0 as nat) + " has no Pane anchor for extension '"@ + key@
                + "'"@,
        WorkspaceFault::ReservedPaneRemoval(key) =>
            "cannot remove reserved Pane '"@ + key@ + "' as a view extension"@,
        WorkspaceFault::InvalidDocumentState(view) =>
            "View "@ + decimal(view.0 as nat) + " has invalid document state"@,
        WorkspaceFault::DocumentStateMismatch => "DocumentStateMismatch"@,
        WorkspaceFault::CompoundChildCount(view) =>
            "compound View "@ + decimal(view.0 as nat) + " does not own exactly two children"@,
        WorkspaceFault::CompoundRoot(definition) =>
            "compound View '"@ + definition.name() + "' has an invalid semantic root"@,
        WorkspaceFault::CompoundChildIdentity { definition, child } =>
            "compound View '"@ + definition.name() + "' child '"@ + child@
                + "' has an invalid View identity"@,
        WorkspaceFault::CompoundChildBinding { definition, child, child_binding, parent_binding } =>
            "compound View '"@ + definition.name() + "' child '"@ + child@ + "' binding '"@
                + child_binding.name() + "' is inconsistent with parent binding '"@
                + parent_binding.name() + "'"@,
        WorkspaceFault::CompoundOwnsPane(definition) =>
            "new compound View '"@ + definition.name() + "' must not own a recipe Pane"@,
        WorkspaceFault::ParentOwnsChildren => "compound View parent already owns children"@,
        WorkspaceFault::ChildrenNotDistinct =>
            "compound View children must be distinct from the parent"@,
        WorkspaceFault::AlreadyHasParent(view) =>
            "View "@ + decimal(view.0 as nat) + " already has a semantic parent"@,
        WorkspaceFault::NoSwitchableOwner(view) =>
            "View "@ + decimal(view.0 as nat) + " has no switchable lifecycle owner"@,
        WorkspaceFault::ReplacementMismatch =>
            "content close replacement does not match focusability plan"@,
        WorkspaceFault::ParentWithoutRoot => "semantic parent does not own replacement root"@,
    }
}

impl WorkspaceFault {
    /// What is wrong, in words.
    pub fn message(&self) -> (message: String)
        ensures
            message@ == fault_text(*self),
    {
        match self {
            WorkspaceFault::FocusNotFocusable => String::from_str(
                "focus does not reference a focusable View Pane",
            ),
            WorkspaceFault::MissingViewInScene { space, view } => {
                let mut message = String::from_str("Scene space ");
                append_decimal(&mut message, space.0);
                message.append(" references missing View ");
                append_decimal(&mut message, view.0);
                message
            },
            WorkspaceFault::SpaceWithoutPane(space) => {
                let mut message = String::from_str("Scene space ");
                append_decimal(&mut message, space.0);
                message.append(" has no owning PaneKey");
                message
            },
            WorkspaceFault::DuplicateSpace => String::from_str(
                "Scene contains duplicate Space identity",
            ),
            WorkspaceFault::StalePane { view, space } => {
                let mut message = String::from_str("View ");
                append_decimal(&mut message, view.0);
                message.append(" owns stale Pane space ");
                append_decimal(&mut message, space.0);
                message
            },
            WorkspaceFault::MissingParent { view, parent } => {
                let mut message = String::from_str("View ");
                append_decimal(&mut message, view.0);
                message.append(" has missing semantic parent ");
                append_decimal(&mut message, parent.0);
                message
            },
            WorkspaceFault::ForeignChild { parent, child } => {
                let mut message = String::from_str("semantic parent ");
                append_decimal(&mut message, parent.0);
                message.append(" does not own child ");
                append_decimal(&mut message, child.0);
                message
            },
            WorkspaceFault::InvalidChild { view, child } => {
                let mut message = String::from_str("View ");
                append_decimal(&mut message, view.0);
                message.append(" has an invalid semantic child ");
                append_decimal(&mut message, child.0);
                message
            },
            WorkspaceFault::Diff { view, fault } => {
                let mut message = String::from_str("DiffView ");
                append_decimal(&mut message, view.0);
                message.append(" ");
                message.append(fault.message());
                message
            },
            WorkspaceFault::SubtreeCycle => String::from_str(
                "semantic View tree contains a cycle or duplicate child",
            ),
            WorkspaceFault::ParentCycle => String::from_str(
                "semantic View graph contains a parent cycle",
            ),
            WorkspaceFault::GlobalStatusInconsistent => String::from_str(
                "global status ownership is inconsistent",
            ),
            WorkspaceFault::GlobalStatusStale => String::from_str(
                "global status has stale View Pane ownership",
            ),
            WorkspaceFault::RetainedGlobalStatus => String::from_str(
                "per-pane workspace retains a global status Space",
            ),
            WorkspaceFault::StatusIndexMismatch => String::from_str(
                "per-pane status index does not match View Pane ownership",
            ),
            WorkspaceFault::ReservedPaneKey(key) => {
                let mut message = String::from_str("view extension pane key '");
                message.append(key.as_str());
                message.append("' is reserved");
                message
            },
            WorkspaceFault::NoPaneAnchor { view, key } => {
                let mut message = String::from_str("View ");
                append_decimal(&mut message, view.0);
                message.append(" has no Pane anchor for extension '");
                message.append(key.as_str());
                message.append("'");
                message
            },
            WorkspaceFault::ReservedPaneRemoval(key) => {
                let mut message = String::from_str("cannot remove reserved Pane '");
                message.append(key.as_str());
                message.append("' as a view extension");
                message
            },
            WorkspaceFault::InvalidDocumentState(view) => {
                let mut message = String::from_str("View ");
                append_decimal(&mut message, view.0);
                message.append(" has invalid document state");
                message
            },
            WorkspaceFault::DocumentStateMismatch => String::from_str("DocumentStateMismatch"),
            WorkspaceFault::CompoundChildCount(view) => {
                let mut message = String::from_str("compound View ");
                append_decimal(&mut message, view.0);
                message.append(" does not own exactly two children");
                message
            },
            WorkspaceFault::CompoundRoot(definition) => {
                let mut message = String::from_str("compound View '");
                message.append(definition.as_str());
                message.append("' has an invalid semantic root");
                message
            },
            WorkspaceFault::CompoundChildIdentity { definition, child } => {
                let mut message = String::from_str("compound View '");
                message.append(definition.as_str());
                message.append("' child '");
                message.append(child.as_str());
                message.append("' has an invalid View identity");
                message
            },
            WorkspaceFault::CompoundChildBinding { definition, child, child_binding, parent_binding } => {
                let mut message = String::from_str("compound View '");
                message.append(definition.as_str());
                message.append("' child '");
                message.append(child.as_str());
                message.append("' binding '");
                message.append(child_binding.as_str());
                message.append("' is inconsistent with parent binding '");
                message.append(parent_binding.as_str());
                message.append("'");
                message
            },
            WorkspaceFault::CompoundOwnsPane(definition) => {
                let mut message = String::from_str("new compound View '");
                message.append(definition.as_str());
                message.append("' must not own a recipe Pane");
                message
            },
            WorkspaceFault::ParentOwnsChildren => String::from_str(
                "compound View parent already owns children",
            ),
            WorkspaceFault::ChildrenNotDistinct => String::from_str(
                "compound View children must be distinct from the parent",
            ),
            WorkspaceFault::AlreadyHasParent(view) => {
                let mut message = String::from_str("View ");
                append_decimal(&mut message, view.0);
                message.append(" already has a semantic parent");
                message
            },
            WorkspaceFault::NoSwitchableOwner(view) => {
                let mut message = String::from_str("View ");
                append_decimal(&mut message, view.0);
                message.append(" has no switchable lifecycle owner");
                message
            },
            WorkspaceFault::ReplacementMismatch => String::from_str(
                "content close replacement does not match focusability plan",
            ),
            WorkspaceFault::ParentWithoutRoot => String::from_str(
                "semantic parent does not own replacement root",
            ),
        }
    }
}

/// Why a layout cannot be changed.
#[derive(Debug, PartialEq, Eq)]
pub enum LayoutError {
    MissingView(ViewId),
    MissingBinding { view: ViewId, binding: BindingKey },
    NoStatusBar,
    NoFocusableSpace,
    StatusBarSpace(SpaceId),
    WouldRemoveLastFocusable(SpaceId),
    Scene(SceneError),
    InvalidWorkspace(WorkspaceFault),
}

} // verus!
