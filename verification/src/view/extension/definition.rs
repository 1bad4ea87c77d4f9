//! What an extension adds to views.

use crate::view::definition::ViewDefinitionId;
use crate::view::scene::SplitDirection;
use vstd::prelude::*;
use vstd::string::StringExecFns;

verus! {

/// On which side of a view a pane is shown.
#[derive(Clone, Copy, Debug, PartialEq, Eq, Structural)]
pub enum ViewExtensionPaneSide {
    Left,
    Right,
    Above,
    Below,
}

/// Where a split puts a pane.
pub open spec fn direction_of(side: ViewExtensionPaneSide) -> SplitDirection {
    match side {
        ViewExtensionPaneSide::Left => SplitDirection::Left,
        ViewExtensionPaneSide::Right => SplitDirection::Right,
        ViewExtensionPaneSide::Above => SplitDirection::Up,
        ViewExtensionPaneSide::Below => SplitDirection::Down,
    }
}

impl ViewExtensionPaneSide {
    /// Where a split puts the pane.
    pub fn direction(self) -> (direction: SplitDirection)
        ensures
            direction == direction_of(self),
    {
        match self {
            ViewExtensionPaneSide::Left => SplitDirection::Left,
            ViewExtensionPaneSide::Right => SplitDirection::Right,
            ViewExtensionPaneSide::Above => SplitDirection::Up,
            ViewExtensionPaneSide::Below => SplitDirection::Down,
        }
    }
}

/// A pane of an extension.
pub struct PaneModel {
    pub key: Seq<char>,
    pub full_key: Seq<char>,
    pub side: ViewExtensionPaneSide,
    pub size: u16,
}

/// A pane of an extension: `key` is what the extension calls it, `full_key` what views call it.
#[derive(Debug, PartialEq, Eq)]
pub struct ViewExtensionPane {
    pub key: String,
    pub full_key: String,
    pub side: ViewExtensionPaneSide,
    pub size: u16,
}

impl ViewExtensionPane {
    pub open spec fn model(self) -> PaneModel {
        PaneModel {
            key: self.key@,
            full_key: self.full_key@,
            side: self.side,
            size: self.size,
        }
    }

    pub fn new(key: &str, full_key: &str, side: ViewExtensionPaneSide, size: u16) -> (pane: Self)
        ensures
            pane.model() == (PaneModel { key: key@, full_key: full_key@, side, size }),
    {
        ViewExtensionPane {
            key: String::from_str(key),
            full_key: String::from_str(full_key),
            side,
            size,
        }
    }
}

impl Clone for ViewExtensionPane {
    fn clone(&self) -> (copy: Self)
        ensures
            copy.model() == self.model(),
    {
        ViewExtensionPane {
            key: self.key.clone(),
            full_key: self.full_key.clone(),
            side: self.side,
            size: self.size,
        }
    }
}

/// What an extension adds to views of a definition.
pub struct ExtensionModel {
    pub id: Seq<char>,
    pub owner: Seq<char>,
    pub target: Seq<char>,
    pub panes: Seq<PaneModel>,
}

/// The panes of an extension.
pub open spec fn panes_of(panes: Seq<ViewExtensionPane>) -> Seq<PaneModel> {
    panes.map_values(|pane: ViewExtensionPane| pane.model())
}

/// What an extension adds to views of a definition.
#[derive(Debug, PartialEq, Eq)]
pub struct ViewExtensionDefinition {
    id: String,
    owner: String,
    target: ViewDefinitionId,
    panes: Vec<ViewExtensionPane>,
}

impl ViewExtensionDefinition {
    pub closed spec fn model(self) -> ExtensionModel {
        ExtensionModel {
            id: self.id@,
            owner: self.owner@,
            target: self.target.name(),
            panes: panes_of(self.panes@),
        }
    }

    pub fn new(id: &str, owner: &str, target: ViewDefinitionId, panes: Vec<ViewExtensionPane>) -> (definition:
        Self)
        ensures
            definition.model() == (ExtensionModel {
                id: id@,
                owner: owner@,
                target: target.name(),
                panes: panes_of(panes@),
            }),
    {
        ViewExtensionDefinition {
            id: String::from_str(id),
            owner: String::from_str(owner),
            target,
            panes,
        }
    }

    pub fn id(&self) -> (id: &str)
        ensures
            id@ == self.model().id,
    {
        self.id.as_str()
    }

    pub fn owner(&self) -> (owner: &str)
        ensures
            owner@ == self.model().owner,
    {
        self.owner.as_str()
    }

    pub fn target(&self) -> (target: &ViewDefinitionId)
        ensures
            target.name() == self.model().target,
    {
        &self.target
    }

    pub fn panes(&self) -> (panes: &Vec<ViewExtensionPane>)
        ensures
            panes_of(panes@) == self.model().panes,
    {
        &self.panes
    }
}

} // verus!
