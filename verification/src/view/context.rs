//! The document that commands of a view work on.

use crate::protocol::{ContentId, ViewId};
use crate::view::content_state::ContentViewState;
use crate::view::instance::{document_of, View};
use vstd::prelude::*;
use vstd::view::View as _;

verus! {

/// Why commands cannot work on a view.
#[derive(Clone, Copy, Debug, PartialEq, Eq, Structural)]
pub enum ModeContextError {
    /// The view is about no document.
    MissingDocument { view: ViewId },
}

/// A view with its document and what it remembers of it.
pub struct ModeViewContext<'a> {
    pub view: ViewId,
    pub content: ContentId,
    pub state: &'a ContentViewState,
}

/// The document of a view, where it has one.
pub fn require_mode_view_context<'a>(view_id: ViewId, view: &'a View) -> (result: Result<
    ModeViewContext<'a>,
    ModeContextError,
>)
    ensures
        match result {
            Ok(context) => {
                &&& context.view == view_id
                &&& document_of(view.model()) == Some(context.content)
                &&& view.model().document_state == Some(context.state.model())
            },
            Err(error) => document_of(view.model()) is None && error
                == (ModeContextError::MissingDocument { view: view_id }),
        },
{
    match view.document() {
        Some((content, state)) => Ok(ModeViewContext { view: view_id, content, state }),
        None => Err(ModeContextError::MissingDocument { view: view_id }),
    }
}

} // verus!
