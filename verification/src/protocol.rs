//! Identities, revisions and text positions shared by every part of the editor.

use vstd::prelude::*;

verus! {

/// Identity of a view instance.
#[derive(Clone, Copy, Debug, Default, PartialEq, Eq, Structural, Hash, PartialOrd, Ord)]
pub struct ViewId(pub u64);

/// Identity of a piece of content (a buffer, for example).
#[derive(Clone, Copy, Debug, Default, PartialEq, Eq, Structural, Hash, PartialOrd, Ord)]
pub struct ContentId(pub u64);

/// Identity of a layout space.
#[derive(Clone, Copy, Debug, Default, PartialEq, Eq, Structural, Hash, PartialOrd, Ord)]
pub struct SpaceId(pub u64);

/// A counter that advances with every published change.
#[derive(Clone, Copy, Debug, Default, PartialEq, Eq, Structural, Hash, PartialOrd, Ord)]
pub struct Revision(pub u64);

impl Revision {
    /// Advances the counter by one.
    pub fn next(&mut self)
        requires
            old(self).0 < u64::MAX,
        ensures
            final(self).0 == old(self).0 + 1,
    {
        self.0 = self.0 + 1;
    }
}

/// A position in a text, counted in characters from its start.
#[derive(Clone, Copy, Debug, Default, PartialEq, Eq, Structural, Hash, PartialOrd, Ord)]
pub struct TextOffset {
    pub char_index: usize,
}

impl TextOffset {
    /// The start of the text.
    pub fn origin() -> (offset: Self)
        ensures
            offset.char_index == 0,
    {
        TextOffset { char_index: 0 }
    }
}

/// A selected stretch of text; `head` is the end that moves.
#[derive(Clone, Copy, Debug, Default, PartialEq, Eq, Structural, Hash, PartialOrd, Ord)]
pub struct Selection {
    pub anchor: TextOffset,
    pub head: TextOffset,
}

impl Selection {
    /// The empty selection at `offset`.
    pub fn collapsed(offset: TextOffset) -> (selection: Self)
        ensures
            selection.anchor == offset,
            selection.head == offset,
    {
        Selection { anchor: offset, head: offset }
    }

    /// Whether nothing is selected.
    pub fn is_empty(&self) -> (empty: bool)
        ensures
            empty == (self.anchor == self.head),
    {
        self.anchor == self.head
    }
}

} // verus!
