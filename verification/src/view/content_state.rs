//! What a view remembers of the content that it edits.

use crate::protocol::{Selection, TextOffset};
use vstd::prelude::*;

verus! {

/// Selections: all of them, in their order, and which one is the primary one.
#[verifier::ext_equal]
pub struct SelectionsModel {
    pub all: Seq<Selection>,
    pub primary: int,
}

/// One or more selections, one of them the primary one.
#[derive(Debug, PartialEq, Eq)]
pub struct Selections {
    all: Vec<Selection>,
    primary: usize,
}

impl Selections {
    /// The selections and the place of the primary one.
    pub closed spec fn model(self) -> SelectionsModel {
        SelectionsModel { all: self.all@, primary: self.primary as int }
    }

    #[verifier::type_invariant]
    spec fn has_primary(self) -> bool {
        self.primary < self.all@.len()
    }

    /// The selections, where the primary one is among them.
    pub fn new(all: Vec<Selection>, primary: usize) -> (selections: Option<Self>)
        ensures
            match selections {
                Some(selections) => primary < all@.len() && selections.model()
                    == (SelectionsModel { all: all@, primary: primary as int }),
                None => primary >= all@.len(),
            },
    {
        if primary < all.len() {
            Some(Selections { all, primary })
        } else {
            None
        }
    }

    /// One selection.
    pub fn single(selection: Selection) -> (selections: Self)
        ensures
            selections.model() == (SelectionsModel { all: seq![selection], primary: 0 }),
    {
        let mut all: Vec<Selection> = Vec::new();
        all.push(selection);
        assert(all@ =~= seq![selection]);
        Selections { all, primary: 0 }
    }

    pub fn primary(&self) -> (selection: Selection)
        ensures
            selection == self.model().all[self.model().primary],
            0 <= self.model().primary < self.model().all.len(),
    {
        proof {
            use_type_invariant(self);
        }
        self.all[self.primary]
    }

    pub fn all(&self) -> (selections: &Vec<Selection>)
        ensures
            selections@ == self.model().all,
    {
        &self.all
    }

    /// Whether both are the same selections.
    pub fn same(&self, other: &Selections) -> (same: bool)
        ensures
            same == (self.model() == other.model()),
    {
        if self.primary != other.primary || self.all.len() != other.all.len() {
            return false;
        }
        let mut i: usize = 0;
        while i < self.all.len()
            invariant
                i <= self.all.len(),
                self.all.len() == other.all.len(),
                forall|j: int| 0 <= j < i ==> self.all@[j] == other.all@[j],
            decreases self.all.len() - i,
        {
            if self.all[i] != other.all[i] {
                return false;
            }
            i = i + 1;
        }
        assert(self.all@ =~= other.all@);
        true
    }
}

impl Clone for Selections {
    fn clone(&self) -> (copy: Self)
        ensures
            copy.model() == self.model(),
    {
        proof {
            use_type_invariant(self);
        }
        let all = self.all.clone();
        assert(all@ =~= self.all@);
        Selections { all, primary: self.primary }
    }
}

/// What a view remembers of a content: selections, where the content has any.
#[derive(Debug, PartialEq, Eq)]
pub struct ContentViewState {
    selections: Option<Selections>,
}

/// The selections of an optional value.
pub open spec fn optional_selections(selections: Option<Selections>) -> Option<SelectionsModel> {
    match selections {
        Some(selections) => Some(selections.model()),
        None => None,
    }
}

impl ContentViewState {
    /// The selections, where the content has any.
    pub closed spec fn model(self) -> Option<SelectionsModel> {
        optional_selections(self.selections)
    }

    /// The state of a view on a text: nothing selected, at its start.
    pub fn buffer() -> (state: Self)
        ensures
            state.model() == Some(
                SelectionsModel {
                    all: seq![
                        Selection {
                            anchor: TextOffset { char_index: 0 },
                            head: TextOffset { char_index: 0 },
                        },
                    ],
                    primary: 0,
                },
            ),
    {
        let start = Selection::collapsed(TextOffset::origin());
        ContentViewState { selections: Some(Selections::single(start)) }
    }

    /// The state of a view on a content without selections.
    pub fn opaque() -> (state: Self)
        ensures
            state.model() is None,
    {
        ContentViewState { selections: None }
    }

    pub fn selections(&self) -> (selections: Option<&Selections>)
        ensures
            match selections {
                Some(selections) => self.model() == Some(selections.model()),
                None => self.model() is None,
            },
    {
        match &self.selections {
            Some(selections) => Some(selections),
            None => None,
        }
    }

    /// Replaces the selections, where the content has any, and tells whether they changed.
    pub fn replace_selections(&mut self, selections: Selections) -> (changed: Option<bool>)
        ensures
            match changed {
                Some(changed) => {
                    &&& old(self).model() is Some
                    &&& final(self).model() == Some(selections.model())
                    &&& changed == (old(self).model() != Some(selections.model()))
                },
                None => old(self).model() is None && final(self).model() is None,
            },
    {
        let same = match &self.selections {
            Some(current) => current.same(&selections),
            None => {
                return None;
            },
        };
        if !same {
            self.selections = Some(selections);
        }
        Some(!same)
    }
}

impl Clone for ContentViewState {
    fn clone(&self) -> (copy: Self)
        ensures
            copy.model() == self.model(),
    {
        ContentViewState {
            selections: match &self.selections {
                Some(selections) => Some(selections.clone()),
                None => None,
            },
        }
    }
}

} // verus!
