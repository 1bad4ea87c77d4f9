//! Which spaces of the layout a view owns, and what it uses each of them for.

use crate::protocol::SpaceId;
use crate::text::same_text;
use vstd::prelude::*;
use vstd::string::StringExecFns;

verus! {

/// What a view uses a space for, stable across changes of the layout.
pub type PaneKey = String;

/// The main area of a view.
pub const BODY_PANE: &'static str = "body";

/// The line numbers of a buffer view.
pub const GUTTER_PANE: &'static str = "builtin.gutter";

/// The status bar.
pub const STATUS_PANE: &'static str = "builtin.status";

/// No two spaces are used for the same.
pub open spec fn keys_differ(panes: Map<SpaceId, Seq<char>>) -> bool {
    forall|a: SpaceId, b: SpaceId|
        panes.contains_key(a) && panes.contains_key(b) && (#[trigger] panes[a]) == (
        #[trigger] panes[b]) ==> a == b
}

/// The space is used for that.
pub open spec fn uses(panes: Map<SpaceId, Seq<char>>, key: Seq<char>, space: SpaceId) -> bool {
    panes.contains_key(space) && panes[space] == key
}

/// The space that is used for that.
pub open spec fn space_for(panes: Map<SpaceId, Seq<char>>, key: Seq<char>) -> Option<SpaceId> {
    if exists|space: SpaceId| uses(panes, key, space) {
        Some(choose|space: SpaceId| uses(panes, key, space))
    } else {
        None
    }
}

/// What the space is used for.
pub open spec fn key_for(panes: Map<SpaceId, Seq<char>>, space: SpaceId) -> Option<Seq<char>> {
    if panes.contains_key(space) {
        Some(panes[space])
    } else {
        None
    }
}

/// The panes once a space is used for that, and no other space is.
pub open spec fn assigned(
    panes: Map<SpaceId, Seq<char>>,
    space: SpaceId,
    key: Seq<char>,
) -> Map<SpaceId, Seq<char>> {
    Map::new(
        |other: SpaceId| other == space || (panes.contains_key(other) && panes[other] != key),
        |other: SpaceId|
            if other == space {
                key
            } else {
                panes[other]
            },
    )
}

/// In a map where keys differ, a space is found by what it is used for.
pub proof fn lemma_space_for(panes: Map<SpaceId, Seq<char>>, key: Seq<char>, space: SpaceId)
    requires
        keys_differ(panes),
        uses(panes, key, space),
    ensures
        space_for(panes, key) == Some(space),
{
    let found = choose|other: SpaceId| uses(panes, key, other);
    assert(uses(panes, key, found));
    assert(panes[found] == panes[space]);
}

/// Spaces and what they are used for. A space has one use at a time, and each use one space.
pub struct ViewPaneMap {
    entries: Vec<(SpaceId, PaneKey)>,
}

spec fn stands_at(entries: Seq<(SpaceId, PaneKey)>, space: SpaceId, i: int) -> bool {
    0 <= i < entries.len() && entries[i].0 == space
}

spec fn map_of(entries: Seq<(SpaceId, PaneKey)>) -> Map<SpaceId, Seq<char>> {
    Map::new(
        |space: SpaceId| exists|i: int| stands_at(entries, space, i),
        |space: SpaceId| entries[choose|i: int| stands_at(entries, space, i)].1@,
    )
}

spec fn entries_differ(entries: Seq<(SpaceId, PaneKey)>) -> bool {
    forall|i: int, j: int|
        0 <= i < j < entries.len() ==> (#[trigger] entries[i]).0 != (#[trigger] entries[j]).0
            && entries[i].1@ != entries[j].1@
}

proof fn lemma_entry(entries: Seq<(SpaceId, PaneKey)>, i: int)
    requires
        entries_differ(entries),
        0 <= i < entries.len(),
    ensures
        map_of(entries).contains_key(entries[i].0),
        map_of(entries)[entries[i].0] == entries[i].1@,
{
    let space = entries[i].0;
    assert(stands_at(entries, space, i));
    let found = choose|j: int| stands_at(entries, space, j);
    assert(stands_at(entries, space, found));
    assert(found == i);
}

proof fn lemma_entries_keys_differ(entries: Seq<(SpaceId, PaneKey)>)
    requires
        entries_differ(entries),
    ensures
        keys_differ(map_of(entries)),
{
    let panes = map_of(entries);
    assert forall|a: SpaceId, b: SpaceId|
        panes.contains_key(a) && panes.contains_key(b) && (#[trigger] panes[a]) == (
        #[trigger] panes[b]) implies a == b by {
        let i = choose|i: int| stands_at(entries, a, i);
        let j = choose|j: int| stands_at(entries, b, j);
        lemma_entry(entries, i);
        lemma_entry(entries, j);
    }
}

impl ViewPaneMap {
    /// What each space is used for.
    pub closed spec fn model(self) -> Map<SpaceId, Seq<char>> {
        map_of(self.entries@)
    }

    #[verifier::type_invariant]
    spec fn uses_differ(self) -> bool {
        entries_differ(self.entries@)
    }

    /// No panes.
    pub fn new() -> (panes: Self)
        ensures
            panes.model() == Map::<SpaceId, Seq<char>>::empty(),
    {
        let panes = ViewPaneMap { entries: Vec::new() };
        assert(panes.model() =~= Map::empty());
        panes
    }

    /// What the space is used for.
    pub fn key_for_space(&self, space: SpaceId) -> (key: Option<&str>)
        ensures
            match key {
                Some(key) => key_for(self.model(), space) == Some(key@),
                None => key_for(self.model(), space) is None,
            },
            keys_differ(self.model()),
    {
        proof {
            use_type_invariant(self);
            lemma_entries_keys_differ(self.entries@);
        }
        let mut i: usize = 0;
        while i < self.entries.len()
            invariant
                i <= self.entries.len(),
                entries_differ(self.entries@),
                forall|j: int| 0 <= j < i ==> (#[trigger] self.entries@[j]).0 != space,
            decreases self.entries.len() - i,
        {
            if self.entries[i].0 == space {
                proof {
                    lemma_entry(self.entries@, i as int);
                }
                return Some(self.entries[i].1.as_str());
            }
            i = i + 1;
        }
        None
    }

    /// The space that is used for that.
    pub fn space_for_key(&self, key: &str) -> (space: Option<SpaceId>)
        ensures
            space == space_for(self.model(), key@),
            keys_differ(self.model()),
    {
        proof {
            use_type_invariant(self);
            lemma_entries_keys_differ(self.entries@);
        }
        let ghost panes = self.model();
        let mut i: usize = 0;
        while i < self.entries.len()
            invariant
                i <= self.entries.len(),
                entries_differ(self.entries@),
                panes == map_of(self.entries@),
                keys_differ(panes),
                forall|j: int| 0 <= j < i ==> (#[trigger] self.entries@[j]).1@ != key@,
            decreases self.entries.len() - i,
        {
            if same_text(self.entries[i].1.as_str(), key) {
                proof {
                    lemma_entry(self.entries@, i as int);
                    lemma_space_for(panes, key@, self.entries@[i as int].0);
                }
                return Some(self.entries[i].0);
            }
            i = i + 1;
        }
        proof {
            assert forall|space: SpaceId| !uses(panes, key@, space) by {
                if uses(panes, key@, space) {
                    let j = choose|j: int| stands_at(self.entries@, space, j);
                    lemma_entry(self.entries@, j);
                }
            }
        }
        None
    }

    /// The spaces, each once.
    pub fn spaces(&self) -> (spaces: Vec<SpaceId>)
        ensures
            forall|space: SpaceId|
                spaces@.contains(space) <==> #[trigger] self.model().contains_key(space),
            spaces@.no_duplicates(),
            keys_differ(self.model()),
    {
        proof {
            use_type_invariant(self);
            lemma_entries_keys_differ(self.entries@);
        }
        let mut spaces: Vec<SpaceId> = Vec::new();
        let mut i: usize = 0;
        while i < self.entries.len()
            invariant
                i <= self.entries.len(),
                spaces@.len() == i,
                forall|j: int| 0 <= j < i ==> (#[trigger] spaces@[j]) == self.entries@[j].0,
            decreases self.entries.len() - i,
        {
            spaces.push(self.entries[i].0);
            i = i + 1;
        }
        proof {
            assert forall|space: SpaceId|
                spaces@.contains(space) <==> #[trigger] self.model().contains_key(space) by {
                if spaces@.contains(space) {
                    let j = choose|j: int| 0 <= j < spaces@.len() && spaces@[j] == space;
                    lemma_entry(self.entries@, j);
                }
                if self.model().contains_key(space) {
                    let j = choose|j: int| stands_at(self.entries@, space, j);
                    assert(spaces@[j] == space);
                }
            }
        }
        spaces
    }

    /// Uses a space for that, and no other space any more.
    pub(crate) fn insert(&mut self, space: SpaceId, key: PaneKey)
        ensures
            final(self).model() == assigned(old(self).model(), space, key@),
            keys_differ(final(self).model()),
    {
        proof {
            use_type_invariant(&*self);
        }
        let ghost before = self.entries@;
        let mut entries: Vec<(SpaceId, PaneKey)> = Vec::new();
        let mut i: usize = 0;
        while i < self.entries.len()
            invariant
                i <= self.entries.len(),
                before == self.entries@,
                entries_differ(before),
                entries_differ(entries@),
                forall|j: int|
                    0 <= j < entries@.len() ==> exists|k: int|
                        0 <= k < i && before[k].0 == (#[trigger] entries@[j]).0 && before[k].1@
                            == entries@[j].1@ && entries@[j].0 != space && entries@[j].1@ != key@,
                forall|k: int|
                    0 <= k < i && (#[trigger] before[k]).0 != space && before[k].1@ != key@
                        ==> exists|j: int|
                        0 <= j < entries@.len() && (#[trigger] entries@[j]).0 == before[k].0
                            && entries@[j].1@ == before[k].1@,
            decreases self.entries.len() - i,
        {
            let entry = &self.entries[i];
            let ghost seen = entries@;
            if entry.0 != space && !same_text(entry.1.as_str(), key.as_str()) {
                entries.push((entry.0, entry.1.clone()));
                proof {
                    let last = entries@.len() - 1;
                    assert(entries@[last].0 == before[i as int].0);
                    assert(entries@[last].1@ == before[i as int].1@);
                    assert forall|k: int|
                        0 <= k < i + 1 && (#[trigger] before[k]).0 != space && before[k].1@
                            != key@ implies exists|j: int|
                        0 <= j < entries@.len() && (#[trigger] entries@[j]).0 == before[k].0
                            && entries@[j].1@ == before[k].1@ by {
                        if k < i {
                            let j = choose|j: int|
                                0 <= j < seen.len() && (#[trigger] seen[j]).0 == before[k].0
                                    && seen[j].1@ == before[k].1@;
                            assert(entries@[j] == seen[j]);
                        } else {
                            assert(entries@[last].0 == before[k].0);
                        }
                    }
                    assert forall|j: int| 0 <= j < entries@.len() implies exists|k: int|
                        0 <= k < i + 1 && before[k].0 == (#[trigger] entries@[j]).0
                            && before[k].1@ == entries@[j].1@ && entries@[j].0 != space
                            && entries@[j].1@ != key@ by {
                        if j < last {
                            assert(entries@[j] == seen[j]);
                        }
                    }
                }
            }
            i = i + 1;
        }
        let ghost kept = entries@;
        entries.push((space, key));
        proof {
            let after = entries@;
            assert(entries_differ(after));
            let old_map = map_of(before);
            let wanted = assigned(old_map, space, key@);
            let last = after.len() - 1;
            lemma_entry(after, last);
            assert forall|other: SpaceId| map_of(after).contains_key(other)
                == wanted.contains_key(other) by {
                if map_of(after).contains_key(other) && other != space {
                    let j = choose|j: int| stands_at(after, other, j);
                    assert(after[j] == kept[j]);
                    let k = choose|k: int|
                        0 <= k < before.len() && before[k].0 == kept[j].0 && before[k].1@
                            == kept[j].1@ && kept[j].0 != space && kept[j].1@ != key@;
                    lemma_entry(before, k);
                }
                if wanted.contains_key(other) && other != space {
                    let k = choose|k: int| stands_at(before, other, k);
                    lemma_entry(before, k);
                    let j = choose|j: int|
                        0 <= j < kept.len() && (#[trigger] kept[j]).0 == before[k].0 && kept[j].1@
                            == before[k].1@;
                    assert(after[j] == kept[j]);
                    assert(stands_at(after, other, j));
                }
            }
            assert forall|other: SpaceId| wanted.contains_key(other) implies map_of(after)[other]
                == wanted[other] by {
                if other != space {
                    let k = choose|k: int| stands_at(before, other, k);
                    lemma_entry(before, k);
                    let j = choose|j: int|
                        0 <= j < kept.len() && (#[trigger] kept[j]).0 == before[k].0 && kept[j].1@
                            == before[k].1@;
                    assert(after[j] == kept[j]);
                    lemma_entry(after, j);
                }
            }
            assert(map_of(after) =~= wanted);
            lemma_entries_keys_differ(after);
        }
        *self = ViewPaneMap { entries };
    }

    /// Gives a space up and hands back what it was used for.
    pub(crate) fn remove_space(&mut self, space: SpaceId) -> (key: Option<PaneKey>)
        ensures
            match key {
                Some(key) => key_for(old(self).model(), space) == Some(key@),
                None => key_for(old(self).model(), space) is None,
            },
            final(self).model() == old(self).model().remove(space),
            keys_differ(final(self).model()),
    {
        proof {
            use_type_invariant(&*self);
        }
        let ghost before = self.entries@;
        let mut entries: Vec<(SpaceId, PaneKey)> = Vec::new();
        let mut removed: Option<PaneKey> = None;
        let mut i: usize = 0;
        while i < self.entries.len()
            invariant
                i <= self.entries.len(),
                before == self.entries@,
                entries_differ(before),
                entries_differ(entries@),
                forall|j: int|
                    0 <= j < entries@.len() ==> exists|k: int|
                        0 <= k < i && before[k].0 == (#[trigger] entries@[j]).0 && before[k].1@
                            == entries@[j].1@ && entries@[j].0 != space,
                forall|k: int|
                    0 <= k < i && (#[trigger] before[k]).0 != space ==> exists|j: int|
                        0 <= j < entries@.len() && (#[trigger] entries@[j]).0 == before[k].0
                            && entries@[j].1@ == before[k].1@,
                match removed {
                    Some(key) => exists|k: int|
                        0 <= k < i && (#[trigger] before[k]).0 == space && before[k].1@ == key@,
                    None => forall|k: int| 0 <= k < i ==> (#[trigger] before[k]).0 != space,
                },
            decreases self.entries.len() - i,
        {
            let entry = &self.entries[i];
            let ghost seen = entries@;
            if entry.0 == space {
                removed = Some(entry.1.clone());
                assert(before[i as int].0 == space);
            } else {
                entries.push((entry.0, entry.1.clone()));
                proof {
                    let last = entries@.len() - 1;
                    assert(entries@[last].0 == before[i as int].0);
                    assert(entries@[last].1@ == before[i as int].1@);
                    assert forall|k: int|
                        0 <= k < i + 1 && (#[trigger] before[k]).0 != space implies exists|j: int|
                        0 <= j < entries@.len() && (#[trigger] entries@[j]).0 == before[k].0
                            && entries@[j].1@ == before[k].1@ by {
                        if k < i {
                            let j = choose|j: int|
                                0 <= j < seen.len() && (#[trigger] seen[j]).0 == before[k].0
                                    && seen[j].1@ == before[k].1@;
                            assert(entries@[j] == seen[j]);
                        } else {
                            assert(entries@[last].0 == before[k].0);
                        }
                    }
                    assert forall|j: int| 0 <= j < entries@.len() implies exists|k: int|
                        0 <= k < i + 1 && before[k].0 == (#[trigger] entries@[j]).0
                            && before[k].1@ == entries@[j].1@ && entries@[j].0 != space by {
                        if j < last {
                            assert(entries@[j] == seen[j]);
                        }
                    }
                }
            }
            i = i + 1;
        }
        proof {
            let after = entries@;
            let old_map = map_of(before);
            let wanted = old_map.remove(space);
            assert forall|other: SpaceId| map_of(after).contains_key(other)
                == wanted.contains_key(other) by {
                if map_of(after).contains_key(other) {
                    let j = choose|j: int| stands_at(after, other, j);
                    let k = choose|k: int|
                        0 <= k < before.len() && before[k].0 == after[j].0 && before[k].1@
                            == after[j].1@ && after[j].0 != space;
                    lemma_entry(before, k);
                }
                if wanted.contains_key(other) {
                    let k = choose|k: int| stands_at(before, other, k);
                    let j = choose|j: int|
                        0 <= j < after.len() && (#[trigger] after[j]).0 == before[k].0
                            && after[j].1@ == before[k].1@;
                    assert(stands_at(after, other, j));
                }
            }
            assert forall|other: SpaceId| wanted.contains_key(other) implies map_of(after)[other]
                == wanted[other] by {
                let k = choose|k: int| stands_at(before, other, k);
                lemma_entry(before, k);
                let j = choose|j: int|
                    0 <= j < after.len() && (#[trigger] after[j]).0 == before[k].0 && after[j].1@
                        == before[k].1@;
                lemma_entry(after, j);
            }
            assert(map_of(after) =~= wanted);
            lemma_entries_keys_differ(after);
            if removed is Some {
                let k = choose|k: int|
                    0 <= k < before.len() && (#[trigger] before[k]).0 == space && before[k].1@
                        == removed->0@;
                lemma_entry(before, k);
            }
        }
        *self = ViewPaneMap { entries };
        removed
    }
}

impl Clone for ViewPaneMap {
    fn clone(&self) -> (copy: Self)
        ensures
            copy.model() == self.model(),
    {
        proof {
            use_type_invariant(self);
        }
        let ghost before = self.entries@;
        let mut entries: Vec<(SpaceId, PaneKey)> = Vec::new();
        let mut i: usize = 0;
        while i < self.entries.len()
            invariant
                i <= self.entries.len(),
                before == self.entries@,
                entries@.len() == i,
                forall|j: int|
                    0 <= j < i ==> (#[trigger] entries@[j]).0 == before[j].0 && entries@[j].1@
                        == before[j].1@,
            decreases self.entries.len() - i,
        {
            entries.push((self.entries[i].0, self.entries[i].1.clone()));
            i = i + 1;
        }
        proof {
            let after = entries@;
            assert forall|space: SpaceId, k: int| #[trigger]
                stands_at(after, space, k) == stands_at(before, space, k) by {
                if 0 <= k < after.len() {
                    assert(after[k].0 == before[k].0);
                }
            }
            assert forall|space: SpaceId| map_of(after).contains_key(space)
                == map_of(before).contains_key(space) by {
                if map_of(after).contains_key(space) {
                    let k = choose|k: int| stands_at(after, space, k);
                    assert(stands_at(before, space, k));
                }
                if map_of(before).contains_key(space) {
                    let k = choose|k: int| stands_at(before, space, k);
                    assert(stands_at(after, space, k));
                }
            }
            assert forall|space: SpaceId| map_of(after).contains_key(space) implies map_of(
                after,
            )[space] == map_of(before)[space] by {
                let k = choose|k: int| stands_at(after, space, k);
                lemma_entry(after, k);
                lemma_entry(before, k);
            }
            assert(map_of(after) =~= map_of(before));
        }
        ViewPaneMap { entries }
    }
}

} // verus!
