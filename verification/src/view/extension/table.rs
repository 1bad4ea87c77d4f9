//! What is kept for panes of extensions.

use crate::protocol::ViewId;
use crate::text::same_text;
use vstd::prelude::*;
use vstd::string::StringExecFns;

verus! {

/// A pane of an extension next to a view.
pub struct PaneKeyModel {
    pub extension: Seq<char>,
    pub view: u64,
    pub pane: Seq<char>,
}

/// A pane of an extension next to a view.
#[derive(Debug, PartialEq, Eq)]
pub struct PaneCacheKey {
    pub extension: String,
    pub view: ViewId,
    pub pane: String,
}

impl PaneCacheKey {
    pub open spec fn model(self) -> PaneKeyModel {
        PaneKeyModel { extension: self.extension@, view: self.view.0, pane: self.pane@ }
    }

    /// Whether both are the same pane.
    pub fn same(&self, other: &PaneCacheKey) -> (same: bool)
        ensures
            same == (self.model() == other.model()),
    {
        self.view == other.view && same_text(self.extension.as_str(), other.extension.as_str())
            && same_text(self.pane.as_str(), other.pane.as_str())
    }
}

impl Clone for PaneCacheKey {
    fn clone(&self) -> (copy: Self)
        ensures
            copy.model() == self.model(),
    {
        PaneCacheKey {
            extension: self.extension.clone(),
            view: self.view,
            pane: self.pane.clone(),
        }
    }
}

/// The pane is among the panes.
pub open spec fn lists_key(keys: Seq<PaneCacheKey>, key: PaneKeyModel) -> bool {
    exists|i: int| 0 <= i < keys.len() && (#[trigger] keys[i]).model() == key
}

/// Whether the pane is among the panes.
pub fn holds_key(keys: &Vec<PaneCacheKey>, key: &PaneCacheKey) -> (holds: bool)
    ensures
        holds == lists_key(keys@, key.model()),
{
    let mut i: usize = 0;
    while i < keys.len()
        invariant
            i <= keys.len(),
            forall|j: int| 0 <= j < i ==> (#[trigger] keys@[j]).model() != key.model(),
        decreases keys.len() - i,
    {
        if keys[i].same(key) {
            assert(keys@[i as int].model() == key.model());
            return true;
        }
        i = i + 1;
    }
    false
}

/// Where a pane stands.
spec fn slot_at<V>(slots: Seq<(PaneCacheKey, V)>, key: PaneKeyModel, i: int) -> bool {
    0 <= i < slots.len() && slots[i].0.model() == key
}

/// No pane stands twice.
spec fn slots_differ<V>(slots: Seq<(PaneCacheKey, V)>) -> bool {
    forall|i: int, j: int|
        0 <= i < j < slots.len() ==> (#[trigger] slots[i]).0.model() != (
        #[trigger] slots[j]).0.model()
}

/// What is kept, by pane.
spec fn map_of<V>(slots: Seq<(PaneCacheKey, V)>) -> Map<PaneKeyModel, V> {
    Map::new(
        |key: PaneKeyModel| exists|i: int| slot_at(slots, key, i),
        |key: PaneKeyModel| slots[choose|i: int| slot_at(slots, key, i)].1,
    )
}

proof fn lemma_slot<V>(slots: Seq<(PaneCacheKey, V)>, key: PaneKeyModel, i: int)
    requires
        slots_differ(slots),
        slot_at(slots, key, i),
    ensures
        map_of(slots).contains_key(key),
        map_of(slots)[key] == slots[i].1,
{
    let k = choose|k: int| slot_at(slots, key, k);
    assert(slot_at(slots, key, k));
    assert(k == i);
}

proof fn lemma_slot_push<V>(slots: Seq<(PaneCacheKey, V)>, slot: (PaneCacheKey, V))
    requires
        slots_differ(slots),
        !map_of(slots).contains_key(slot.0.model()),
    ensures
        slots_differ(slots.push(slot)),
        map_of(slots.push(slot)) == map_of(slots).insert(slot.0.model(), slot.1),
{
    let after = slots.push(slot);
    let key = slot.0.model();
    assert forall|i: int, j: int| 0 <= i < j < after.len() implies (#[trigger] after[i]).0.model()
        != (#[trigger] after[j]).0.model() by {
        if j == slots.len() && after[i].0.model() == key {
            assert(slot_at(slots, key, i));
        }
    }
    let expected = map_of(slots).insert(key, slot.1);
    assert forall|other: PaneKeyModel|
        #[trigger] map_of(after).contains_key(other) == expected.contains_key(other) && (
        expected.contains_key(other) ==> map_of(after)[other] == expected[other]) by {
        if other == key {
            assert(slot_at(after, key, slots.len() as int));
            lemma_slot(after, key, slots.len() as int);
        } else {
            if map_of(slots).contains_key(other) {
                let i = choose|i: int| slot_at(slots, other, i);
                assert(slot_at(after, other, i));
                lemma_slot(slots, other, i);
                lemma_slot(after, other, i);
            }
            if map_of(after).contains_key(other) {
                let i = choose|i: int| slot_at(after, other, i);
                assert(slot_at(slots, other, i));
            }
        }
    }
    assert(map_of(after) =~= expected);
}

/// What is kept for some panes.
pub struct PaneTable<V> {
    slots: Vec<(PaneCacheKey, V)>,
}

impl<V> PaneTable<V> {
    /// What is kept, by pane.
    pub closed spec fn entries(self) -> Map<PaneKeyModel, V> {
        map_of(self.slots@)
    }

    #[verifier::type_invariant]
    spec fn well_kept(self) -> bool {
        slots_differ(self.slots@)
    }

    pub fn new() -> (table: Self)
        ensures
            table.entries() == Map::<PaneKeyModel, V>::empty(),
    {
        let table = PaneTable { slots: Vec::new() };
        assert(table.entries() =~= Map::<PaneKeyModel, V>::empty());
        table
    }

    /// Where a pane stands.
    fn find(&self, key: &PaneCacheKey) -> (index: Option<usize>)
        ensures
            match index {
                Some(i) => i < self.slots@.len() && slot_at(self.slots@, key.model(), i as int)
                    && self.entries().contains_key(key.model()) && self.entries()[key.model()]
                    == self.slots@[i as int].1,
                None => !self.entries().contains_key(key.model()),
            },
    {
        proof {
            use_type_invariant(self);
        }
        let mut i: usize = 0;
        while i < self.slots.len()
            invariant
                i <= self.slots.len(),
                slots_differ(self.slots@),
                forall|j: int| 0 <= j < i ==> !slot_at(self.slots@, key.model(), j),
            decreases self.slots.len() - i,
        {
            if self.slots[i].0.same(key) {
                proof {
                    assert(slot_at(self.slots@, key.model(), i as int));
                    lemma_slot(self.slots@, key.model(), i as int);
                }
                return Some(i);
            }
            i = i + 1;
        }
        None
    }

    /// What is kept for a pane.
    pub fn get(&self, key: &PaneCacheKey) -> (value: Option<&V>)
        ensures
            match value {
                Some(value) => self.entries().contains_key(key.model())
                    && self.entries()[key.model()] == *value,
                None => !self.entries().contains_key(key.model()),
            },
    {
        match self.find(key) {
            Some(i) => Some(&self.slots[i].1),
            None => None,
        }
    }

    /// Whether something is kept for a pane.
    pub fn contains(&self, key: &PaneCacheKey) -> (contains: bool)
        ensures
            contains == self.entries().contains_key(key.model()),
    {
        self.find(key).is_some()
    }

    /// Keeps a value for a pane, in the place of an earlier one.
    pub fn insert(&mut self, key: PaneCacheKey, value: V)
        ensures
            final(self).entries() == old(self).entries().insert(key.model(), value),
    {
        proof {
            use_type_invariant(&*self);
        }
        let found = self.find(&key);
        let ghost before = self.slots@;
        let ghost model = key.model();
        let mut slots: Vec<(PaneCacheKey, V)> = Vec::new();
        std::mem::swap(&mut slots, &mut self.slots);
        match found {
            Some(i) => {
                slots.set(i, (key, value));
                proof {
                    let after = slots@;
                    assert(after =~= before.update(i as int, (key, value)));
                    assert forall|a: int, b: int| 0 <= a < b < after.len() implies (
                    #[trigger] after[a]).0.model() != (#[trigger] after[b]).0.model() by {
                        assert(before[a].0.model() != before[b].0.model());
                    }
                    let expected = map_of(before).insert(model, value);
                    assert forall|other: PaneKeyModel|
                        #[trigger] map_of(after).contains_key(other) == expected.contains_key(other)
                            && (expected.contains_key(other) ==> map_of(after)[other]
                            == expected[other]) by {
                        if other == model {
                            assert(slot_at(after, other, i as int));
                            lemma_slot(after, other, i as int);
                        } else {
                            if map_of(before).contains_key(other) {
                                let k = choose|k: int| slot_at(before, other, k);
                                assert(slot_at(after, other, k));
                                lemma_slot(before, other, k);
                                lemma_slot(after, other, k);
                            }
                            if map_of(after).contains_key(other) {
                                let k = choose|k: int| slot_at(after, other, k);
                                assert(slot_at(before, other, k));
                            }
                        }
                    }
                    assert(map_of(after) =~= expected);
                }
            },
            None => {
                slots.push((key, value));
                proof {
                    lemma_slot_push(before, (key, value));
                }
            },
        }
        self.slots = slots;
    }

    /// The panes that something is kept for.
    pub fn keys(&self) -> (keys: Vec<PaneCacheKey>)
        ensures
            forall|key: PaneKeyModel|
                lists_key(keys@, key) <==> #[trigger] self.entries().contains_key(key),
    {
        proof {
            use_type_invariant(self);
        }
        let mut keys: Vec<PaneCacheKey> = Vec::new();
        let mut i: usize = 0;
        while i < self.slots.len()
            invariant
                i <= self.slots.len(),
                keys@.len() == i,
                forall|j: int|
                    0 <= j < i ==> (#[trigger] keys@[j]).model() == self.slots@[j].0.model(),
            decreases self.slots.len() - i,
        {
            keys.push(self.slots[i].0.clone());
            i = i + 1;
        }
        proof {
            assert forall|key: PaneKeyModel|
                lists_key(keys@, key) <==> #[trigger] self.entries().contains_key(key) by {
                if lists_key(keys@, key) {
                    let j = choose|j: int| 0 <= j < keys@.len() && (#[trigger] keys@[j]).model()
                        == key;
                    assert(slot_at(self.slots@, key, j));
                    lemma_slot(self.slots@, key, j);
                }
                if self.entries().contains_key(key) {
                    let j = choose|j: int| slot_at(self.slots@, key, j);
                    assert(keys@[j].model() == key);
                }
            }
        }
        keys
    }

    /// Forgets every pane but these.
    pub fn keep(&mut self, keys: &Vec<PaneCacheKey>)
        ensures
            final(self).entries() == kept(old(self).entries(), keys@),
    {
        proof {
            use_type_invariant(&*self);
        }
        let ghost before = self.slots@;
        let mut rest: Vec<(PaneCacheKey, V)> = Vec::new();
        std::mem::swap(&mut rest, &mut self.slots);
        let mut slots: Vec<(PaneCacheKey, V)> = Vec::new();
        assert(map_of(slots@) =~= Map::empty());
        let ghost all = kept(map_of(before), keys@);
        assert(map_of(before.skip(before.len() as int)) =~= Map::empty());
        assert(map_of(slots@) =~= kept(map_of(before.skip(before.len() as int)), keys@));
        assert(before.take(before.len() as int) =~= before);
        while rest.len() > 0
            invariant
                slots_differ(before),
                rest@ == before.take(rest@.len() as int),
                rest@.len() <= before.len(),
                slots_differ(slots@),
                map_of(slots@) == kept(map_of(before.skip(rest@.len() as int)), keys@),
            decreases rest.len(),
        {
            let ghost count = rest@.len();
            let ghost later = before.skip(count as int);
            let ghost now = before.skip(count - 1);
            match rest.pop() {
                Some(slot) => {
                    let ghost model = slot.0.model();
                    proof {
                        assert(slot == before[count - 1]);
                        assert(rest@ =~= before.take(count - 1));
                        assert(now =~= seq![slot] + later);
                        lemma_slot_front(now, later, slot);
                    }
                    if holds_key(keys, &slot.0) {
                        let ghost kept_slots = slots@;
                        slots.push(slot);
                        proof {
                            lemma_slot_push(kept_slots, slot);
                            assert(map_of(slots@) =~= kept(map_of(now), keys@));
                        }
                    } else {
                        assert(map_of(slots@) =~= kept(map_of(now), keys@));
                    }
                },
                None => {},
            }
        }
        assert(before.skip(0) =~= before);
        self.slots = slots;
    }
}

/// What is kept for some panes only.
pub open spec fn kept<V>(entries: Map<PaneKeyModel, V>, keys: Seq<PaneCacheKey>) -> Map<
    PaneKeyModel,
    V,
> {
    Map::new(
        |key: PaneKeyModel| entries.contains_key(key) && lists_key(keys, key),
        |key: PaneKeyModel| entries[key],
    )
}

proof fn lemma_slot_front<V>(
    whole: Seq<(PaneCacheKey, V)>,
    rest: Seq<(PaneCacheKey, V)>,
    slot: (PaneCacheKey, V),
)
    requires
        whole == seq![slot] + rest,
        slots_differ(whole),
    ensures
        slots_differ(rest),
        !map_of(rest).contains_key(slot.0.model()),
        map_of(whole) == map_of(rest).insert(slot.0.model(), slot.1),
{
    let key = slot.0.model();
    assert(whole[0] == slot);
    assert forall|i: int, j: int| 0 <= i < j < rest.len() implies (#[trigger] rest[i]).0.model()
        != (#[trigger] rest[j]).0.model() by {
        assert(rest[i] == whole[i + 1]);
        assert(rest[j] == whole[j + 1]);
    }
    if map_of(rest).contains_key(key) {
        let i = choose|i: int| slot_at(rest, key, i);
        assert(whole[i + 1] == rest[i]);
        assert(whole[0].0.model() != whole[i + 1].0.model());
    }
    let expected = map_of(rest).insert(key, slot.1);
    assert forall|other: PaneKeyModel|
        #[trigger] map_of(whole).contains_key(other) == expected.contains_key(other) && (
        expected.contains_key(other) ==> map_of(whole)[other] == expected[other]) by {
        if other == key {
            assert(slot_at(whole, key, 0));
            lemma_slot(whole, key, 0);
        } else {
            if map_of(rest).contains_key(other) {
                let i = choose|i: int| slot_at(rest, other, i);
                assert(whole[i + 1] == rest[i]);
                assert(slot_at(whole, other, i + 1));
                lemma_slot(rest, other, i);
                lemma_slot(whole, other, i + 1);
            }
            if map_of(whole).contains_key(other) {
                let i = choose|i: int| slot_at(whole, other, i);
                assert(rest[i - 1] == whole[i]);
                assert(slot_at(rest, other, i - 1));
            }
        }
    }
    assert(map_of(whole) =~= expected);
}

} // verus!
