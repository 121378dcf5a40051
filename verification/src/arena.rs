//! The local entity set: an arena of entities found by id, and the diff
//! that makes it follow an authoritative list of states.

use vstd::prelude::*;
use crate::model::{views, Keyed};

verus! {

/// One locally materialised entity.
#[derive(Debug)]
pub struct Slot<T> {
    /// What is known of the entity.
    pub state: T,
    /// Whether an authoritative list has mentioned the entity. An entity
    /// that was only created locally is not confirmed, and reconciliation
    /// never removes it.
    pub confirmed: bool,
    /// Whether the entity is scheduled for removal by the next sweep.
    pub despawn: bool,
}

/// Mathematical view of a [`Slot`].
pub struct SlotView<V> {
    pub state: V,
    pub confirmed: bool,
    pub despawn: bool,
}

impl<T: View> View for Slot<T> {
    type V = SlotView<T::V>;

    open spec fn view(&self) -> SlotView<T::V> {
        SlotView { state: self.state@, confirmed: self.confirmed, despawn: self.despawn }
    }
}

/// The slot that an authoritative entry gives rise to.
pub open spec fn confirmed_slot<V>(entry: V) -> SlotView<V> {
    SlotView { state: entry, confirmed: true, despawn: false }
}

/// The slot of an entity that was created locally and that no
/// authoritative list has mentioned yet.
pub open spec fn local_slot<V>(state: V) -> SlotView<V> {
    SlotView { state, confirmed: false, despawn: false }
}

/// Whether some slot carries the id.
pub open spec fn holds<T: Keyed>(slots: Seq<SlotView<T::V>>, id: Seq<char>) -> bool {
    exists|i: int| 0 <= i < slots.len() && T::key_of(#[trigger] slots[i].state) == id
}

/// Whether some entry of a list carries the id.
pub open spec fn lists<T: Keyed>(entries: Seq<T::V>, id: Seq<char>) -> bool {
    exists|j: int| 0 <= j < entries.len() && T::key_of(#[trigger] entries[j]) == id
}

/// The entry of a list that carries the id.
pub open spec fn entry_of<T: Keyed>(entries: Seq<T::V>, id: Seq<char>) -> T::V {
    entries[choose|j: int| 0 <= j < entries.len() && T::key_of(#[trigger] entries[j]) == id]
}

/// No two slots carry the same id.
pub open spec fn distinct_slots<T: Keyed>(slots: Seq<SlotView<T::V>>) -> bool {
    forall|i: int, j: int|
        0 <= i < j < slots.len() ==> T::key_of(#[trigger] slots[i].state) != T::key_of(
            #[trigger] slots[j].state,
        )
}

/// No two entries of a list carry the same id.
pub open spec fn distinct_entries<T: Keyed>(entries: Seq<T::V>) -> bool {
    forall|i: int, j: int|
        0 <= i < j < entries.len() ==> T::key_of(#[trigger] entries[i]) != T::key_of(
            #[trigger] entries[j],
        )
}

/// What reconciliation makes of one slot that existed before: overwritten
/// and confirmed where the list mentions its id, scheduled for removal where
/// the list omits an entity that it had confirmed earlier, left alone where
/// the entity was only ever local.
pub open spec fn settle<T: Keyed>(slot: SlotView<T::V>, entries: Seq<T::V>) -> SlotView<T::V> {
    let id = T::key_of(slot.state);
    if lists::<T>(entries, id) {
        confirmed_slot(entry_of::<T>(entries, id))
    } else if slot.confirmed {
        SlotView { state: slot.state, confirmed: true, despawn: true }
    } else {
        slot
    }
}

/// The slots that reconciliation creates: one for each entry whose id no
/// earlier slot carries, in the order of the list.
pub open spec fn fresh<T: Keyed>(before: Seq<SlotView<T::V>>, entries: Seq<T::V>) -> Seq<
    SlotView<T::V>,
>
    decreases entries.len(),
{
    if entries.len() == 0 {
        Seq::empty()
    } else {
        let rest = fresh::<T>(before, entries.drop_last());
        if holds::<T>(before, T::key_of(entries.last())) {
            rest
        } else {
            rest.push(confirmed_slot(entries.last()))
        }
    }
}

/// The arena after reconciliation against a list: the earlier slots, each
/// settled, followed by the fresh ones.
pub open spec fn reconciled<T: Keyed>(before: Seq<SlotView<T::V>>, entries: Seq<T::V>) -> Seq<
    SlotView<T::V>,
> {
    Seq::new(before.len(), |i: int| settle::<T>(before[i], entries)) + fresh::<T>(before, entries)
}

/// The arena after an entry was put into it as a confirmed entity: in
/// place of the slot that carries its id, or as a new last slot.
pub open spec fn upserted<T: Keyed>(slots: Seq<SlotView<T::V>>, entry: T::V) -> Seq<
    SlotView<T::V>,
> {
    if holds::<T>(slots, T::key_of(entry)) {
        Seq::new(
            slots.len(),
            |i: int|
                if T::key_of(slots[i].state) == T::key_of(entry) {
                    confirmed_slot(entry)
                } else {
                    slots[i]
                },
        )
    } else {
        slots.push(confirmed_slot(entry))
    }
}

/// The arena after every slot that carries the id was scheduled for
/// removal.
pub open spec fn flagged<T: Keyed>(slots: Seq<SlotView<T::V>>, id: Seq<char>) -> Seq<
    SlotView<T::V>,
> {
    Seq::new(
        slots.len(),
        |i: int|
            if T::key_of(slots[i].state) == id {
                SlotView { state: slots[i].state, confirmed: slots[i].confirmed, despawn: true }
            } else {
                slots[i]
            },
    )
}

/// The arena after the slot at an index was scheduled for removal.
pub open spec fn flagged_at<V>(slots: Seq<SlotView<V>>, at: int) -> Seq<SlotView<V>> {
    slots.update(
        at,
        SlotView { state: slots[at].state, confirmed: slots[at].confirmed, despawn: true },
    )
}

/// The slots that a sweep keeps, in order.
pub open spec fn survivors<V>(slots: Seq<SlotView<V>>) -> Seq<SlotView<V>>
    decreases slots.len(),
{
    if slots.len() == 0 {
        Seq::empty()
    } else if slots.last().despawn {
        survivors(slots.drop_last())
    } else {
        survivors(slots.drop_last()).push(slots.last())
    }
}

/// The ids of the slots that a sweep removes, in order.
pub open spec fn casualties<T: Keyed>(slots: Seq<SlotView<T::V>>) -> Seq<Seq<char>>
    decreases slots.len(),
{
    if slots.len() == 0 {
        Seq::empty()
    } else if slots.last().despawn {
        casualties::<T>(slots.drop_last()).push(T::key_of(slots.last().state))
    } else {
        casualties::<T>(slots.drop_last())
    }
}

/// The states of slots, in order.
pub open spec fn states_of<V>(slots: Seq<SlotView<V>>) -> Seq<V> {
    Seq::new(slots.len(), |i: int| slots[i].state)
}

/// Whether a slot is part of the authoritative picture: confirmed and not
/// scheduled for removal.
pub open spec fn is_live<V>(slot: SlotView<V>) -> bool {
    slot.confirmed && !slot.despawn
}

/// Whether some live slot carries the id.
pub open spec fn holds_live<T: Keyed>(slots: Seq<SlotView<T::V>>, id: Seq<char>) -> bool {
    exists|i: int|
        0 <= i < slots.len() && is_live(#[trigger] slots[i]) && T::key_of(slots[i].state) == id
}

/// The state of the live slot that carries the id.
pub open spec fn live_state<T: Keyed>(slots: Seq<SlotView<T::V>>, id: Seq<char>) -> T::V {
    slots[choose|i: int|
        0 <= i < slots.len() && is_live(#[trigger] slots[i]) && T::key_of(slots[i].state)
            == id].state
}

/// The authoritative picture that an arena holds: id to state, over its
/// live slots.
pub open spec fn live_map<T: Keyed>(slots: Seq<SlotView<T::V>>) -> Map<Seq<char>, T::V> {
    Map::new(|id: Seq<char>| holds_live::<T>(slots, id), |id: Seq<char>| live_state::<T>(slots, id))
}

/// The picture that a list of entries describes: id to state.
pub open spec fn entry_map<T: Keyed>(entries: Seq<T::V>) -> Map<Seq<char>, T::V> {
    Map::new(|id: Seq<char>| lists::<T>(entries, id), |id: Seq<char>| entry_of::<T>(entries, id))
}

/// An arena of entities, each found by its id.
pub struct Arena<T> {
    slots: Vec<Slot<T>>,
}

impl<T: Keyed> View for Arena<T> {
    type V = Seq<SlotView<T::V>>;

    closed spec fn view(&self) -> Seq<SlotView<T::V>> {
        views(self.slots@)
    }
}

impl<T: Keyed> Arena<T> {
    /// The arena's invariant: no two slots carry the same id.
    pub open spec fn wf(&self) -> bool {
        distinct_slots::<T>(self@)
    }

    /// An arena without entities.
    pub fn new() -> (arena: Self)
        ensures
            arena@ == Seq::<SlotView<T::V>>::empty(),
            arena.wf(),
    {
        let arena = Arena { slots: Vec::new() };
        assert(arena@ =~= Seq::<SlotView<T::V>>::empty());
        arena
    }

    /// The number of slots, those scheduled for removal included.
    pub fn len(&self) -> (n: usize)
        ensures
            n == self@.len(),
    {
        self.slots.len()
    }

    /// The slot at an index.
    pub fn slot(&self, i: usize) -> (slot: &Slot<T>)
        requires
            i < self@.len(),
        ensures
            slot@ == self@[i as int],
    {
        &self.slots[i]
    }

    /// The index of the first slot that carries the id.
    pub fn position(&self, id: &String) -> (found: Option<usize>)
        ensures
            match found {
                Some(i) => {
                    &&& i < self@.len()
                    &&& T::key_of(self@[i as int].state) == id@
                    &&& forall|j: int| 0 <= j < i ==> T::key_of(#[trigger] self@[j].state) != id@
                },
                None => !holds::<T>(self@, id@),
            },
    {
        let mut i: usize = 0;
        while i < self.slots.len()
            invariant
                i <= self.slots.len(),
                forall|j: int| 0 <= j < i ==> T::key_of(#[trigger] self@[j].state) != id@,
            decreases self.slots.len() - i,
        {
            if *self.slots[i].state.key() == *id {
                return Some(i);
            }
            i += 1;
        }
        None
    }

    /// Whether some slot carries the id.
    pub fn contains(&self, id: &String) -> (found: bool)
        ensures
            found == holds::<T>(self@, id@),
    {
        self.position(id).is_some()
    }

    /// Adds an entity that was created locally, ahead of any authoritative
    /// mention. Nothing is added where the id is already taken.
    pub fn insert_local(&mut self, state: T) -> (added: bool)
        requires
            old(self).wf(),
        ensures
            added == !holds::<T>(old(self)@, T::key_of(state@)),
            final(self)@ == if added {
                old(self)@.push(local_slot(state@))
            } else {
                old(self)@
            },
            final(self).wf(),
    {
        if self.position(state.key()).is_some() {
            return false;
        }
        let ghost before = self@;
        let ghost added_view = local_slot(state@);
        self.slots.push(Slot { state, confirmed: false, despawn: false });
        proof {
            assert(self@ =~= before.push(added_view));
            assert forall|a: int, b: int| 0 <= a < b < self@.len() implies T::key_of(
                #[trigger] self@[a].state,
            ) != T::key_of(#[trigger] self@[b].state) by {
                if b < before.len() {
                    assert(T::key_of(before[a].state) != T::key_of(before[b].state));
                } else {
                    assert(T::key_of(before[a].state) != T::key_of(added_view.state));
                }
            }
        }
        true
    }

    /// Puts an entity into the arena as a confirmed one: the entity with
    /// the same id is overwritten, and where there is none the entity is
    /// created. Tells whether it was created.
    pub fn upsert(&mut self, state: T) -> (created: bool)
        requires
            old(self).wf(),
        ensures
            created == !holds::<T>(old(self)@, T::key_of(state@)),
            final(self)@ == upserted::<T>(old(self)@, state@),
            final(self).wf(),
    {
        let ghost before = self@;
        let ghost entry = state@;
        proof {
            lemma_upserted_distinct::<T>(before, entry);
        }
        match self.position(state.key()) {
            Some(i) => {
                self.slots.set(i, Slot { state, confirmed: true, despawn: false });
                proof {
                    assert forall|x: int| 0 <= x < before.len() implies #[trigger] self@[x]
                        == upserted::<T>(before, entry)[x] by {
                        if x < i {
                        } else if x > i {
                            assert(T::key_of(before[i as int].state) != T::key_of(before[x].state));
                        }
                    }
                    assert(self@ =~= upserted::<T>(before, entry));
                }
                false
            },
            None => {
                self.slots.push(Slot { state, confirmed: true, despawn: false });
                assert(self@ =~= upserted::<T>(before, entry));
                true
            },
        }
    }

    /// Schedules the entity with the id for removal.
    pub fn flag(&mut self, id: &String) -> (found: bool)
        requires
            old(self).wf(),
        ensures
            found == holds::<T>(old(self)@, id@),
            final(self)@ == flagged::<T>(old(self)@, id@),
            final(self).wf(),
    {
        let ghost before = self@;
        match self.position(id) {
            Some(i) => {
                self.slots[i].despawn = true;
                proof {
                    assert forall|j: int| 0 <= j < before.len() implies #[trigger] self@[j]
                        == flagged::<T>(before, id@)[j] by {
                        if j < i {
                        } else if j > i {
                            assert(T::key_of(before[i as int].state) != T::key_of(before[j].state));
                        }
                    }
                    assert(self@ =~= flagged::<T>(before, id@));
                    assert forall|a: int, b: int| 0 <= a < b < self@.len() implies T::key_of(
                        #[trigger] self@[a].state,
                    ) != T::key_of(#[trigger] self@[b].state) by {
                        assert(T::key_of(before[a].state) != T::key_of(before[b].state));
                    }
                }
                true
            },
            None => {
                proof {
                    assert(self@ =~= flagged::<T>(before, id@));
                }
                false
            },
        }
    }

    /// Schedules the entity at an index for removal.
    pub fn flag_at(&mut self, i: usize)
        requires
            old(self).wf(),
            i < old(self)@.len(),
        ensures
            final(self)@ == flagged_at(old(self)@, i as int),
            final(self).wf(),
    {
        let ghost before = self@;
        self.slots[i].despawn = true;
        proof {
            assert(self@ =~= flagged_at(before, i as int));
            assert forall|a: int, b: int| 0 <= a < b < self@.len() implies T::key_of(
                #[trigger] self@[a].state,
            ) != T::key_of(#[trigger] self@[b].state) by {
                assert(T::key_of(before[a].state) != T::key_of(before[b].state));
            }
        }
    }

    /// Makes the arena follow an authoritative list: an entity that the list
    /// mentions is overwritten, or created where it did not exist; a
    /// confirmed entity that the list omits is scheduled for removal.
    /// Nothing is removed here: that is left to [`Arena::sweep`].
    pub fn reconcile(&mut self, entries: &Vec<T>)
        requires
            old(self).wf(),
            distinct_entries::<T>(views(entries@)),
        ensures
            final(self)@ == reconciled::<T>(old(self)@, views(entries@)),
            final(self).wf(),
    {
        let ghost before = self@;
        let ghost listed = views(entries@);
        let known: usize = self.slots.len();
        // The ids known before, each marked as the list mentions it.
        let mut mentioned: Vec<bool> = Vec::new();
        let mut k: usize = 0;
        while k < known
            invariant
                k <= known,
                mentioned.len() == k,
                forall|i: int| 0 <= i < k ==> !mentioned[i],
            decreases known - k,
        {
            mentioned.push(false);
            k += 1;
        }
        let mut j: usize = 0;
        while j < entries.len()
            invariant
                j <= entries.len(),
                known == before.len(),
                listed == views(entries@),
                distinct_entries::<T>(listed),
                distinct_slots::<T>(before),
                mentioned.len() == known,
                self@.len() == known + fresh::<T>(before, listed.take(j as int)).len(),
                forall|i: int|
                    0 <= i < known ==> mentioned[i] == lists::<T>(
                        listed.take(j as int),
                        T::key_of(#[trigger] before[i].state),
                    ),
                forall|i: int|
                    0 <= i < known ==> #[trigger] self@[i] == if lists::<T>(
                        listed.take(j as int),
                        T::key_of(before[i].state),
                    ) {
                        confirmed_slot(entry_of::<T>(listed, T::key_of(before[i].state)))
                    } else {
                        before[i]
                    },
                forall|m: int|
                    0 <= m < fresh::<T>(before, listed.take(j as int)).len() ==> #[trigger] self@[
                        known + m] == fresh::<T>(before, listed.take(j as int))[m],
            decreases entries.len() - j,
        {
            let entry = &entries[j];
            let ghost id = T::key_of(entry@);
            let ghost shorter = listed.take(j as int);
            let ghost longer = listed.take(j as int + 1);
            let ghost here = self@;
            proof {
                assert(listed[j as int] == entry@);
                lemma_fresh_step::<T>(before, listed, j as int);
                lemma_entry_of_own::<T>(listed, j as int);
                assert(distinct_entries::<T>(shorter)) by {
                    assert forall|a: int, b: int| 0 <= a < b < shorter.len() implies T::key_of(
                        #[trigger] shorter[a],
                    ) != T::key_of(#[trigger] shorter[b]) by {
                        assert(T::key_of(listed[a]) != T::key_of(listed[b]));
                    }
                }
                lemma_fresh_members::<T>(before, shorter);
                assert(!lists::<T>(shorter, id)) by {
                    if lists::<T>(shorter, id) {
                        let c = choose|c: int|
                            0 <= c < shorter.len() && T::key_of(#[trigger] shorter[c]) == id;
                        assert(T::key_of(listed[c]) != T::key_of(listed[j as int]));
                    }
                }
                assert forall|i: int| 0 <= i < known implies T::key_of(#[trigger] here[i].state)
                    == T::key_of(before[i].state) by {
                    if lists::<T>(shorter, T::key_of(before[i].state)) {
                        let c = choose|c: int|
                            0 <= c < shorter.len() && T::key_of(#[trigger] shorter[c]) == T::key_of(
                                before[i].state,
                            );
                        assert(T::key_of(listed[c]) == T::key_of(before[i].state));
                        lemma_entry_of_key::<T>(listed, T::key_of(before[i].state));
                    }
                }
                assert forall|i: int| 0 <= i < known implies lists::<T>(
                    longer,
                    T::key_of(#[trigger] before[i].state),
                ) == (lists::<T>(shorter, T::key_of(before[i].state)) || T::key_of(before[i].state)
                    == id) by {
                    lemma_lists_step::<T>(listed, j as int, T::key_of(before[i].state));
                }
            }
            match self.position(entry.key()) {
                Some(i) => {
                    proof {
                        if i >= known {
                            let m = i - known;
                            assert(here[known + m] == fresh::<T>(before, shorter)[m]);
                            assert(lists::<T>(shorter, id));
                        }
                        assert(holds::<T>(before, id));
                    }
                    mentioned.set(i, true);
                    let slot = Slot { state: entry.replica(), confirmed: true, despawn: false };
                    self.slots.set(i, slot);
                    proof {
                        assert forall|x: int| 0 <= x < known implies #[trigger] self@[x]
                            == if lists::<T>(longer, T::key_of(before[x].state)) {
                            confirmed_slot(entry_of::<T>(listed, T::key_of(before[x].state)))
                        } else {
                            before[x]
                        } by {
                            if x != i {
                                assert(self@[x] == here[x]);
                                if x < i {
                                    assert(T::key_of(before[x].state) != T::key_of(
                                        before[i as int].state,
                                    ));
                                } else {
                                    assert(T::key_of(before[i as int].state) != T::key_of(
                                        before[x].state,
                                    ));
                                }
                            }
                        }
                        assert forall|x: int| 0 <= x < known implies mentioned[x] == lists::<T>(
                            longer,
                            T::key_of(#[trigger] before[x].state),
                        ) by {
                            if x != i {
                                if x < i {
                                    assert(T::key_of(before[x].state) != T::key_of(
                                        before[i as int].state,
                                    ));
                                } else {
                                    assert(T::key_of(before[i as int].state) != T::key_of(
                                        before[x].state,
                                    ));
                                }
                            }
                        }
                        assert forall|m: int|
                            0 <= m < fresh::<T>(before, longer).len() implies #[trigger] self@[known
                            + m] == fresh::<T>(before, longer)[m] by {
                            assert(self@[known + m] == here[known + m]);
                        }
                    }
                },
                None => {
                    proof {
                        assert(!holds::<T>(before, id)) by {
                            if holds::<T>(before, id) {
                                let c = choose|c: int|
                                    0 <= c < before.len() && T::key_of(#[trigger] before[c].state)
                                        == id;
                                assert(T::key_of(here[c].state) == id);
                            }
                        }
                    }
                    let slot = Slot { state: entry.replica(), confirmed: true, despawn: false };
                    self.slots.push(slot);
                    proof {
                        assert forall|x: int| 0 <= x < known implies #[trigger] self@[x]
                            == if lists::<T>(longer, T::key_of(before[x].state)) {
                            confirmed_slot(entry_of::<T>(listed, T::key_of(before[x].state)))
                        } else {
                            before[x]
                        } by {
                            assert(self@[x] == here[x]);
                            assert(T::key_of(before[x].state) != id);
                        }
                        assert forall|m: int|
                            0 <= m < fresh::<T>(before, longer).len() implies #[trigger] self@[known
                            + m] == fresh::<T>(before, longer)[m] by {
                            if m < fresh::<T>(before, shorter).len() {
                                assert(self@[known + m] == here[known + m]);
                            }
                        }
                    }
                },
            }
            j += 1;
        }
        proof {
            assert(listed.take(entries.len() as int) =~= listed);
        }
        // Whatever the list did not mention is no longer part of the
        // authoritative state.
        let ghost halfway = self@;
        let mut i: usize = 0;
        while i < known
            invariant
                i <= known,
                known == before.len(),
                mentioned.len() == known,
                self@.len() == halfway.len(),
                halfway.len() == known + fresh::<T>(before, listed).len(),
                forall|x: int|
                    0 <= x < known ==> mentioned[x] == lists::<T>(
                        listed,
                        T::key_of(#[trigger] before[x].state),
                    ),
                forall|x: int|
                    0 <= x < known ==> #[trigger] halfway[x] == if lists::<T>(
                        listed,
                        T::key_of(before[x].state),
                    ) {
                        confirmed_slot(entry_of::<T>(listed, T::key_of(before[x].state)))
                    } else {
                        before[x]
                    },
                forall|m: int|
                    0 <= m < fresh::<T>(before, listed).len() ==> #[trigger] halfway[known + m]
                        == fresh::<T>(before, listed)[m],
                forall|x: int| 0 <= x < i ==> #[trigger] self@[x] == settle::<T>(before[x], listed),
                forall|x: int| i <= x < halfway.len() ==> #[trigger] self@[x] == halfway[x],
            decreases known - i,
        {
            let ghost here = self@;
            if !mentioned[i] && self.slots[i].confirmed {
                self.slots[i].despawn = true;
            }
            proof {
                assert(here[i as int] == halfway[i as int]);
                assert forall|x: int| 0 <= x < i + 1 implies #[trigger] self@[x] == settle::<T>(
                    before[x],
                    listed,
                ) by {
                    if x < i {
                        assert(self@[x] == here[x]);
                    }
                }
                assert forall|x: int| i + 1 <= x < halfway.len() implies #[trigger] self@[x]
                    == halfway[x] by {
                    assert(self@[x] == here[x]);
                }
            }
            i += 1;
        }
        proof {
            let after = reconciled::<T>(before, listed);
            assert forall|x: int| 0 <= x < self@.len() implies #[trigger] self@[x] == after[x] by {
                if x >= known {
                    assert(self@[x] == halfway[known + (x - known)]);
                }
            }
            assert(self@ =~= reconciled::<T>(before, listed));
            lemma_reconciled_distinct::<T>(before, listed);
        }
    }

    /// Removes every entity that is scheduled for removal and returns the
    /// ids of those it removed, in arena order.
    pub fn sweep(&mut self) -> (removed: Vec<String>)
        requires
            old(self).wf(),
        ensures
            final(self)@ == survivors(old(self)@),
            views(removed@) == casualties::<T>(old(self)@),
            final(self).wf(),
    {
        let ghost before = self@;
        let mut removed: Vec<String> = Vec::new();
        let ghost mut seen: int = 0;
        let mut i: usize = 0;
        while i < self.slots.len()
            invariant
                0 <= seen <= before.len(),
                i == survivors(before.take(seen)).len(),
                self@.len() == i + (before.len() - seen),
                forall|x: int|
                    0 <= x < i ==> #[trigger] self@[x] == survivors(before.take(seen))[x],
                forall|x: int|
                    i <= x < self@.len() ==> #[trigger] self@[x] == before[seen + (x - i)],
                views(removed@) == casualties::<T>(before.take(seen)),
            decreases before.len() - seen,
        {
            let ghost here = self@;
            let ghost gone = views(removed@);
            proof {
                assert(before.take(seen + 1).drop_last() =~= before.take(seen));
                assert(before.take(seen + 1).last() == before[seen]);
                assert(here[i as int] == before[seen]);
            }
            if self.slots[i].despawn {
                let slot = self.slots.remove(i);
                removed.push(slot.state.key().clone());
                proof {
                    assert(views(removed@) =~= gone.push(T::key_of(before[seen].state)));
                    assert forall|x: int| i <= x < self@.len() implies #[trigger] self@[x]
                        == before[seen + 1 + (x - i)] by {
                        assert(self@[x] == here[x + 1]);
                    }
                    assert forall|x: int| 0 <= x < i implies #[trigger] self@[x] == survivors(
                        before.take(seen + 1),
                    )[x] by {
                        assert(self@[x] == here[x]);
                    }
                }
            } else {
                i += 1;
            }
            proof {
                seen = seen + 1;
            }
        }
        proof {
            assert(before.take(seen) =~= before);
            assert(self@ =~= survivors(before));
            lemma_survivors_members(before);
            assert forall|a: int, b: int| 0 <= a < b < self@.len() implies T::key_of(
                #[trigger] self@[a].state,
            ) != T::key_of(#[trigger] self@[b].state) by {
                let (p, q) = choose|p: int, q: int|
                    0 <= p < q < before.len() && before[p] == survivors(before)[a] && before[q]
                        == survivors(before)[b];
                assert(T::key_of(before[p].state) != T::key_of(before[q].state));
            }
        }
        removed
    }

    /// Copies of the states of the entities that are not scheduled for
    /// removal, in arena order.
    pub fn current(&self) -> (states: Vec<T>)
        ensures
            views(states@) == states_of(survivors(self@)),
    {
        let mut states: Vec<T> = Vec::new();
        let mut i: usize = 0;
        while i < self.slots.len()
            invariant
                i <= self.slots.len(),
                views(states@) == states_of(survivors(self@.take(i as int))),
            decreases self.slots.len() - i,
        {
            let ghost sofar = views(states@);
            proof {
                assert(self@.take(i as int + 1).drop_last() =~= self@.take(i as int));
                assert(self@.take(i as int + 1).last() == self@[i as int]);
            }
            if !self.slots[i].despawn {
                states.push(self.slots[i].state.replica());
                assert(views(states@) =~= sofar.push(self@[i as int].state));
                assert(views(states@) =~= states_of(survivors(self@.take(i as int + 1))));
            }
            i += 1;
        }
        assert(self@.take(self.slots.len() as int) =~= self@);
        states
    }
}

/// Whether no two entries of a list carry the same id.
pub fn distinct_ids<T: Keyed>(entries: &Vec<T>) -> (ok: bool)
    ensures
        ok == distinct_entries::<T>(views(entries@)),
{
    let ghost listed = views(entries@);
    let mut j: usize = 0;
    while j < entries.len()
        invariant
            j <= entries.len(),
            listed == views(entries@),
            forall|a: int, b: int|
                0 <= a < b < j ==> T::key_of(#[trigger] listed[a]) != T::key_of(
                    #[trigger] listed[b],
                ),
        decreases entries.len() - j,
    {
        let mut i: usize = 0;
        while i < j
            invariant
                i <= j < entries.len(),
                listed == views(entries@),
                forall|a: int|
                    0 <= a < i ==> T::key_of(#[trigger] listed[a]) != T::key_of(listed[j as int]),
            decreases j - i,
        {
            if *entries[i].key() == *entries[j].key() {
                assert(T::key_of(listed[i as int]) == T::key_of(listed[j as int]));
                return false;
            }
            i += 1;
        }
        j += 1;
    }
    true
}

/// In a list without repeated ids, the entry found for the id of an entry
/// is that entry.
pub proof fn lemma_entry_of_own<T: Keyed>(entries: Seq<T::V>, j: int)
    requires
        distinct_entries::<T>(entries),
        0 <= j < entries.len(),
    ensures
        lists::<T>(entries, T::key_of(entries[j])),
        entry_of::<T>(entries, T::key_of(entries[j])) == entries[j],
{
    let id = T::key_of(entries[j]);
    let c = choose|c: int| 0 <= c < entries.len() && T::key_of(#[trigger] entries[c]) == id;
    if c < j {
        assert(T::key_of(entries[c]) != T::key_of(entries[j]));
    } else if j < c {
        assert(T::key_of(entries[j]) != T::key_of(entries[c]));
    }
}

/// The entry found for a listed id carries that id.
pub proof fn lemma_entry_of_key<T: Keyed>(entries: Seq<T::V>, id: Seq<char>)
    requires
        lists::<T>(entries, id),
    ensures
        T::key_of(entry_of::<T>(entries, id)) == id,
        entries.contains(entry_of::<T>(entries, id)),
{
}

/// A prefix one longer lists what the shorter one lists, and the id of the
/// added entry.
pub proof fn lemma_lists_step<T: Keyed>(entries: Seq<T::V>, j: int, id: Seq<char>)
    requires
        0 <= j < entries.len(),
    ensures
        lists::<T>(entries.take(j + 1), id) <==> (lists::<T>(entries.take(j), id) || T::key_of(
            entries[j],
        ) == id),
{
    let longer = entries.take(j + 1);
    let shorter = entries.take(j);
    if lists::<T>(longer, id) {
        let c = choose|c: int| 0 <= c < longer.len() && T::key_of(#[trigger] longer[c]) == id;
        if c < j {
            assert(T::key_of(shorter[c]) == id);
        }
    }
    if lists::<T>(shorter, id) {
        let c = choose|c: int| 0 <= c < shorter.len() && T::key_of(#[trigger] shorter[c]) == id;
        assert(T::key_of(longer[c]) == id);
    }
    if T::key_of(entries[j]) == id {
        assert(T::key_of(longer[j]) == id);
    }
}

/// How the fresh slots grow when the list grows by one entry.
pub proof fn lemma_fresh_step<T: Keyed>(before: Seq<SlotView<T::V>>, entries: Seq<T::V>, j: int)
    requires
        0 <= j < entries.len(),
    ensures
        fresh::<T>(before, entries.take(j + 1)) == if holds::<T>(before, T::key_of(entries[j])) {
            fresh::<T>(before, entries.take(j))
        } else {
            fresh::<T>(before, entries.take(j)).push(confirmed_slot(entries[j]))
        },
{
    assert(entries.take(j + 1).drop_last() =~= entries.take(j));
    assert(entries.take(j + 1).last() == entries[j]);
}

/// Every fresh slot stems from a listed entry that no earlier slot
/// carries, and no two fresh slots carry the same id.
pub proof fn lemma_fresh_members<T: Keyed>(before: Seq<SlotView<T::V>>, entries: Seq<T::V>)
    requires
        distinct_entries::<T>(entries),
    ensures
        distinct_slots::<T>(fresh::<T>(before, entries)),
        fresh::<T>(before, entries).len() <= entries.len(),
        forall|m: int|
            0 <= m < fresh::<T>(before, entries).len() ==> {
                let slot = #[trigger] fresh::<T>(before, entries)[m];
                &&& slot.confirmed
                &&& !slot.despawn
                &&& lists::<T>(entries, T::key_of(slot.state))
                &&& entry_of::<T>(entries, T::key_of(slot.state)) == slot.state
                &&& !holds::<T>(before, T::key_of(slot.state))
            },
    decreases entries.len(),
{
    if entries.len() > 0 {
        let shorter = entries.drop_last();
        let last = entries.last();
        let n = shorter.len() as int;
        assert(shorter =~= entries.take(n));
        assert(entries.take(n + 1) =~= entries);
        assert(distinct_entries::<T>(shorter)) by {
            assert forall|i: int, j: int| 0 <= i < j < shorter.len() implies T::key_of(
                #[trigger] shorter[i],
            ) != T::key_of(#[trigger] shorter[j]) by {
                assert(T::key_of(entries[i]) != T::key_of(entries[j]));
            }
        }
        lemma_fresh_members::<T>(before, shorter);
        let rest = fresh::<T>(before, shorter);
        let all = fresh::<T>(before, entries);
        assert forall|m: int| 0 <= m < all.len() implies {
            let slot = #[trigger] all[m];
            &&& slot.confirmed
            &&& !slot.despawn
            &&& lists::<T>(entries, T::key_of(slot.state))
            &&& entry_of::<T>(entries, T::key_of(slot.state)) == slot.state
            &&& !holds::<T>(before, T::key_of(slot.state))
        } by {
            let slot = all[m];
            if m < rest.len() {
                assert(slot == rest[m]);
                let id = T::key_of(slot.state);
                let c = choose|c: int|
                    0 <= c < shorter.len() && T::key_of(#[trigger] shorter[c]) == id;
                assert(shorter[c] == entries[c]);
                lemma_entry_of_own::<T>(shorter, c);
                lemma_entry_of_own::<T>(entries, c);
            } else {
                assert(slot == confirmed_slot(last));
                lemma_entry_of_own::<T>(entries, n);
            }
        }
        assert(distinct_slots::<T>(all)) by {
            assert forall|a: int, b: int| 0 <= a < b < all.len() implies T::key_of(
                #[trigger] all[a].state,
            ) != T::key_of(#[trigger] all[b].state) by {
                if b < rest.len() {
                    assert(all[a] == rest[a] && all[b] == rest[b]);
                } else {
                    assert(all[a] == rest[a]);
                    let id = T::key_of(rest[a].state);
                    let c = choose|c: int|
                        0 <= c < shorter.len() && T::key_of(#[trigger] shorter[c]) == id;
                    assert(T::key_of(entries[c]) != T::key_of(entries[n]));
                }
            }
        }
    }
}

/// An entry whose id no earlier slot carries has a fresh slot.
pub proof fn lemma_fresh_covers<T: Keyed>(before: Seq<SlotView<T::V>>, entries: Seq<T::V>, j: int)
    requires
        0 <= j < entries.len(),
        !holds::<T>(before, T::key_of(entries[j])),
    ensures
        exists|m: int|
            0 <= m < fresh::<T>(before, entries).len() && #[trigger] fresh::<T>(before, entries)[m]
                == confirmed_slot(entries[j]),
    decreases entries.len(),
{
    let all = fresh::<T>(before, entries);
    let rest = fresh::<T>(before, entries.drop_last());
    if j == entries.len() - 1 {
        assert(all[rest.len() as int] == confirmed_slot(entries[j]));
    } else {
        lemma_fresh_covers::<T>(before, entries.drop_last(), j);
        let wanted = confirmed_slot(entries.drop_last()[j]);
        let m = choose|m: int| 0 <= m < rest.len() && #[trigger] rest[m] == wanted;
        assert(all[m] == rest[m]);
    }
}

/// Reconciliation keeps the ids of an arena apart.
pub proof fn lemma_reconciled_distinct<T: Keyed>(before: Seq<SlotView<T::V>>, entries: Seq<T::V>)
    requires
        distinct_slots::<T>(before),
        distinct_entries::<T>(entries),
    ensures
        distinct_slots::<T>(reconciled::<T>(before, entries)),
        forall|i: int|
            0 <= i < before.len() ==> T::key_of(
                #[trigger] reconciled::<T>(before, entries)[i].state,
            ) == T::key_of(before[i].state),
{
    let after = reconciled::<T>(before, entries);
    let added = fresh::<T>(before, entries);
    lemma_fresh_members::<T>(before, entries);
    assert forall|i: int| 0 <= i < before.len() implies T::key_of(#[trigger] after[i].state)
        == T::key_of(before[i].state) by {
        let id = T::key_of(before[i].state);
        assert(after[i] == settle::<T>(before[i], entries));
        if lists::<T>(entries, id) {
            lemma_entry_of_key::<T>(entries, id);
        }
    }
    assert forall|a: int, b: int| 0 <= a < b < after.len() implies T::key_of(
        #[trigger] after[a].state,
    ) != T::key_of(#[trigger] after[b].state) by {
        if b < before.len() {
            assert(T::key_of(before[a].state) != T::key_of(before[b].state));
        } else if a < before.len() {
            assert(after[b] == added[b - before.len()]);
            assert(!holds::<T>(before, T::key_of(added[b - before.len()].state)));
            assert(T::key_of(before[a].state) == T::key_of(after[a].state));
        } else {
            assert(after[a] == added[a - before.len()]);
            assert(after[b] == added[b - before.len()]);
        }
    }
}

/// After reconciliation the authoritative picture of the arena is the
/// picture that the list describes: nothing stale, nothing missing, every
/// state as listed.
pub proof fn lemma_reconciled_picture<T: Keyed>(before: Seq<SlotView<T::V>>, entries: Seq<T::V>)
    requires
        distinct_slots::<T>(before),
        distinct_entries::<T>(entries),
    ensures
        live_map::<T>(reconciled::<T>(before, entries)) == entry_map::<T>(entries),
{
    let after = reconciled::<T>(before, entries);
    let added = fresh::<T>(before, entries);
    lemma_fresh_members::<T>(before, entries);
    lemma_reconciled_distinct::<T>(before, entries);
    assert forall|id: Seq<char>| holds_live::<T>(after, id) implies lists::<T>(entries, id) by {
        let i = choose|i: int|
            0 <= i < after.len() && is_live(#[trigger] after[i]) && T::key_of(after[i].state) == id;
        if i < before.len() {
            assert(after[i] == settle::<T>(before[i], entries));
            assert(T::key_of(after[i].state) == T::key_of(before[i].state));
        } else {
            assert(after[i] == added[i - before.len()]);
        }
    }
    assert forall|id: Seq<char>| lists::<T>(entries, id) implies holds_live::<T>(after, id)
        && live_state::<T>(after, id) == entry_of::<T>(entries, id) by {
        lemma_entry_of_key::<T>(entries, id);
        let j = choose|j: int| 0 <= j < entries.len() && T::key_of(#[trigger] entries[j]) == id;
        let w: int = if holds::<T>(before, id) {
            let i = choose|i: int|
                0 <= i < before.len() && T::key_of(#[trigger] before[i].state) == id;
            assert(after[i] == settle::<T>(before[i], entries));
            i
        } else {
            lemma_fresh_covers::<T>(before, entries, j);
            let m = choose|m: int|
                0 <= m < added.len() && #[trigger] added[m] == confirmed_slot(entries[j]);
            assert(after[before.len() + m] == added[m]);
            before.len() + m
        };
        assert(is_live(after[w]) && T::key_of(after[w].state) == id);
        assert(after[w].state == entry_of::<T>(entries, id));
        let c = choose|c: int|
            0 <= c < after.len() && is_live(#[trigger] after[c]) && T::key_of(after[c].state) == id;
        if c < w {
            assert(T::key_of(after[c].state) != T::key_of(after[w].state));
        } else if w < c {
            assert(T::key_of(after[w].state) != T::key_of(after[c].state));
        }
    }
    assert(live_map::<T>(after) =~= entry_map::<T>(entries));
}

/// Scheduling entities for removal changes no id: the arena holds the
/// same ids as before.
pub proof fn lemma_flagged_holds<T: Keyed>(
    slots: Seq<SlotView<T::V>>,
    flagged_id: Seq<char>,
    id: Seq<char>,
)
    ensures
        holds::<T>(flagged::<T>(slots, flagged_id), id) == holds::<T>(slots, id),
{
    let after = flagged::<T>(slots, flagged_id);
    if holds::<T>(slots, id) {
        let i = choose|i: int| 0 <= i < slots.len() && T::key_of(#[trigger] slots[i].state) == id;
        assert(T::key_of(after[i].state) == id);
    }
    if holds::<T>(after, id) {
        let i = choose|i: int| 0 <= i < after.len() && T::key_of(#[trigger] after[i].state) == id;
        assert(T::key_of(slots[i].state) == id);
    }
}

/// Putting an entry into an arena keeps its ids apart.
pub proof fn lemma_upserted_distinct<T: Keyed>(slots: Seq<SlotView<T::V>>, entry: T::V)
    requires
        distinct_slots::<T>(slots),
    ensures
        distinct_slots::<T>(upserted::<T>(slots, entry)),
{
    let after = upserted::<T>(slots, entry);
    assert forall|a: int, b: int| 0 <= a < b < after.len() implies T::key_of(
        #[trigger] after[a].state,
    ) != T::key_of(#[trigger] after[b].state) by {
        if b < slots.len() {
            assert(T::key_of(slots[a].state) != T::key_of(slots[b].state));
        } else {
            assert(T::key_of(slots[a].state) != T::key_of(entry));
        }
    }
}

/// A sweep keeps slots in their order: any two survivors stood in the
/// same order before, and none of them was scheduled for removal.
pub proof fn lemma_survivors_members<V>(slots: Seq<SlotView<V>>)
    ensures
        survivors(slots).len() <= slots.len(),
        forall|a: int|
            0 <= a < survivors(slots).len() ==> !(#[trigger] survivors(slots)[a]).despawn
                && slots.contains(survivors(slots)[a]),
        forall|a: int, b: int|
            0 <= a < b < survivors(slots).len() ==> exists|p: int, q: int|
                0 <= p < q < slots.len() && slots[p] == #[trigger] survivors(slots)[a] && slots[q]
                    == #[trigger] survivors(slots)[b],
    decreases slots.len(),
{
    if slots.len() > 0 {
        let shorter = slots.drop_last();
        lemma_survivors_members(shorter);
        let kept = survivors(slots);
        let rest = survivors(shorter);
        assert forall|a: int| 0 <= a < kept.len() implies !(#[trigger] kept[a]).despawn
            && slots.contains(kept[a]) by {
            if a < rest.len() {
                assert(kept[a] == rest[a]);
                let p = choose|p: int| 0 <= p < shorter.len() && shorter[p] == rest[a];
                assert(slots[p] == rest[a]);
            } else {
                assert(slots[slots.len() - 1] == kept[a]);
            }
        }
        assert forall|a: int, b: int| 0 <= a < b < kept.len() implies exists|p: int, q: int|
            0 <= p < q < slots.len() && slots[p] == #[trigger] kept[a] && slots[q]
                == #[trigger] kept[b] by {
            if b < rest.len() {
                assert(kept[a] == rest[a] && kept[b] == rest[b]);
                let (p, q) = choose|p: int, q: int|
                    0 <= p < q < shorter.len() && shorter[p] == rest[a] && shorter[q] == rest[b];
                assert(slots[p] == kept[a] && slots[q] == kept[b]);
            } else {
                assert(kept[a] == rest[a]);
                let p = choose|p: int| 0 <= p < shorter.len() && shorter[p] == rest[a];
                let q = slots.len() - 1;
                assert(slots[p] == kept[a] && slots[q] == kept[b]);
            }
        }
    }
}

/// A sweep keeps every slot that is not scheduled for removal.
pub proof fn lemma_survivors_cover<V>(slots: Seq<SlotView<V>>, i: int)
    requires
        0 <= i < slots.len(),
        !slots[i].despawn,
    ensures
        survivors(slots).contains(slots[i]),
    decreases slots.len(),
{
    let kept = survivors(slots);
    let rest = survivors(slots.drop_last());
    if i == slots.len() - 1 {
        assert(kept[rest.len() as int] == slots[i]);
    } else {
        lemma_survivors_cover(slots.drop_last(), i);
        let m = choose|m: int| 0 <= m < rest.len() && rest[m] == slots.drop_last()[i];
        assert(kept[m] == rest[m]);
    }
}

/// Slots with distinct ids have states with distinct ids, and a sweep
/// keeps ids distinct.
pub proof fn lemma_survivors_distinct<T: Keyed>(slots: Seq<SlotView<T::V>>)
    requires
        distinct_slots::<T>(slots),
    ensures
        distinct_slots::<T>(survivors(slots)),
        distinct_entries::<T>(states_of(survivors(slots))),
{
    lemma_survivors_members(slots);
    let kept = survivors(slots);
    assert forall|a: int, b: int| 0 <= a < b < kept.len() implies T::key_of(
        #[trigger] kept[a].state,
    ) != T::key_of(#[trigger] kept[b].state) by {
        let (p, q) = choose|p: int, q: int|
            0 <= p < q < slots.len() && slots[p] == kept[a] && slots[q] == kept[b];
        assert(T::key_of(slots[p].state) != T::key_of(slots[q].state));
    }
    assert forall|a: int, b: int| 0 <= a < b < states_of(kept).len() implies T::key_of(
        #[trigger] states_of(kept)[a],
    ) != T::key_of(#[trigger] states_of(kept)[b]) by {
        assert(T::key_of(kept[a].state) != T::key_of(kept[b].state));
    }
}

/// The teardown pass leaves the authoritative picture as it is.
pub proof fn lemma_sweep_keeps_picture<T: Keyed>(slots: Seq<SlotView<T::V>>)
    requires
        distinct_slots::<T>(slots),
    ensures
        live_map::<T>(survivors(slots)) == live_map::<T>(slots),
{
    let kept = survivors(slots);
    lemma_survivors_members(slots);
    lemma_survivors_distinct::<T>(slots);
    assert forall|id: Seq<char>| holds_live::<T>(kept, id) implies holds_live::<T>(slots, id)
        && live_state::<T>(slots, id) == live_state::<T>(kept, id) by {
        let a = choose|a: int|
            0 <= a < kept.len() && is_live(#[trigger] kept[a]) && T::key_of(kept[a].state) == id;
        let p = choose|p: int| 0 <= p < slots.len() && slots[p] == kept[a];
        assert(is_live(slots[p]) && T::key_of(slots[p].state) == id);
        let c = choose|c: int|
            0 <= c < slots.len() && is_live(#[trigger] slots[c]) && T::key_of(slots[c].state) == id;
        if c < p {
            assert(T::key_of(slots[c].state) != T::key_of(slots[p].state));
        } else if p < c {
            assert(T::key_of(slots[p].state) != T::key_of(slots[c].state));
        }
    }
    assert forall|id: Seq<char>| holds_live::<T>(slots, id) implies holds_live::<T>(kept, id) by {
        let c = choose|c: int|
            0 <= c < slots.len() && is_live(#[trigger] slots[c]) && T::key_of(slots[c].state) == id;
        lemma_survivors_cover(slots, c);
        let a = choose|a: int| 0 <= a < kept.len() && kept[a] == slots[c];
        assert(is_live(kept[a]) && T::key_of(kept[a].state) == id);
    }
    assert(live_map::<T>(kept) =~= live_map::<T>(slots));
}

} // verus!
