//! Which spawner slot each client of a host holds.

use std::collections::BTreeMap;
use vstd::prelude::*;
use vstd::set_lib::{
    lemma_int_range, lemma_len_subset, lemma_map_size, lemma_subset_equality, set_int_range,
};
use vstd::std_specs::btree::{increasing_seq, spec_btree_map_iter};
use vstd::std_specs::cmp::OrdSpec;
use vstd::std_specs::iter::IteratorSpec;

verus! {

broadcast use vstd::laws_cmp::group_laws_cmp;

/// On a host: which spawner slot each verified client holds. Slot 0 is the host's own;
/// `1..=255` are handed out lowest-free-first and given back when the client leaves, so a rejoin
/// can get its old number back and a 256th client is refused rather than given somebody else's.
#[derive(Debug, Clone)]
pub struct SpawnerSlots {
    by_uuid: BTreeMap<u128, u8>,
}

impl View for SpawnerSlots {
    type V = Map<u128, u8>;

    closed spec fn view(&self) -> Map<u128, u8> {
        self.by_uuid@
    }
}

/// Whether no client of `slots` holds `slot`.
pub open spec fn is_free(slots: Map<u128, u8>, slot: u8) -> bool {
    forall|uuid: u128| #[trigger] slots.contains_key(uuid) ==> slots[uuid] != slot
}

/// Whether `slot` is the lowest that a client may be given.
pub open spec fn is_lowest_free(slots: Map<u128, u8>, slot: u8) -> bool {
    &&& 1 <= slot
    &&& is_free(slots, slot)
    &&& forall|lower: u8| 1 <= lower < slot ==> !#[trigger] is_free(slots, lower)
}

/// Whether every slot is one that a client may be given, and no two clients hold the same.
pub open spec fn are_valid(slots: Map<u128, u8>) -> bool {
    &&& slots.dom().finite()
    &&& forall|uuid: u128| #[trigger] slots.contains_key(uuid) ==> slots[uuid] >= 1
    &&& forall|one: u128, other: u128|
        #![trigger slots[one], slots[other]]
        slots.contains_key(one) && slots.contains_key(other) && slots[one] == slots[other] ==> one
            == other
}

/// Whether `next` and `given` are what assigning a slot to `uuid` gives.
pub open spec fn is_assignment(
    slots: Map<u128, u8>,
    uuid: u128,
    next: Map<u128, u8>,
    given: Option<u8>,
) -> bool {
    if slots.contains_key(uuid) {
        given == Some(slots[uuid]) && next == slots
    } else {
        match given {
            Some(slot) => is_lowest_free(slots, slot) && next == slots.insert(uuid, slot),
            None => next == slots && forall|slot: u8| 1 <= slot ==> !#[trigger] is_free(slots, slot),
        }
    }
}

/// The slot that `uuid` holds, or else the lowest free one.
pub open spec fn next_slot(slots: Map<u128, u8>, uuid: u128) -> Option<u8> {
    if slots.contains_key(uuid) {
        Some(slots[uuid])
    } else if exists|slot: u8| is_lowest_free(slots, slot) {
        Some(choose|slot: u8| is_lowest_free(slots, slot))
    } else {
        None
    }
}

/// The slots once `uuid` has been given one, where there is one to give.
pub open spec fn with_slot(slots: Map<u128, u8>, uuid: u128) -> Map<u128, u8> {
    match next_slot(slots, uuid) {
        Some(slot) => slots.insert(uuid, slot),
        None => slots,
    }
}

/// Whether `list` names every client of `slots` with its slot, by uuid.
pub open spec fn is_listing(slots: Map<u128, u8>, list: Seq<(u128, u8)>) -> bool {
    &&& forall|j: int, k: int|
        0 <= j < k < list.len() ==> (#[trigger] list[j]).0 < (#[trigger] list[k]).0
    &&& forall|k: int|
        0 <= k < list.len() ==> slots.contains_key((#[trigger] list[k]).0) && slots[list[k].0]
            == list[k].1
    &&& forall|uuid: u128| #[trigger] slots.contains_key(uuid) ==> list.contains((uuid, slots[uuid]))
}

impl SpawnerSlots {
    /// Whether every slot is one that a client may be given, and no two clients hold the same.
    pub open spec fn wf(&self) -> bool {
        are_valid(self@)
    }

    /// Nobody holds a slot.
    pub fn new() -> (slots: SpawnerSlots)
        ensures
            slots@ == Map::<u128, u8>::empty(),
            slots.wf(),
    {
        SpawnerSlots { by_uuid: BTreeMap::new() }
    }

    /// `(uuid, slot)` for every client holding one, by uuid.
    pub fn iter(&self) -> (list: Vec<(u128, u8)>)
        ensures
            is_listing(self@, list@),
    {
        let mut list: Vec<(u128, u8)> = Vec::new();
        let all = self.by_uuid.iter();
        let ghost entries = all.remaining();
        let ghost uuids = entries.map_values(|entry: (&u128, &u8)| *entry.0);
        assert(entries == spec_btree_map_iter(&self.by_uuid).remaining());
        for entry in it: all
            invariant
                it.seq() == entries,
                list@.len() == it.index(),
                forall|k: int|
                    0 <= k < list@.len() ==> #[trigger] list@[k] == (*entries[k].0, *entries[k].1),
        {
            list.push((*entry.0, *entry.1));
        }
        proof {
            assert(increasing_seq(uuids));
            assert forall|j: int, k: int| 0 <= j < k < list@.len() implies (#[trigger] list@[j]).0
                < (#[trigger] list@[k]).0 by {
                assert(uuids[j] == list@[j].0 && uuids[k] == list@[k].0);
                assert(uuids[j].cmp_spec(&uuids[k]) is Less);
            }
            assert forall|uuid: u128| #[trigger] self@.contains_key(uuid) implies list@.contains(
                (uuid, self@[uuid]),
            ) by {
                assert(entries.contains((&uuid, &self@[uuid])));
                let k = choose|k: int| 0 <= k < entries.len() && entries[k] == (&uuid, &self@[uuid]);
                assert(list@[k] == (uuid, self@[uuid]));
            }
        }
        list
    }

    /// Whether a client holds `slot`.
    fn is_taken(&self, slot: u8) -> (taken: bool)
        ensures
            taken == !is_free(self@, slot),
    {
        let list = self.iter();
        let mut index: usize = 0;
        while index < list.len()
            invariant
                index <= list@.len(),
                is_listing(self@, list@),
                forall|k: int| 0 <= k < index ==> (#[trigger] list@[k]).1 != slot,
            decreases list@.len() - index,
        {
            if list[index].1 == slot {
                assert(self@.contains_key(list@[index as int].0));
                return true;
            }
            index = index + 1;
        }
        assert forall|uuid: u128| #[trigger] self@.contains_key(uuid) implies self@[uuid]
            != slot by {
            assert(list@.contains((uuid, self@[uuid])));
        }
        false
    }

    /// The slot `uuid` holds, or the lowest free one from now on. `None` when all 255 are taken.
    pub fn assign(&mut self, uuid: u128) -> (given: Option<u8>)
        requires
            old(self).wf(),
        ensures
            final(self).wf(),
            is_assignment(old(self)@, uuid, final(self)@, given),
    {
        if let Some(slot) = self.by_uuid.get(&uuid) {
            return Some(*slot);
        }
        let mut slot: u8 = 1;
        while self.is_taken(slot)
            invariant
                self@ == old(self)@,
                old(self).wf(),
                !self@.contains_key(uuid),
                1 <= slot,
                forall|lower: u8| 1 <= lower < slot ==> !#[trigger] is_free(self@, lower),
            decreases 255 - slot,
        {
            if slot == 255 {
                return None;
            }
            slot = slot + 1;
        }
        self.by_uuid.insert(uuid, slot);
        Some(slot)
    }

    /// `uuid` holds no slot from now on.
    pub fn free(&mut self, uuid: u128)
        requires
            old(self).wf(),
        ensures
            final(self).wf(),
            final(self)@ == old(self)@.remove(uuid),
    {
        self.by_uuid.remove(&uuid);
    }

    /// The slot `uuid` holds.
    pub fn slot_of(&self, uuid: u128) -> (slot: Option<u8>)
        ensures
            slot == (if self@.contains_key(uuid) {
                Some(self@[uuid])
            } else {
                None
            }),
    {
        match self.by_uuid.get(&uuid) {
            Some(slot) => Some(*slot),
            None => None,
        }
    }

    /// How many clients hold a slot.
    pub fn len(&self) -> (count: usize)
        ensures
            count == self@.len(),
    {
        self.by_uuid.len()
    }

    /// Whether nobody holds a slot.
    pub fn is_empty(&self) -> (empty: bool)
        ensures
            empty == (self@.len() == 0),
    {
        let empty = self.by_uuid.is_empty();
        assert(self@.dom().finite());
        empty
    }
}

impl Default for SpawnerSlots {
    fn default() -> (slots: Self)
        ensures
            slots@ == Map::<u128, u8>::empty(),
            slots.wf(),
    {
        SpawnerSlots::new()
    }
}

/// There is one way to assign a slot.
pub proof fn lemma_assignment(
    slots: Map<u128, u8>,
    uuid: u128,
    next: Map<u128, u8>,
    given: Option<u8>,
)
    requires
        is_assignment(slots, uuid, next, given),
    ensures
        given == next_slot(slots, uuid),
        next == with_slot(slots, uuid),
{
    if slots.contains_key(uuid) {
        assert(slots.insert(uuid, slots[uuid]) =~= slots);
    } else if let Some(slot) = given {
        let other = choose|other: u8| is_lowest_free(slots, other);
        assert(is_lowest_free(slots, other));
        if other < slot {
            assert(!is_free(slots, other));
        }
        if slot < other {
            assert(!is_free(slots, slot));
        }
    } else if exists|slot: u8| is_lowest_free(slots, slot) {
        let slot = choose|slot: u8| is_lowest_free(slots, slot);
        assert(!is_free(slots, slot));
    }
}

/// At most 255 clients hold a slot, and a slot is free exactly when fewer do.
pub proof fn lemma_slots_run_out_at_255(slots: Map<u128, u8>)
    requires
        are_valid(slots),
    ensures
        slots.len() <= 255,
        slots.len() == 255 <==> forall|slot: u8| 1 <= slot ==> !#[trigger] is_free(slots, slot),
{
    let number = |uuid: u128| slots[uuid] as int;
    let taken = slots.dom().map(number);
    let range = set_int_range(1, 256);
    lemma_int_range(1, 256);
    lemma_map_size(slots.dom(), taken, number);
    assert(taken.subset_of(range));
    lemma_len_subset(taken, range);
    if forall|slot: u8| 1 <= slot ==> !#[trigger] is_free(slots, slot) {
        assert forall|n: int| range.contains(n) implies taken.contains(n) by {
            assert(!is_free(slots, n as u8));
            let uuid = choose|uuid: u128| #[trigger] slots.contains_key(uuid) && slots[uuid] == n as u8;
            assert(slots.dom().contains(uuid) && number(uuid) == n);
        }
        assert(taken =~= range);
    }
    if slots.len() == 255 {
        lemma_subset_equality(taken, range);
        assert forall|slot: u8| 1 <= slot implies !#[trigger] is_free(slots, slot) by {
            assert(range.contains(slot as int));
            assert(taken.contains(slot as int));
            let uuid = choose|uuid: u128| slots.dom().contains(uuid) && number(uuid) == slot as int;
            assert(slots.contains_key(uuid) && slots[uuid] == slot);
        }
    }
}

/// A client is refused a slot exactly when it holds none and 255 others do.
pub proof fn lemma_refused_only_when_full(
    slots: Map<u128, u8>,
    uuid: u128,
    next: Map<u128, u8>,
    given: Option<u8>,
)
    requires
        are_valid(slots),
        is_assignment(slots, uuid, next, given),
    ensures
        given is None <==> !slots.contains_key(uuid) && slots.len() == 255,
{
    lemma_slots_run_out_at_255(slots);
    if let Some(slot) = given {
        if !slots.contains_key(uuid) {
            assert(is_free(slots, slot));
        }
    }
}

/// A client that leaves and comes back before anybody else joins gets a slot, and the one it had
/// unless a lower one was free.
pub proof fn lemma_rejoin_gets_slot_back(
    slots: Map<u128, u8>,
    uuid: u128,
    next: Map<u128, u8>,
    given: Option<u8>,
)
    requires
        are_valid(slots),
        slots.contains_key(uuid),
        is_assignment(slots.remove(uuid), uuid, next, given),
    ensures
        given matches Some(slot) && slot <= slots[uuid] && (slot == slots[uuid] || is_free(
            slots,
            slot,
        )),
{
    let rest = slots.remove(uuid);
    let had = slots[uuid];
    assert(is_free(rest, had)) by {
        assert forall|other: u128| #[trigger] rest.contains_key(other) implies rest[other]
            != had by {
            assert(slots.contains_key(other) && slots[other] == rest[other]);
        }
    }
    if let Some(slot) = given {
        if slot != had {
            assert forall|other: u128| #[trigger] slots.contains_key(other) implies slots[other]
                != slot by {
                if other != uuid {
                    assert(rest.contains_key(other));
                }
            }
        }
    }
}

/// Giving out a slot keeps slots valid, and nobody is given the host's.
pub proof fn lemma_with_slot_is_valid(slots: Map<u128, u8>, uuid: u128)
    requires
        are_valid(slots),
    ensures
        are_valid(with_slot(slots, uuid)),
        next_slot(slots, uuid) matches Some(slot) ==> slot >= 1,
{
    if let Some(slot) = next_slot(slots, uuid) {
        if slots.contains_key(uuid) {
            assert(slots.insert(uuid, slot) =~= slots);
        } else {
            assert(is_lowest_free(slots, slot));
        }
    }
}

/// A client that holds a slot keeps it. Another is given one that nobody holds, above the host's
/// and with every slot below it held by somebody; and nobody else's slot changes.
pub proof fn lemma_lowest_free_slot_is_given(
    slots: Map<u128, u8>,
    uuid: u128,
    next: Map<u128, u8>,
    given: Option<u8>,
)
    requires
        is_assignment(slots, uuid, next, given),
    ensures
        slots.contains_key(uuid) ==> given == Some(slots[uuid]) && next == slots,
        given matches Some(slot) ==> next.contains_key(uuid) && next[uuid] == slot,
        given is None ==> next == slots,
        forall|other: u128| #[trigger]
            next.contains_key(other) && other != uuid <==> slots.contains_key(other) && other != uuid,
        forall|other: u128|
            other != uuid && slots.contains_key(other) ==> #[trigger] next[other] == slots[other],
        !slots.contains_key(uuid) ==> (given matches Some(slot) ==> {
            &&& slot >= 1
            &&& forall|other: u128| slots.contains_key(other) ==> #[trigger] slots[other] != slot
            &&& forall|lower: u8|
                1 <= lower < slot ==> #[trigger] slots.values().contains(lower)
        }),
{
    if !slots.contains_key(uuid) {
        if let Some(slot) = given {
            assert(is_lowest_free(slots, slot));
            assert forall|lower: u8| 1 <= lower < slot implies #[trigger] slots.values().contains(
                lower,
            ) by {
                assert(!is_free(slots, lower));
                let other = choose|other: u128| #[trigger]
                    slots.contains_key(other) && slots[other] == lower;
                assert(slots.dom().contains(other) && slots[other] == lower);
            }
        }
    }
}

/// The slot that a player is given is the one that a single assignment gives it.
pub proof fn lemma_next_slot_is_assigned(slots: Map<u128, u8>, uuid: u128)
    requires
        are_valid(slots),
    ensures
        is_assignment(slots, uuid, with_slot(slots, uuid), next_slot(slots, uuid)),
{
    if slots.contains_key(uuid) {
        assert(slots.insert(uuid, slots[uuid]) =~= slots);
    } else if !(exists|slot: u8| is_lowest_free(slots, slot)) {
        assert forall|slot: u8| 1 <= slot implies !#[trigger] is_free(slots, slot) by {
            lemma_no_lowest_means_none(slots, slot);
        }
    }
}

proof fn lemma_no_lowest_means_none(slots: Map<u128, u8>, slot: u8)
    requires
        1 <= slot,
        !(exists|one: u8| is_lowest_free(slots, one)),
    ensures
        !is_free(slots, slot),
    decreases slot,
{
    assert forall|lower: u8| 1 <= lower < slot implies !#[trigger] is_free(slots, lower) by {
        lemma_no_lowest_means_none(slots, lower);
    }
    assert(!is_lowest_free(slots, slot));
}

/// A client that leaves gives its slot back and nobody else's: it holds none, and its slot may be
/// given out again.
pub proof fn lemma_departure_frees_one_slot(slots: Map<u128, u8>, uuid: u128)
    requires
        are_valid(slots),
        slots.contains_key(uuid),
    ensures
        ({
            let rest = slots.remove(uuid);
            &&& are_valid(rest)
            &&& rest.len() == slots.len() - 1
            &&& forall|other: u128| rest.contains_key(other) ==> #[trigger] rest[other] != slots[uuid]
        }),
{
    let rest = slots.remove(uuid);
    assert forall|other: u128| rest.contains_key(other) implies #[trigger] rest[other]
        != slots[uuid] by {
        assert(slots.contains_key(other) && rest[other] == slots[other]);
    }
}

/// A listing names every client that holds a slot once, by uuid, with the slot it holds, and nobody
/// else.
pub proof fn lemma_listing_is_of_all_holders(
    slots: Map<u128, u8>,
    list: Seq<(u128, u8)>,
    uuid: u128,
    slot: u8,
)
    requires
        is_listing(slots, list),
    ensures
        list.contains((uuid, slot)) <==> slots.contains_key(uuid) && slots[uuid] == slot,
        forall|j: int, k: int|
            0 <= j < k < list.len() ==> (#[trigger] list[j]).0 < (#[trigger] list[k]).0,
{
    if list.contains((uuid, slot)) {
        let k = choose|k: int| 0 <= k < list.len() && list[k] == (uuid, slot);
        assert(slots.contains_key(list[k].0));
    }
}

} // verus!
