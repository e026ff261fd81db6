//! The slot-indexed cache of partial slots and the history of completed
//! messages.

use crate::message::Message;
use crate::message::MessageType;
use crate::order::largest;
use crate::order::lemma_largest_len;
use crate::order::lemma_largest_of_small;
use crate::order::lemma_largest_without_least;
use crate::order::retain_largest_keys;
use crate::order::set_pop_first;
use crate::storage::feeds::History;
use crate::storage::history::entered;
use crate::storage::history::evicted;
use crate::storage::history::feed_keys;
use crate::storage::history::filter_types;
use crate::storage::history::history_slots;
use crate::storage::history::lemma_requested_prefix;
use crate::storage::history::requested_keys;
use crate::storage::history::selects;
use crate::storage::history::unanswered;
use crate::types::AccumulatorMessages;
use crate::types::FeedId;
use crate::types::RequestTime;
use crate::types::reversed;
use crate::types::Slot;
use crate::types::StoreError;
use crate::types::UnixTimestamp;
use crate::wormhole_merkle::WormholeMerkleMessageProof;
use crate::wormhole_merkle::WormholeMerkleState;
use std::collections::BTreeMap;
use vstd::prelude::*;

pub mod feeds;
pub mod history;

verus! {

broadcast use vstd::std_specs::btree::group_btree_axioms, vstd::laws_cmp::group_laws_cmp;

/// The proofs that come with a message.
#[derive(Clone, Debug, PartialEq, Eq)]
pub struct ProofSet {
    pub wormhole_merkle_proof: WormholeMerkleMessageProof,
}

/// The feed and the kind of message under which an entry is filed.
#[derive(Clone, Copy, Debug, PartialEq, Eq, Hash)]
pub struct MessageStateKey {
    pub feed_id: FeedId,
    pub type_: MessageType,
}

/// The place of an entry in the history of its key: by the time of
/// publication, and among equal times by slot.
#[derive(Clone, Copy, Debug, PartialEq, Eq, Hash)]
pub struct MessageStateTime {
    pub publish_time: UnixTimestamp,
    pub slot: Slot,
}

/// What tells one entry of the history from every other.
pub struct MessageStateId {
    pub key: MessageStateKey,
    pub time: MessageStateTime,
}

/// A message of a completed slot with the proof of its inclusion.
#[derive(Clone, Debug, PartialEq, Eq)]
pub struct MessageState {
    pub slot: Slot,
    pub message: Message,
    pub raw_message: Vec<u8>,
    pub proof_set: ProofSet,
    pub received_at: UnixTimestamp,
}

impl MessageStateTime {
    /// The order of the history: by time of publication, then by slot.
    pub open spec fn spec_le(self, other: MessageStateTime) -> bool {
        self.publish_time < other.publish_time || (self.publish_time == other.publish_time
            && self.slot <= other.slot)
    }

    /// Whether `self` comes no later than `other` in the history.
    pub fn le(&self, other: &MessageStateTime) -> (r: bool)
        ensures
            r == self.spec_le(*other),
    {
        self.publish_time < other.publish_time || (self.publish_time == other.publish_time
            && self.slot <= other.slot)
    }
}

impl MessageStateKey {
    /// Whether two keys are the same.
    pub fn same(&self, other: &MessageStateKey) -> (r: bool)
        ensures
            r == (*self == *other),
    {
        self.type_ == other.type_ && crate::types::bytes_equal(&self.feed_id, &other.feed_id)
    }
}

impl MessageState {
    /// The place of the state in the history of its key.
    pub open spec fn spec_time(&self) -> MessageStateTime {
        MessageStateTime { publish_time: self.message.spec_publish_time(), slot: self.slot }
    }

    /// The key under which the state is filed.
    pub open spec fn spec_key(&self) -> MessageStateKey {
        MessageStateKey {
            feed_id: self.message.spec_feed_id(),
            type_: self.message.spec_message_type(),
        }
    }

    /// The key and the time of the entry together.
    pub open spec fn id(&self) -> MessageStateId {
        MessageStateId { key: self.spec_key(), time: self.spec_time() }
    }

    /// The state of `message`, which was decoded from `raw_message` and
    /// belongs to `slot`, completed at `received_at`.
    pub fn new(
        message: Message,
        raw_message: Vec<u8>,
        proof_set: ProofSet,
        slot: Slot,
        received_at: UnixTimestamp,
    ) -> (state: Self)
        ensures
            state == (MessageState { slot, message, raw_message, proof_set, received_at }),
    {
        MessageState { slot, message, raw_message, proof_set, received_at }
    }

    /// The place of the state in the history of its key.
    #[verifier::when_used_as_spec(spec_time)]
    pub fn time(&self) -> (time: MessageStateTime)
        ensures
            time == self.spec_time(),
    {
        MessageStateTime { publish_time: self.message.publish_time(), slot: self.slot }
    }

    /// The key under which the state is filed.
    #[verifier::when_used_as_spec(spec_key)]
    pub fn key(&self) -> (key: MessageStateKey)
        ensures
            key == self.spec_key(),
    {
        MessageStateKey { feed_id: self.message.feed_id(), type_: self.message.message_type() }
    }
}

/// What the store holds of one slot: the halves that have arrived, and whether
/// the slot has been completed.
#[derive(Clone, Debug, PartialEq, Eq)]
pub struct SlotState {
    pub accumulator_messages: Option<AccumulatorMessages>,
    pub wormhole_merkle_state: Option<WormholeMerkleState>,
    pub completed: bool,
}

/// Which kinds of message a query asks for.
#[derive(Clone, Copy, Debug, PartialEq, Eq)]
pub enum MessageStateFilter {
    All,
    Only(MessageType),
}

/// The cache of the store: the state of the most recent slots, and the
/// messages of the most recent completed slots.
pub struct Storage {
    slots: BTreeMap<Slot, SlotState>,
    message_cache: History,
    cache_size: u64,
}

/// A slot of which nothing has arrived.
pub open spec fn empty_slot() -> SlotState {
    SlotState { accumulator_messages: None, wormhole_merkle_state: None, completed: false }
}

/// What the cache holds of `slot`, or the empty state where it holds nothing.
pub open spec fn slot_or_empty(slots: Map<Slot, SlotState>, slot: Slot) -> SlotState {
    if slots.contains_key(slot) {
        slots[slot]
    } else {
        empty_slot()
    }
}

/// The entries of the `limit` largest slots of `slots`.
pub open spec fn most_recent(slots: Map<Slot, SlotState>, limit: nat) -> Map<Slot, SlotState> {
    slots.restrict(largest(slots.dom(), limit))
}

/// Whether the halves that `state` holds belong to `slot`.
pub open spec fn belongs_to(state: SlotState, slot: Slot) -> bool {
    &&& state.accumulator_messages matches Some(batch) ==> batch.slot == slot
    &&& state.wormhole_merkle_state matches Some(root) ==> root.root.slot == slot
}

/// The slot cache without the slots that the history has just dropped: those
/// that had an entry in `history` and are not among its `limit` largest.
pub open spec fn without_dropped(
    slots: Map<Slot, SlotState>,
    history: Map<MessageStateId, MessageState>,
    limit: nat,
) -> Map<Slot, SlotState> {
    slots.remove_keys(history_slots(history).difference(largest(history_slots(history), limit)))
}

/// Taking the `limit` largest is the same whether or not a limit beyond the
/// range of `usize` is cut down to it.
proof fn lemma_limit_fits(s: Set<Slot>, cache_size: u64)
    requires
        s.finite(),
        s.len() <= usize::MAX,
    ensures
        largest(s, cache_size as nat) == largest(
            s,
            (if cache_size > usize::MAX { usize::MAX as u64 } else { cache_size }) as nat,
        ),
{
    if cache_size > usize::MAX {
        lemma_largest_of_small(s, cache_size as nat);
        lemma_largest_of_small(s, usize::MAX as nat);
    }
}

impl Storage {
    /// The state of the slots in the cache.
    pub closed spec fn slot_states(&self) -> Map<Slot, SlotState> {
        self.slots@
    }

    /// The history of completed messages, each under its key and time.
    pub closed spec fn history(&self) -> Map<MessageStateId, MessageState> {
        self.message_cache@
    }

    /// The number of slots that the cache retains.
    pub closed spec fn limit(&self) -> nat {
        self.cache_size as nat
    }

    /// The invariant of the cache.
    pub closed spec fn wf(&self) -> bool {
        &&& self.message_cache.wf()
        &&& self.slots@.dom().len() <= self.cache_size
        &&& history_slots(self.history()).finite()
        &&& history_slots(self.history()).len() <= self.cache_size
        &&& forall|slot: Slot| #[trigger]
            self.slots@.contains_key(slot) ==> belongs_to(self.slots@[slot], slot)
    }

    /// What the invariant says of the views: the cache and the history are
    /// finite, neither holds more slots than the limit, every entry of the
    /// history stands under its own key and time, and every half in the cache
    /// stands under its own slot.
    pub proof fn lemma_wf(&self)
        requires
            self.wf(),
        ensures
            self.slot_states().dom().finite(),
            self.slot_states().dom().len() <= self.limit(),
            history_slots(self.history()).finite(),
            history_slots(self.history()).len() <= self.limit(),
            forall|id: MessageStateId| #[trigger]
                self.history().contains_key(id) ==> self.history()[id].id() == id,
            forall|slot: Slot| #[trigger]
                self.slot_states().contains_key(slot) ==> belongs_to(
                    self.slot_states()[slot],
                    slot,
                ),
    {
        self.message_cache.lemma_wf();
    }

    /// The limit as a number of entries.
    fn entries_limit(&self) -> (limit: usize)
        ensures
            limit == if self.cache_size > usize::MAX { usize::MAX as u64 } else { self.cache_size },
    {
        if self.cache_size > usize::MAX as u64 {
            usize::MAX
        } else {
            self.cache_size as usize
        }
    }

    /// An empty cache that retains `cache_size` slots.
    pub fn new(cache_size: u64) -> (storage: Self)
        ensures
            storage.wf(),
            storage.limit() == cache_size,
            storage.slot_states() == Map::<Slot, SlotState>::empty(),
            storage.history() == Map::<MessageStateId, MessageState>::empty(),
    {
        let storage = Storage { slots: BTreeMap::new(), message_cache: History::new(), cache_size };
        proof {
            assert(history_slots(storage.history()) =~= Set::<Slot>::empty());
        }
        storage
    }

    /// Puts `state` in the place of what the cache holds of `slot`, and then
    /// drops the smallest slots over the limit.
    fn put_slot(&mut self, slot: Slot, state: SlotState)
        requires
            old(self).wf(),
            belongs_to(state, slot),
        ensures
            final(self).wf(),
            final(self).limit() == old(self).limit(),
            final(self).history() == old(self).history(),
            final(self).slot_states() == most_recent(
                old(self).slot_states().insert(slot, state),
                old(self).limit(),
            ),
    {
        self.slots.insert(slot, state);
        let limit = self.entries_limit();
        proof {
            assert(self.slots@.dom().len() == self.slots.len());
            lemma_limit_fits(self.slots@.dom(), self.cache_size);
        }
        retain_largest_keys(&mut self.slots, limit);
    }

    /// What the cache holds of `slot`, taken out of it.
    fn take_slot(&mut self, slot: Slot) -> (state: SlotState)
        requires
            old(self).wf(),
        ensures
            state == slot_or_empty(old(self).slot_states(), slot),
            belongs_to(state, slot),
            final(self).wf(),
            final(self).limit() == old(self).limit(),
            final(self).history() == old(self).history(),
            final(self).slot_states() == old(self).slot_states().remove(slot),
            forall|put: SlotState| #[trigger]
                final(self).slot_states().insert(slot, put) == old(self).slot_states().insert(
                    slot,
                    put,
                ),
    {
        let state = match self.slots.remove(&slot) {
            Some(state) => state,
            None => SlotState {
                accumulator_messages: None,
                wormhole_merkle_state: None,
                completed: false,
            },
        };
        proof {
            assert forall|put: SlotState| #[trigger]
                self.slots@.insert(slot, put) == old(self).slots@.insert(slot, put) by {
                assert(self.slots@.insert(slot, put) =~= old(self).slots@.insert(slot, put));
            }
            if old(self).slots@.contains_key(slot) {
                assert(belongs_to(old(self).slots@[slot], slot));
            }
        }
        state
    }

    /// Stores the Merkle root attested for a slot, in the place of an earlier
    /// one for that slot. The cache then keeps its most recent slots only.
    pub fn store_wormhole_merkle_state(&mut self, state: WormholeMerkleState)
        requires
            old(self).wf(),
        ensures
            final(self).wf(),
            final(self).limit() == old(self).limit(),
            final(self).history() == old(self).history(),
            final(self).slot_states() == most_recent(
                old(self).slot_states().insert(
                    state.root.slot,
                    SlotState {
                        accumulator_messages: slot_or_empty(
                            old(self).slot_states(),
                            state.root.slot,
                        ).accumulator_messages,
                        wormhole_merkle_state: Some(state),
                        completed: slot_or_empty(old(self).slot_states(), state.root.slot).completed,
                    },
                ),
                old(self).limit(),
            ),
    {
        let slot = state.root.slot;
        let held = self.take_slot(slot);
        self.put_slot(
            slot,
            SlotState {
                accumulator_messages: held.accumulator_messages,
                wormhole_merkle_state: Some(state),
                completed: held.completed,
            },
        );
    }

    /// The Merkle root attested for `slot`, where the cache holds one.
    pub fn fetch_wormhole_merkle_state(&self, slot: Slot) -> (state: Option<&WormholeMerkleState>)
        requires
            self.wf(),
        ensures
            match state {
                Some(s) => Some(*s) == slot_or_empty(self.slot_states(), slot).wormhole_merkle_state,
                None => slot_or_empty(self.slot_states(), slot).wormhole_merkle_state is None,
            },
    {
        match self.slots.get(&slot) {
            Some(held) => held.wormhole_merkle_state.as_ref(),
            None => None,
        }
    }

    /// Stores the messages of a slot, in the place of an earlier batch for
    /// that slot. The cache then keeps its most recent slots only.
    pub fn store_accumulator_messages(&mut self, accumulator_messages: AccumulatorMessages)
        requires
            old(self).wf(),
        ensures
            final(self).wf(),
            final(self).limit() == old(self).limit(),
            final(self).history() == old(self).history(),
            final(self).slot_states() == most_recent(
                old(self).slot_states().insert(
                    accumulator_messages.slot,
                    SlotState {
                        accumulator_messages: Some(accumulator_messages),
                        wormhole_merkle_state: slot_or_empty(
                            old(self).slot_states(),
                            accumulator_messages.slot,
                        ).wormhole_merkle_state,
                        completed: slot_or_empty(
                            old(self).slot_states(),
                            accumulator_messages.slot,
                        ).completed,
                    },
                ),
                old(self).limit(),
            ),
    {
        let slot = accumulator_messages.slot;
        let held = self.take_slot(slot);
        self.put_slot(
            slot,
            SlotState {
                accumulator_messages: Some(accumulator_messages),
                wormhole_merkle_state: held.wormhole_merkle_state,
                completed: held.completed,
            },
        );
    }

    /// The messages of `slot`, where the cache holds them.
    pub fn fetch_accumulator_messages(&self, slot: Slot) -> (batch: Option<&AccumulatorMessages>)
        requires
            self.wf(),
        ensures
            match batch {
                Some(b) => Some(*b) == slot_or_empty(self.slot_states(), slot).accumulator_messages,
                None => slot_or_empty(self.slot_states(), slot).accumulator_messages is None,
            },
    {
        match self.slots.get(&slot) {
            Some(held) => held.accumulator_messages.as_ref(),
            None => None,
        }
    }

    /// Marks `slot` as completed, if the cache holds it and it is not marked
    /// yet. Returns whether this call set the mark: of all the calls for a slot
    /// while the cache holds it, one does.
    pub fn mark_completed(&mut self, slot: Slot) -> (first: bool)
        requires
            old(self).wf(),
        ensures
            final(self).wf(),
            final(self).limit() == old(self).limit(),
            final(self).history() == old(self).history(),
            first == (old(self).slot_states().contains_key(slot) && !old(self).slot_states()[slot].completed),
            final(self).slot_states() == if first {
                old(self).slot_states().insert(
                    slot,
                    SlotState {
                        accumulator_messages: old(self).slot_states()[slot].accumulator_messages,
                        wormhole_merkle_state: old(self).slot_states()[slot].wormhole_merkle_state,
                        completed: true,
                    },
                )
            } else {
                old(self).slot_states()
            },
    {
        match self.slots.remove(&slot) {
            Some(held) => {
                let first = !held.completed;
                let ghost was = held;
                self.slots.insert(
                    slot,
                    SlotState {
                        accumulator_messages: held.accumulator_messages,
                        wormhole_merkle_state: held.wormhole_merkle_state,
                        completed: true,
                    },
                );
                proof {
                    assert(belongs_to(old(self).slots@[slot], slot));
                    assert(self.slots@.dom() =~= old(self).slots@.dom());
                    if !first {
                        assert(self.slots@ =~= old(self).slots@);
                    }
                }
                first
            },
            None => {
                assert(self.slots@ =~= old(self).slots@);
                false
            },
        }
    }

    /// Enforces the cache policy: where more slots than the limit have an
    /// entry in the history, the entries of all but the largest slots are
    /// dropped, and with them what the cache holds of those slots.
    fn enforce_limit(&mut self)
        requires
            old(self).message_cache.wf(),
            old(self).slots@.dom().len() <= old(self).cache_size,
            forall|slot: Slot| #[trigger]
                old(self).slots@.contains_key(slot) ==> belongs_to(old(self).slots@[slot], slot),
        ensures
            final(self).wf(),
            final(self).limit() == old(self).limit(),
            final(self).history() == evicted(old(self).history(), old(self).limit()),
            final(self).slot_states() == without_dropped(
                old(self).slot_states(),
                old(self).history(),
                old(self).limit(),
            ),
    {
        let mut retained = self.message_cache.slots();
        let limit = self.entries_limit();
        let ghost all = retained@;
        let ghost bound = self.cache_size as nat;
        proof {
            assert(retained@.len() == retained.len());
            lemma_limit_fits(all, self.cache_size);
        }
        while retained.len() > limit
            invariant
                self.message_cache == old(self).message_cache,
                self.cache_size == old(self).cache_size,
                retained@.finite(),
                retained@.subset_of(all),
                largest(retained@, limit as nat) == largest(all, bound),
                self.slots@ == old(self).slots@.remove_keys(all.difference(retained@)),
            decreases retained@.len(),
        {
            let ghost before = retained@;
            match set_pop_first(&mut retained) {
                Some(slot) => {
                    self.slots.remove(&slot);
                    proof {
                        lemma_largest_without_least(before, limit as nat, slot);
                        assert(self.slots@ =~= old(self).slots@.remove_keys(
                            all.difference(retained@),
                        ));
                    }
                },
                None => {},
            }
        }
        proof {
            lemma_largest_of_small(retained@, limit as nat);
            assert(self.slots@.dom().subset_of(old(self).slots@.dom()));
            vstd::set_lib::lemma_len_subset(self.slots@.dom(), old(self).slots@.dom());
        }
        self.message_cache.retain_slots(&retained);
        proof {
            lemma_largest_len(all, bound);
            assert(history_slots(self.history()).subset_of(retained@));
            vstd::set_lib::lemma_len_subset(history_slots(self.history()), retained@);
        }
    }

    /// Enters a batch of message states in the history, each under its key and
    /// time, and then enforces the cache policy: of the slots that have an entry,
    /// the largest ones within the limit keep theirs. What the cache holds of a
    /// slot that loses its entries is dropped too.
    pub fn store_message_states(&mut self, message_states: Vec<MessageState>)
        requires
            old(self).wf(),
        ensures
            final(self).wf(),
            final(self).limit() == old(self).limit(),
            final(self).history() == evicted(
                entered(old(self).history(), message_states@, message_states@.len()),
                old(self).limit(),
            ),
            final(self).slot_states() == without_dropped(
                old(self).slot_states(),
                entered(old(self).history(), message_states@, message_states@.len()),
                old(self).limit(),
            ),
    {
        let mut pending = reversed(message_states);
        let ghost mut done: nat = 0;
        while pending.len() > 0
            invariant
                self.message_cache.wf(),
                self.slots == old(self).slots,
                self.cache_size == old(self).cache_size,
                pending@.len() + done == message_states@.len(),
                forall|k: int|
                    0 <= k < pending@.len() ==> #[trigger] pending@[k] == message_states@[
                        message_states@.len() - 1 - k],
                self.history() == entered(old(self).history(), message_states@, done),
            decreases pending@.len(),
        {
            match pending.pop() {
                Some(state) => {
                    self.message_cache.enter(state);
                    proof {
                        done = done + 1;
                    }
                },
                None => {},
            }
        }
        self.enforce_limit();
    }

    /// The entry that answers a query for `key` at `request_time`, where there
    /// is one.
    pub fn retrieve_message_state(&self, key: MessageStateKey, request_time: RequestTime) -> (state:
        Option<&MessageState>)
        requires
            self.wf(),
        ensures
            match state {
                Some(found) => selects(self.history(), key, request_time, *found),
                None => unanswered(self.history(), key, request_time),
            },
    {
        self.message_cache.retrieve(key, request_time)
    }

    /// Answers a query for several feeds: for each requested feed, in the order
    /// of the request, and for each kind of message that passes the filter, the
    /// entry that answers the query for that key. The call fails as a whole
    /// where some key has no such entry.
    pub fn fetch_message_states(
        &self,
        ids: Vec<FeedId>,
        request_time: RequestTime,
        filter: MessageStateFilter,
    ) -> (states: Result<Vec<&MessageState>, StoreError>)
        requires
            self.wf(),
        ensures
            match states {
                Ok(found) => {
                    &&& found@.len() == requested_keys(ids@, filter, ids@.len()).len()
                    &&& forall|j: int|
                        0 <= j < found@.len() ==> selects(
                            self.history(),
                            requested_keys(ids@, filter, ids@.len())[j],
                            request_time,
                            *#[trigger] found@[j],
                        )
                },
                Err(e) => e == StoreError::NotFound && exists|j: int|
                    0 <= j < requested_keys(ids@, filter, ids@.len()).len() && unanswered(
                        self.history(),
                        #[trigger] requested_keys(ids@, filter, ids@.len())[j],
                        request_time,
                    ),
            },
    {
        let mut kinds: Vec<MessageType> = Vec::new();
        match filter {
            MessageStateFilter::All => {
                kinds.push(MessageType::PriceFeedMessage);
                kinds.push(MessageType::TwapMessage);
                kinds.push(MessageType::PublisherStakeCapsMessage);
            },
            MessageStateFilter::Only(kind) => {
                kinds.push(kind);
            },
        }
        assert(kinds@ =~= filter_types(filter));
        let mut found: Vec<&MessageState> = Vec::new();
        let mut i: usize = 0;
        while i < ids.len()
            invariant
                self.wf(),
                i <= ids.len(),
                kinds@ == filter_types(filter),
                found@.len() == requested_keys(ids@, filter, i as nat).len(),
                forall|j: int|
                    0 <= j < found@.len() ==> selects(
                        self.history(),
                        requested_keys(ids@, filter, i as nat)[j],
                        request_time,
                        *#[trigger] found@[j],
                    ),
            decreases ids.len() - i,
        {
            let ghost before = requested_keys(ids@, filter, i as nat);
            let ghost keys = feed_keys(ids@[i as int], kinds@);
            let ghost next = requested_keys(ids@, filter, (i + 1) as nat);
            assert(next == before + keys);
            let mut t: usize = 0;
            while t < kinds.len()
                invariant
                    self.wf(),
                    i < ids.len(),
                    t <= kinds.len(),
                    keys == feed_keys(ids@[i as int], kinds@),
                    next == before + keys,
                    next == requested_keys(ids@, filter, (i + 1) as nat),
                    found@.len() == before.len() + t,
                    forall|j: int|
                        0 <= j < found@.len() ==> selects(
                            self.history(),
                            next[j],
                            request_time,
                            *#[trigger] found@[j],
                        ),
                decreases kinds.len() - t,
            {
                let key = MessageStateKey { feed_id: ids[i], type_: kinds[t] };
                assert(next[before.len() + t] == key);
                match self.retrieve_message_state(key, request_time) {
                    Some(state) => {
                        found.push(state);
                    },
                    None => {
                        proof {
                            let all = requested_keys(ids@, filter, ids@.len());
                            lemma_requested_prefix(ids@, filter, (i + 1) as nat, ids@.len());
                            assert(all[before.len() + t] == key);
                        }
                        return Err(StoreError::NotFound);
                    },
                }
                t += 1;
            }
            i += 1;
        }
        Ok(found)
    }

    /// The keys that have an entry in the history, each once.
    pub fn message_state_keys(&self) -> (keys: Vec<MessageStateKey>)
        requires
            self.wf(),
        ensures
            keys@.no_duplicates(),
            forall|key: MessageStateKey|
                keys@.contains(key) <==> exists|id: MessageStateId| #[trigger]
                    self.history().contains_key(id) && id.key == key,
    {
        self.message_cache.keys()
    }
}

} // verus!
