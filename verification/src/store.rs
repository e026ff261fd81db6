//! The store: it takes the two halves of each slot as they arrive, verifies
//! and correlates them, keeps the messages of the most recent slots, and
//! answers queries for prices with the data that proves them.

use crate::message::decode_message;
use crate::message::Message;
use crate::message::MessageType;
use crate::message::spec_decode_message;
use crate::order::largest;
use crate::order::retain_largest;
use crate::storage::history::answer;
use crate::storage::history::entered;
use crate::storage::history::evicted;
use crate::storage::history::lemma_entered_origin;
use crate::storage::history::lemma_requested_only;
use crate::storage::history::lemma_selected_is_answer;
use crate::storage::history::requested_keys;
use crate::storage::history::selects;
use crate::storage::history::unanswered;
use crate::storage::MessageState;
use crate::storage::MessageStateFilter;
use crate::storage::MessageStateId;
use crate::storage::MessageStateKey;
use crate::storage::most_recent;
use crate::storage::ProofSet;
use crate::storage::slot_or_empty;
use crate::storage::SlotState;
use crate::storage::Storage;
use crate::storage::without_dropped;
use crate::types::AccumulatorMessages;
use crate::types::copy_bytes;
use crate::types::FeedId;
use crate::types::IntegrityFault;
use crate::types::Monotonic;
use crate::types::PriceFeedsWithUpdateData;
use crate::types::PriceFeedUpdate;
use crate::types::RequestTime;
use crate::types::reversed;
use crate::types::Slot;
use crate::types::StoreError;
use crate::types::UnixTimestamp;
use crate::types::Update;
use crate::wormhole::ACCUMULATOR_EMITTER_ADDRESS;
use crate::wormhole::Emitter;
use crate::wormhole::GuardianSet;
use crate::wormhole::parse_vaa;
use crate::wormhole::PYTHNET_CHAIN;
use crate::wormhole::spec_parse_vaa;
use crate::wormhole::spec_verdict;
use crate::wormhole::verify_vaa;
use crate::wormhole::VerifyError;
use crate::wormhole_merkle::committed_root;
use crate::wormhole_merkle::construct_message_states_proofs;
use crate::wormhole_merkle::construct_single_update_data;
use crate::wormhole_merkle::construct_update_data;
use crate::wormhole_merkle::decode_merkle_root;
use crate::wormhole_merkle::is_update_data;
use crate::wormhole_merkle::lemma_group_of_one_slot;
use crate::wormhole_merkle::proofs_view;
use crate::wormhole_merkle::slots_of;
use crate::wormhole_merkle::spec_decode_merkle_root;
use crate::wormhole_merkle::spec_merkle_check;
use crate::wormhole_merkle::spec_message_proofs;
use crate::wormhole_merkle::spec_packed;
use crate::wormhole_merkle::spec_single_update_data;
use crate::wormhole_merkle::spec_slot_update_data;
use crate::wormhole_merkle::states_of;
use crate::wormhole_merkle::updates_of;
use crate::wormhole_merkle::WormholeMerkleState;
use std::collections::BTreeMap;
use std::collections::BTreeSet;
use vstd::prelude::*;

verus! {

broadcast use vstd::std_specs::btree::group_btree_axioms, vstd::laws_cmp::group_laws_cmp;

/// The number of sequence numbers of attestations that the store remembers.
pub const OBSERVED_CACHE_SIZE: usize = 1000;

/// The time after the last completed slot, in nanoseconds, from which on the
/// store no longer counts as ready: 30 seconds.
pub const READINESS_STALENESS_THRESHOLD: u64 = 30_000_000_000;

/// What became of an update.
#[derive(Clone, Copy, Debug, PartialEq, Eq)]
pub enum UpdateStatus {
    /// The attestation comes from another emitter and was ignored.
    ForeignEmitter,
    /// An attestation with this sequence number has been seen and this one was
    /// ignored.
    AlreadyObserved,
    /// The attestation could not be verified and was dropped.
    Unverifiable(VerifyError),
    /// The update was taken; its slot still lacks a half, or the cache holds
    /// more recent slots only.
    Pending,
    /// The update was taken; its slot had been completed before.
    AlreadyCompleted,
    /// The update completed its slot: the messages of the slot were published,
    /// and a notification is due.
    Completed,
}

/// The store.
pub struct Store {
    storage: Storage,
    observed_vaa_seqs: BTreeSet<u64>,
    guardian_set: BTreeMap<u32, GuardianSet>,
    emitter: Emitter,
    last_completed_update_at: Option<Monotonic>,
}

/// The state of a store, as its contracts speak of it.
#[verifier::ext_equal]
pub struct StoreState {
    /// What the cache holds of each slot.
    pub slots: Map<Slot, SlotState>,
    /// The history of completed messages, each under its key and time.
    pub history: Map<MessageStateId, MessageState>,
    /// The number of slots that the cache retains.
    pub limit: nat,
    /// The sequence numbers of the attestations seen of late.
    pub observed: Set<u64>,
    /// The trusted guardian sets, each under its index.
    pub guardian_sets: Map<u32, GuardianSet>,
    /// The emitter whose attestations are accepted.
    pub emitter: Emitter,
    /// When a slot was last completed.
    pub last_completed: Option<Monotonic>,
}

/// Whether a message state proves itself: the attestation that it carries
/// commits to a root for its slot, its path leads from its raw message to that
/// root, and its message is what its raw message decodes to.
pub open spec fn attested(state: MessageState) -> bool {
    &&& committed_root(state.proof_set.wormhole_merkle_proof.vaa@) matches Some(root)
    &&& root.slot == state.slot
    &&& spec_merkle_check(
        root.root@,
        state.proof_set.wormhole_merkle_proof.proof@,
        state.raw_message@,
    )
    &&& spec_decode_message(state.raw_message@) == Some(state.message)
}

/// Whether the root that `state` holds is the one that its attestation commits
/// to.
pub open spec fn committed(state: WormholeMerkleState) -> bool {
    committed_root(state.vaa@) == Some(state.root)
}

/// The time that has passed from `earlier` to `now`; none where the clock
/// reads less than before.
pub open spec fn elapsed(now: Monotonic, earlier: Monotonic) -> nat {
    if now >= earlier {
        (now - earlier) as nat
    } else {
        0
    }
}

/// Whether a store that last completed a slot at `last_completed` is ready at
/// `now`.
pub open spec fn spec_ready(last_completed: Option<Monotonic>, now: Monotonic) -> bool {
    match last_completed {
        Some(at) => elapsed(now, at) < READINESS_STALENESS_THRESHOLD,
        None => false,
    }
}

/// What keeps the two halves of a slot from making a completed slot: the
/// fault in their proofs, or else a message that does not decode; `None` where
/// nothing does.
pub open spec fn spec_fault(batch: AccumulatorMessages, root: WormholeMerkleState) -> Option<
    StoreError,
> {
    let leaves = batch.raw_messages.deep_view();
    match spec_message_proofs(leaves, root) {
        Err(e) => Some(e),
        Ok(_) => if exists|i: int|
            0 <= i < leaves.len() && spec_decode_message(#[trigger] leaves[i]) is None {
            Some(StoreError::Integrity(IntegrityFault::UndecodableMessage))
        } else {
            None
        },
    }
}

/// Whether `states` are the message states of the slot with the halves
/// `batch` and `root`, completed at `received_at`: one for each raw message, in
/// their order, with the decoded message, a copy of the raw message, the
/// attestation, and the path that proves the message under the attested root.
pub open spec fn built(
    states: Seq<MessageState>,
    batch: AccumulatorMessages,
    root: WormholeMerkleState,
    received_at: UnixTimestamp,
) -> bool {
    let leaves = batch.raw_messages.deep_view();
    &&& spec_message_proofs(leaves, root) is Ok
    &&& states.len() == leaves.len()
    &&& forall|i: int|
        0 <= i < states.len() ==> {
            let state = #[trigger] states[i];
            &&& state.slot == batch.slot
            &&& state.received_at == received_at
            &&& state.raw_message@ == leaves[i]
            &&& spec_decode_message(leaves[i]) == Some(state.message)
            &&& (
                state.proof_set.wormhole_merkle_proof.vaa@,
                state.proof_set.wormhole_merkle_proof.proof@,
            ) == spec_message_proofs(leaves, root)->Ok_0[i]
            &&& spec_merkle_check(
                root.root.root@,
                state.proof_set.wormhole_merkle_proof.proof@,
                leaves[i],
            )
        }
}

/// The state after `state` has been put in the cache under `slot`: the cache
/// keeps its most recent slots.
pub open spec fn with_slot(pre: StoreState, slot: Slot, state: SlotState) -> StoreState {
    StoreState { slots: most_recent(pre.slots.insert(slot, state), pre.limit), ..pre }
}

/// The second step of an update, on the slot that the update belongs to. Where
/// the cache holds both halves of the slot and the slot has not been completed,
/// it is marked as completed and its message states are built: they are
/// entered in the history and the cache policy is enforced, or else the fault
/// is returned. In every other case nothing changes.
pub open spec fn completion(
    pre: StoreState,
    slot: Slot,
    received_at: UnixTimestamp,
    post: StoreState,
    result: Result<UpdateStatus, StoreError>,
) -> bool {
    let held = slot_or_empty(pre.slots, slot);
    match (held.accumulator_messages, held.wormhole_merkle_state) {
        (Some(batch), Some(root)) => {
            if held.completed {
                result == Ok::<_, StoreError>(UpdateStatus::AlreadyCompleted) && post == pre
            } else {
                let marked = pre.slots.insert(
                    slot,
                    SlotState {
                        accumulator_messages: held.accumulator_messages,
                        wormhole_merkle_state: held.wormhole_merkle_state,
                        completed: true,
                    },
                );
                match spec_fault(batch, root) {
                    Some(e) => result == Err::<UpdateStatus, _>(e) && post == (StoreState {
                        slots: marked,
                        ..pre
                    }),
                    None => result == Ok::<_, StoreError>(UpdateStatus::Completed) && exists|
                        states: Seq<MessageState>,
                    |
                        {
                            &&& #[trigger] built(states, batch, root, received_at)
                            &&& post == (StoreState {
                                slots: without_dropped(
                                    marked,
                                    entered(pre.history, states, states.len()),
                                    pre.limit,
                                ),
                                history: evicted(
                                    entered(pre.history, states, states.len()),
                                    pre.limit,
                                ),
                                ..pre
                            })
                        },
                }
            }
        },
        _ => result == Ok::<_, StoreError>(UpdateStatus::Pending) && post == pre,
    }
}

/// What an update does to the store and what it returns.
///
/// A batch of messages is put in the cache under its slot. An attestation is
/// parsed; one of another emitter, one whose sequence number has been seen, and
/// one that cannot be verified are dropped and change nothing. The sequence
/// number of a verified one is remembered, among the largest ones only;
/// then its payload is decoded, and the root is put in the cache under its
/// slot. Either way the slot of the update is then completed if it can be.
pub open spec fn transition(
    pre: StoreState,
    update: Update,
    received_at: UnixTimestamp,
    post: StoreState,
    result: Result<UpdateStatus, StoreError>,
) -> bool {
    match update {
        Update::AccumulatorMessages(batch) => {
            let held = slot_or_empty(pre.slots, batch.slot);
            completion(
                with_slot(
                    pre,
                    batch.slot,
                    SlotState {
                        accumulator_messages: Some(batch),
                        wormhole_merkle_state: held.wormhole_merkle_state,
                        completed: held.completed,
                    },
                ),
                batch.slot,
                received_at,
                post,
                result,
            )
        },
        Update::Vaa(bytes) => match spec_parse_vaa(bytes@) {
            None => result == Err::<UpdateStatus, _>(StoreError::MalformedVaa) && post == pre,
            Some(vaa) => if !vaa.is_from(pre.emitter) {
                result == Ok::<_, StoreError>(UpdateStatus::ForeignEmitter) && post == pre
            } else if pre.observed.contains(vaa.sequence) {
                result == Ok::<_, StoreError>(UpdateStatus::AlreadyObserved) && post == pre
            } else {
                match spec_verdict(pre.emitter, pre.guardian_sets, vaa) {
                    Some(e) => result == Ok::<_, StoreError>(UpdateStatus::Unverifiable(e))
                        && post == pre,
                    None => {
                        let seen = StoreState {
                            observed: largest(
                                pre.observed.insert(vaa.sequence),
                                OBSERVED_CACHE_SIZE as nat,
                            ),
                            ..pre
                        };
                        match spec_decode_merkle_root(vaa.payload@) {
                            None => result == Err::<UpdateStatus, _>(StoreError::MalformedPayload)
                                && post == seen,
                            Some(root) => {
                                let held = slot_or_empty(pre.slots, root.slot);
                                completion(
                                    with_slot(
                                        seen,
                                        root.slot,
                                        SlotState {
                                            accumulator_messages: held.accumulator_messages,
                                            wormhole_merkle_state: Some(
                                                WormholeMerkleState { root, vaa: bytes },
                                            ),
                                            completed: held.completed,
                                        },
                                    ),
                                    root.slot,
                                    received_at,
                                    post,
                                    result,
                                )
                            },
                        }
                    },
                }
            },
        },
    }
}

/// Builds the message states of a slot from its two halves: the proofs are
/// made and checked, each raw message is decoded, and each message gets its
/// state, with `received_at` as the time of completion.
pub fn construct_message_states(
    accumulator_messages: &AccumulatorMessages,
    wormhole_merkle_state: &WormholeMerkleState,
    received_at: UnixTimestamp,
) -> (states: Result<Vec<MessageState>, StoreError>)
    ensures
        match states {
            Ok(built_states) => spec_fault(*accumulator_messages, *wormhole_merkle_state) is None
                && built(built_states@, *accumulator_messages, *wormhole_merkle_state, received_at),
            Err(e) => spec_fault(*accumulator_messages, *wormhole_merkle_state) == Some(e),
        },
{
    let proofs = match construct_message_states_proofs(
        accumulator_messages,
        wormhole_merkle_state,
    ) {
        Ok(proofs) => proofs,
        Err(e) => {
            return Err(e);
        },
    };
    let ghost all = proofs@;
    let mut proofs = reversed(proofs);
    let ghost leaves = accumulator_messages.raw_messages.deep_view();
    let ghost expected = spec_message_proofs(leaves, *wormhole_merkle_state)->Ok_0;
    assert(all.len() == leaves.len()) by {
        assert(proofs_view(all).len() == all.len());
        if leaves.len() > 0 {
            assert(expected.len() == leaves.len());
        }
    }
    let mut states: Vec<MessageState> = Vec::with_capacity(accumulator_messages.raw_messages.len());
    let mut i: usize = 0;
    while i < accumulator_messages.raw_messages.len()
        invariant
            i <= accumulator_messages.raw_messages@.len(),
            leaves == accumulator_messages.raw_messages.deep_view(),
            leaves.len() == accumulator_messages.raw_messages@.len(),
            all.len() == leaves.len(),
            spec_message_proofs(leaves, *wormhole_merkle_state) == Ok::<_, StoreError>(expected),
            expected == proofs_view(all),
            forall|k: int|
                0 <= k < all.len() ==> spec_merkle_check(
                    wormhole_merkle_state.root.root@,
                    (#[trigger] all[k]).proof@,
                    accumulator_messages.raw_messages@[k]@,
                ),
            proofs@.len() + i == all.len(),
            forall|k: int| 0 <= k < proofs@.len() ==> #[trigger] proofs@[k] == all[all.len() - 1 - k],
            states@.len() == i,
            forall|k: int|
                0 <= k < i ==> {
                    let state = #[trigger] states@[k];
                    &&& state.slot == accumulator_messages.slot
                    &&& state.received_at == received_at
                    &&& state.raw_message@ == leaves[k]
                    &&& spec_decode_message(leaves[k]) == Some(state.message)
                    &&& state.proof_set.wormhole_merkle_proof == all[k]
                },
        decreases accumulator_messages.raw_messages@.len() - i,
    {
        let raw = &accumulator_messages.raw_messages[i];
        assert(leaves[i as int] == raw@);
        let message = match decode_message(raw) {
            Some(message) => message,
            None => {
                return Err(StoreError::Integrity(IntegrityFault::UndecodableMessage));
            },
        };
        let proof = match proofs.pop() {
            Some(proof) => proof,
            None => {
                return Err(StoreError::Integrity(IntegrityFault::MissingProof));
            },
        };
        assert(proof == all[i as int]);
        states.push(
            MessageState::new(
                message,
                copy_bytes(raw),
                ProofSet { wormhole_merkle_proof: proof },
                accumulator_messages.slot,
                received_at,
            ),
        );
        i += 1;
    }
    proof {
        assert forall|k: int| 0 <= k < leaves.len() implies spec_decode_message(
            #[trigger] leaves[k],
        ) is Some by {
            assert(spec_decode_message(leaves[k]) == Some(states@[k].message));
        }
        assert forall|k: int| 0 <= k < states@.len() implies {
            let state = #[trigger] states@[k];
            &&& (
                state.proof_set.wormhole_merkle_proof.vaa@,
                state.proof_set.wormhole_merkle_proof.proof@,
            ) == expected[k]
            &&& spec_merkle_check(
                wormhole_merkle_state.root.root@,
                state.proof_set.wormhole_merkle_proof.proof@,
                leaves[k],
            )
        } by {
            assert(states@[k].proof_set.wormhole_merkle_proof == all[k]);
            assert(leaves[k] == accumulator_messages.raw_messages@[k]@);
        }
    }
    Ok(states)
}

/// The key of the prices of a feed.
pub open spec fn price_feed_key(feed_id: FeedId) -> MessageStateKey {
    MessageStateKey { feed_id, type_: MessageType::PriceFeedMessage }
}

/// Whether the history holds a price for each of `ids` that answers a query at
/// `request_time`.
pub open spec fn all_answered(
    history: Map<MessageStateId, MessageState>,
    ids: Seq<FeedId>,
    request_time: RequestTime,
) -> bool {
    forall|i: int|
        0 <= i < ids.len() ==> !unanswered(history, price_feed_key(#[trigger] ids[i]), request_time)
}

/// The prices that answer a query for `ids` at `request_time`, one for each
/// feed in the order of the request.
pub open spec fn query_answers(
    history: Map<MessageStateId, MessageState>,
    ids: Seq<FeedId>,
    request_time: RequestTime,
) -> Seq<MessageState> {
    Seq::new(ids.len(), |i: int| answer(history, price_feed_key(ids[i]), request_time))
}

/// Whether `update` reports `state`: its price, its slot, the time of its
/// completion, and update data that holds it alone.
pub open spec fn reports(update: PriceFeedUpdate, state: MessageState) -> bool {
    &&& state.message == Message::PriceFeedMessage(update.price_feed)
    &&& update.slot == state.slot
    &&& update.received_at == state.received_at
    &&& spec_single_update_data(state) == Some(update.wormhole_merkle_update_data@)
}

/// Whether the answers to a query cannot be packed into update data: one of
/// them alone, or those of some slot together, do not fit the wire format.
pub open spec fn unpackable(states: Seq<MessageState>) -> bool {
    ||| exists|i: int| 0 <= i < states.len() && spec_single_update_data(#[trigger] states[i]) is None
    ||| exists|slot: Slot| #[trigger]
        slots_of(states).contains(slot) && spec_slot_update_data(states, slot) is None
}

/// The slot that an update belongs to: that of the batch, or that of the root
/// that the attestation commits to.
pub open spec fn update_slot(update: Update) -> Option<Slot> {
    match update {
        Update::AccumulatorMessages(batch) => Some(batch.slot),
        Update::Vaa(bytes) => match committed_root(bytes@) {
            Some(root) => Some(root.slot),
            None => None,
        },
    }
}

/// An update completes a slot only if the slot was not marked as completed,
/// and it leaves the mark on the slot.
pub proof fn lemma_completes_once(
    pre: StoreState,
    update: Update,
    received_at: UnixTimestamp,
    post: StoreState,
    result: Result<UpdateStatus, StoreError>,
)
    requires
        transition(pre, update, received_at, post, result),
        result == Ok::<_, StoreError>(UpdateStatus::Completed),
    ensures
        update_slot(update) matches Some(slot) && !slot_or_empty(pre.slots, slot).completed && (
        post.slots.contains_key(slot) ==> post.slots[slot].completed),
{
}

/// An update for a slot that is marked as completed completes nothing: the
/// history stays as it is.
pub proof fn lemma_completed_blocks(
    pre: StoreState,
    update: Update,
    received_at: UnixTimestamp,
    post: StoreState,
    result: Result<UpdateStatus, StoreError>,
)
    requires
        transition(pre, update, received_at, post, result),
        update_slot(update) matches Some(slot) && slot_or_empty(pre.slots, slot).completed,
    ensures
        result != Ok::<_, StoreError>(UpdateStatus::Completed),
        post.history == pre.history,
{
}

/// No update takes the mark from a completed slot: as long as the cache holds
/// the slot, the slot stays completed.
pub proof fn lemma_completed_stays(
    pre: StoreState,
    update: Update,
    received_at: UnixTimestamp,
    post: StoreState,
    result: Result<UpdateStatus, StoreError>,
    slot: Slot,
)
    requires
        transition(pre, update, received_at, post, result),
        pre.slots.contains_key(slot),
        pre.slots[slot].completed,
        post.slots.contains_key(slot),
    ensures
        post.slots[slot].completed,
{
}

/// The two halves of a slot complete it once, in whichever order they arrive.
/// Of a slot that the cache holds nothing of and has room for, with an
/// attestation that is accepted: the half that arrives first is taken and
/// leaves the slot pending; the half that arrives second has the message states
/// built, and what comes of that, the completion or the fault, is the same in
/// both orders.
pub proof fn lemma_either_order(
    pre: StoreState,
    batch: AccumulatorMessages,
    bytes: Vec<u8>,
    first_at: UnixTimestamp,
    second_at: UnixTimestamp,
    after_batch: StoreState,
    batch_first: Result<UpdateStatus, StoreError>,
    after_both: StoreState,
    vaa_second: Result<UpdateStatus, StoreError>,
    after_vaa: StoreState,
    vaa_first: Result<UpdateStatus, StoreError>,
    after_either: StoreState,
    batch_second: Result<UpdateStatus, StoreError>,
)
    requires
        transition(pre, Update::AccumulatorMessages(batch), first_at, after_batch, batch_first),
        transition(after_batch, Update::Vaa(bytes), second_at, after_both, vaa_second),
        transition(pre, Update::Vaa(bytes), first_at, after_vaa, vaa_first),
        transition(
            after_vaa,
            Update::AccumulatorMessages(batch),
            second_at,
            after_either,
            batch_second,
        ),
        update_slot(Update::Vaa(bytes)) == Some(batch.slot),
        spec_parse_vaa(bytes@) matches Some(vaa) && vaa.is_from(pre.emitter)
            && !pre.observed.contains(vaa.sequence) && spec_verdict(
            pre.emitter,
            pre.guardian_sets,
            vaa,
        ) is None,
        pre.slots.dom().finite(),
        !pre.slots.contains_key(batch.slot),
        largest(pre.slots.dom().insert(batch.slot), pre.limit).contains(batch.slot),
    ensures
        batch_first == Ok::<_, StoreError>(UpdateStatus::Pending),
        vaa_first == Ok::<_, StoreError>(UpdateStatus::Pending),
        vaa_second == batch_second,
        vaa_second == Ok::<_, StoreError>(UpdateStatus::Completed) || vaa_second is Err,
{
    let slot = batch.slot;
    let kept = largest(pre.slots.dom().insert(slot), pre.limit);
    crate::order::lemma_largest_len(pre.slots.dom().insert(slot), pre.limit);
    crate::order::lemma_largest_of_small(kept, pre.limit);
    assert(after_batch.slots.dom() =~= kept);
    assert(after_vaa.slots.dom() =~= kept);
    assert(kept.insert(slot) =~= kept);
    let root = committed_root(bytes@)->0;
    let whole = SlotState {
        accumulator_messages: Some(batch),
        wormhole_merkle_state: Some(WormholeMerkleState { root, vaa: bytes }),
        completed: false,
    };
    assert(after_batch.slots.insert(slot, whole).dom() =~= kept);
    assert(after_vaa.slots.insert(slot, whole).dom() =~= kept);
    assert(most_recent(after_batch.slots.insert(slot, whole), pre.limit)[slot] == whole);
    assert(most_recent(after_vaa.slots.insert(slot, whole), pre.limit)[slot] == whole);
}

/// The same attestation twice completes a slot at most once: the second time
/// it completes none and leaves the history as it is.
pub proof fn lemma_vaa_twice(
    first: StoreState,
    bytes: Vec<u8>,
    received_at: UnixTimestamp,
    second: StoreState,
    result: Result<UpdateStatus, StoreError>,
    again_at: UnixTimestamp,
    third: StoreState,
    again: Result<UpdateStatus, StoreError>,
)
    requires
        transition(first, Update::Vaa(bytes), received_at, second, result),
        transition(second, Update::Vaa(bytes), again_at, third, again),
    ensures
        again != Ok::<_, StoreError>(UpdateStatus::Completed),
        third.history == second.history,
{
}

/// When 1000 sequence numbers are remembered and an attestation with a new one
/// is verified, the smallest of them all is forgotten, and no other.
pub proof fn lemma_observed_overflow(
    pre: StoreState,
    bytes: Vec<u8>,
    received_at: UnixTimestamp,
    post: StoreState,
    result: Result<UpdateStatus, StoreError>,
    least: u64,
)
    requires
        transition(pre, Update::Vaa(bytes), received_at, post, result),
        pre.observed.finite(),
        pre.observed.len() == OBSERVED_CACHE_SIZE,
        spec_parse_vaa(bytes@) matches Some(vaa) && !pre.observed.contains(vaa.sequence)
            && spec_verdict(pre.emitter, pre.guardian_sets, vaa) is None && crate::order::is_least(
            pre.observed.insert(vaa.sequence),
            least,
        ),
    ensures
        post.observed == pre.observed.insert(spec_parse_vaa(bytes@)->0.sequence).remove(least),
{
    let vaa = spec_parse_vaa(bytes@)->0;
    crate::order::lemma_largest_drops_least(
        pre.observed.insert(vaa.sequence),
        OBSERVED_CACHE_SIZE as nat,
        least,
    );
}

/// The message states of a completed slot prove themselves, all under the one
/// attestation of the slot: what `lemma_update_data_verifies` asks of a
/// selection holds of them.
pub proof fn lemma_built_attested(
    states: Seq<MessageState>,
    batch: AccumulatorMessages,
    root: WormholeMerkleState,
    received_at: UnixTimestamp,
)
    requires
        built(states, batch, root, received_at),
        committed(root),
        root.root.slot == batch.slot,
    ensures
        forall|i: int| 0 <= i < states.len() ==> attested(#[trigger] states[i]),
        forall|i: int|
            0 <= i < states.len() ==> (#[trigger] states[i]).proof_set.wormhole_merkle_proof.vaa@
                == root.vaa@,
{
}

/// The update data of a completed slot can be verified again. The message
/// states of a slot, all selected together, go into one blob; the blob holds
/// the attestation of the slot, which commits to a root for the slot, and every
/// message of the slot with a path that holds under that root.
pub proof fn lemma_completed_slot_update_data(
    states: Seq<MessageState>,
    batch: AccumulatorMessages,
    root: WormholeMerkleState,
    received_at: UnixTimestamp,
    k: int,
)
    requires
        built(states, batch, root, received_at),
        committed(root),
        root.root.slot == batch.slot,
        0 <= k < states.len(),
    ensures
        slots_of(states) == set![batch.slot],
        spec_slot_update_data(states, batch.slot) == spec_packed(root.vaa@, updates_of(states)),
        updates_of(states)[k] == (batch.raw_messages@[k]@, updates_of(states)[k].1),
        spec_merkle_check(root.root.root@, updates_of(states)[k].1, updates_of(states)[k].0),
{
    lemma_built_attested(states, batch, root, received_at);
    lemma_group_of_one_slot(states, batch.slot, states.len());
    assert(states.subrange(0, states.len() as int) =~= states);
    assert(slots_of(states) =~= set![batch.slot]) by {
        assert(states[0].slot == batch.slot);
        assert forall|slot: Slot| slots_of(states).contains(slot) implies slot == batch.slot by {
            let i = choose|i: int| 0 <= i < states.len() && states[i].slot == slot;
        }
    }
    assert(states[0].proof_set.wormhole_merkle_proof.vaa@ == root.vaa@);
    assert(batch.raw_messages.deep_view()[k] == batch.raw_messages@[k]@);
    assert(attested(states[k]));
}

impl View for Store {
    type V = StoreState;

    closed spec fn view(&self) -> StoreState {
        StoreState {
            slots: self.storage.slot_states(),
            history: self.storage.history(),
            limit: self.storage.limit(),
            observed: self.observed_vaa_seqs@,
            guardian_sets: self.guardian_set@,
            emitter: self.emitter,
            last_completed: self.last_completed_update_at,
        }
    }
}

impl Store {
    /// The invariant of the store.
    pub closed spec fn wf(&self) -> bool {
        &&& self.storage.wf()
        &&& self.observed_vaa_seqs@.finite()
        &&& self.observed_vaa_seqs@.len() <= OBSERVED_CACHE_SIZE
        &&& forall|slot: Slot| #[trigger]
            self.storage.slot_states().contains_key(slot) ==> (
            self.storage.slot_states()[slot].wormhole_merkle_state matches Some(state)
                ==> committed(state))
        &&& forall|id: MessageStateId| #[trigger]
            self.storage.history().contains_key(id) ==> attested(self.storage.history()[id])
    }

    /// What the invariant says of the state: every entry of the history stands
    /// under its own key and time and proves itself; the slots that have an
    /// entry are no more than the limit, and so are the slots in the cache;
    /// every half in the cache stands under its own slot, and every root there
    /// is the one that its attestation commits to; and no more than 1000
    /// sequence numbers are remembered.
    pub proof fn lemma_invariant(&self)
        requires
            self.wf(),
        ensures
            forall|id: MessageStateId| #[trigger]
                self@.history.contains_key(id) ==> self@.history[id].id() == id && attested(
                    self@.history[id],
                ),
            crate::storage::history::history_slots(self@.history).finite(),
            crate::storage::history::history_slots(self@.history).len() <= self@.limit,
            self@.slots.dom().finite(),
            self@.slots.dom().len() <= self@.limit,
            forall|slot: Slot| #[trigger]
                self@.slots.contains_key(slot) ==> crate::storage::belongs_to(
                    self@.slots[slot],
                    slot,
                ) && (self@.slots[slot].wormhole_merkle_state matches Some(state) ==> committed(
                    state,
                )),
            self@.observed.finite(),
            self@.observed.len() <= OBSERVED_CACHE_SIZE,
    {
        self.storage.lemma_wf();
    }

    /// An empty store for the attestations of the accumulator on Pythnet, which
    /// retains `cache_size` slots.
    pub fn new(cache_size: u64) -> (store: Self)
        ensures
            store.wf(),
            store@ == (StoreState {
                slots: Map::empty(),
                history: Map::empty(),
                limit: cache_size as nat,
                observed: Set::empty(),
                guardian_sets: Map::empty(),
                emitter: Emitter { chain: PYTHNET_CHAIN, address: ACCUMULATOR_EMITTER_ADDRESS },
                last_completed: None,
            }),
    {
        Store::with_emitter(
            cache_size,
            Emitter { chain: PYTHNET_CHAIN, address: ACCUMULATOR_EMITTER_ADDRESS },
        )
    }

    /// An empty store for the attestations of `emitter`, which retains
    /// `cache_size` slots.
    pub fn with_emitter(cache_size: u64, emitter: Emitter) -> (store: Self)
        ensures
            store.wf(),
            store@ == (StoreState {
                slots: Map::empty(),
                history: Map::empty(),
                limit: cache_size as nat,
                observed: Set::empty(),
                guardian_sets: Map::empty(),
                emitter,
                last_completed: None,
            }),
    {
        Store {
            storage: Storage::new(cache_size),
            observed_vaa_seqs: BTreeSet::new(),
            guardian_set: BTreeMap::new(),
            emitter,
            last_completed_update_at: None,
        }
    }

    /// Trusts `guardian_set` as the set with the index `id`, in the place of
    /// any set with that index before.
    pub fn update_guardian_set(&mut self, id: u32, guardian_set: GuardianSet)
        requires
            old(self).wf(),
        ensures
            final(self).wf(),
            final(self)@ == (StoreState {
                guardian_sets: old(self)@.guardian_sets.insert(id, guardian_set),
                ..old(self)@
            }),
    {
        self.guardian_set.insert(id, guardian_set);
    }

    /// Records that the notification of a completed slot went out at `now`.
    pub fn record_completion(&mut self, now: Monotonic)
        requires
            old(self).wf(),
        ensures
            final(self).wf(),
            final(self)@ == (StoreState { last_completed: Some(now), ..old(self)@ }),
    {
        self.last_completed_update_at = Some(now);
    }

    /// Whether a slot was completed less than 30 seconds before `now`.
    pub fn is_ready(&self, now: Monotonic) -> (ready: bool)
        ensures
            ready == spec_ready(self@.last_completed, now),
    {
        match self.last_completed_update_at {
            Some(at) => {
                let passed = if now >= at {
                    now - at
                } else {
                    0
                };
                passed < READINESS_STALENESS_THRESHOLD
            },
            None => false,
        }
    }

    /// Takes one update: a batch of messages, or the bytes of an attestation.
    /// The update is stored under its slot; where that makes the slot complete,
    /// the message states of the slot are built and published, and the status
    /// tells the caller to send a notification. `received_at` is the wall-clock
    /// time that the message states of a completed slot are stamped with.
    ///
    /// Attestations that do not concern the store or cannot be verified are
    /// dropped without an error. An attestation that does not parse, a payload
    /// that holds no root, and halves that contradict each other are errors.
    pub fn store_update(&mut self, update: Update, received_at: UnixTimestamp) -> (result: Result<
        UpdateStatus,
        StoreError,
    >)
        requires
            old(self).wf(),
        ensures
            final(self).wf(),
            transition(old(self)@, update, received_at, final(self)@, result),
    {
        let slot = match update {
            Update::Vaa(vaa_bytes) => {
                let vaa = match parse_vaa(&vaa_bytes) {
                    Some(vaa) => vaa,
                    None => {
                        return Err(StoreError::MalformedVaa);
                    },
                };
                if vaa.emitter_chain != self.emitter.chain || !crate::types::bytes_equal(
                    &vaa.emitter_address,
                    &self.emitter.address,
                ) {
                    return Ok(UpdateStatus::ForeignEmitter);
                }
                if self.observed_vaa_seqs.contains(&vaa.sequence) {
                    return Ok(UpdateStatus::AlreadyObserved);
                }
                let vaa = match verify_vaa(&self.emitter, &self.guardian_set, vaa) {
                    Ok(vaa) => vaa,
                    Err(e) => {
                        return Ok(UpdateStatus::Unverifiable(e));
                    },
                };
                self.observed_vaa_seqs.insert(vaa.sequence);
                retain_largest(&mut self.observed_vaa_seqs, OBSERVED_CACHE_SIZE);
                let root = match decode_merkle_root(&vaa.payload) {
                    Some(root) => root,
                    None => {
                        return Err(StoreError::MalformedPayload);
                    },
                };
                let state = WormholeMerkleState { root, vaa: vaa_bytes };
                assert(committed(state));
                self.storage.store_wormhole_merkle_state(state);
                root.slot
            },
            Update::AccumulatorMessages(accumulator_messages) => {
                let slot = accumulator_messages.slot;
                self.storage.store_accumulator_messages(accumulator_messages);
                slot
            },
        };
        let ghost stored = self@;
        if self.storage.fetch_accumulator_messages(slot).is_none()
            || self.storage.fetch_wormhole_merkle_state(slot).is_none() {
            return Ok(UpdateStatus::Pending);
        }
        if !self.storage.mark_completed(slot) {
            assert(self@ == stored);
            return Ok(UpdateStatus::AlreadyCompleted);
        }
        match self.build_message_states(slot, received_at) {
            Ok(()) => Ok(UpdateStatus::Completed),
            Err(e) => Err(e),
        }
    }

    /// Builds the message states of `slot`, of which the cache holds both
    /// halves, enters them in the history and enforces the cache policy. On a
    /// fault nothing changes.
    fn build_message_states(&mut self, slot: Slot, received_at: UnixTimestamp) -> (result: Result<
        (),
        StoreError,
    >)
        requires
            old(self).wf(),
            old(self)@.slots.contains_key(slot),
            old(self)@.slots[slot].accumulator_messages is Some,
            old(self)@.slots[slot].wormhole_merkle_state is Some,
        ensures
            final(self).wf(),
            match result {
                Ok(()) => spec_fault(
                    old(self)@.slots[slot].accumulator_messages->0,
                    old(self)@.slots[slot].wormhole_merkle_state->0,
                ) is None && exists|states: Seq<MessageState>|
                    {
                        &&& #[trigger] built(
                            states,
                            old(self)@.slots[slot].accumulator_messages->0,
                            old(self)@.slots[slot].wormhole_merkle_state->0,
                            received_at,
                        )
                        &&& final(self)@ == (StoreState {
                            slots: without_dropped(
                                old(self)@.slots,
                                entered(old(self)@.history, states, states.len()),
                                old(self)@.limit,
                            ),
                            history: evicted(
                                entered(old(self)@.history, states, states.len()),
                                old(self)@.limit,
                            ),
                            ..old(self)@
                        })
                    },
                Err(e) => spec_fault(
                    old(self)@.slots[slot].accumulator_messages->0,
                    old(self)@.slots[slot].wormhole_merkle_state->0,
                ) == Some(e) && final(self)@ == old(self)@,
            },
    {
        let built_states = match (
            self.storage.fetch_accumulator_messages(slot),
            self.storage.fetch_wormhole_merkle_state(slot),
        ) {
            (Some(accumulator_messages), Some(wormhole_merkle_state)) => {
                proof {
                    self.storage.lemma_wf();
                }
                construct_message_states(accumulator_messages, wormhole_merkle_state, received_at)
            },
            _ => {
                // The caller has seen both halves.
                assert(false);
                return Ok(());
            },
        };
        let states = match built_states {
            Ok(states) => states,
            Err(e) => {
                return Err(e);
            },
        };
        let ghost batch = old(self)@.slots[slot].accumulator_messages->0;
        let ghost root = old(self)@.slots[slot].wormhole_merkle_state->0;
        proof {
            self.storage.lemma_wf();
            assert(committed(root));
            assert forall|i: int| 0 <= i < states@.len() implies attested(#[trigger] states@[i]) by {
                assert(batch.raw_messages.deep_view()[i] == batch.raw_messages@[i]@);
            }
        }
        let ghost before = self.storage.history();
        let ghost list = states@;
        self.storage.store_message_states(states);
        proof {
            assert forall|id: MessageStateId| #[trigger]
                self.storage.history().contains_key(id) implies attested(
                self.storage.history()[id],
            ) by {
                lemma_entered_origin(before, list, list.len(), id);
            }
            assert(built(list, batch, root, received_at));
        }
        Ok(())
    }

    /// Answers a query for the prices of several feeds. For each requested
    /// feed, in the order of the request, the answer holds the price that the
    /// query selects, with update data for that message alone; and it holds
    /// update data for all the selected messages together, one blob for each
    /// slot. The query fails as a whole with `NotFound` where some feed has no
    /// price that answers it.
    pub fn get_price_feeds_with_update_data(
        &self,
        price_ids: Vec<FeedId>,
        request_time: RequestTime,
    ) -> (result: Result<PriceFeedsWithUpdateData, StoreError>)
        requires
            self.wf(),
        ensures
            match result {
                Ok(found) => {
                    let states = query_answers(self@.history, price_ids@, request_time);
                    &&& all_answered(self@.history, price_ids@, request_time)
                    &&& !unpackable(states)
                    &&& found.price_feeds@.len() == price_ids@.len()
                    &&& forall|i: int|
                        0 <= i < price_ids@.len() ==> reports(
                            #[trigger] found.price_feeds@[i],
                            states[i],
                        )
                    &&& is_update_data(states, found.wormhole_merkle_update_data.deep_view())
                },
                Err(e) => match e {
                    StoreError::NotFound => !all_answered(self@.history, price_ids@, request_time),
                    StoreError::UpdateData => all_answered(
                        self@.history,
                        price_ids@,
                        request_time,
                    ) && unpackable(query_answers(self@.history, price_ids@, request_time)),
                    _ => false,
                },
            },
    {
        let ghost history = self@.history;
        let ghost ids = price_ids@;
        let ghost filter = MessageStateFilter::Only(MessageType::PriceFeedMessage);
        let ghost states = query_answers(history, ids, request_time);
        proof {
            lemma_requested_only(ids, MessageType::PriceFeedMessage, ids.len());
        }
        let messages = match self.storage.fetch_message_states(
            price_ids,
            request_time,
            MessageStateFilter::Only(MessageType::PriceFeedMessage),
        ) {
            Ok(messages) => messages,
            Err(e) => {
                proof {
                    let j = choose|j: int|
                        0 <= j < requested_keys(ids, filter, ids.len()).len() && unanswered(
                            history,
                            #[trigger] requested_keys(ids, filter, ids.len())[j],
                            request_time,
                        );
                    assert(requested_keys(ids, filter, ids.len())[j] == price_feed_key(ids[j]));
                }
                return Err(e);
            },
        };
        proof {
            assert forall|i: int| 0 <= i < ids.len() implies *messages@[i] == states[i]
                && !unanswered(history, price_feed_key(#[trigger] ids[i]), request_time) by {
                assert(requested_keys(ids, filter, ids.len())[i] == price_feed_key(ids[i]));
                lemma_selected_is_answer(
                    history,
                    price_feed_key(ids[i]),
                    request_time,
                    *messages@[i],
                );
            }
            assert(states_of(messages@) =~= states);
        }
        let mut price_feeds: Vec<PriceFeedUpdate> = Vec::with_capacity(messages.len());
        let mut i: usize = 0;
        while i < messages.len()
            invariant
                i <= messages.len(),
                states_of(messages@) == states,
                states.len() == ids.len(),
                history == self@.history,
                ids == price_ids@,
                states == query_answers(history, ids, request_time),
                all_answered(history, ids, request_time),
                forall|k: int|
                    0 <= k < states.len() ==> selects(
                        history,
                        price_feed_key(ids[k]),
                        request_time,
                        #[trigger] states[k],
                    ),
                price_feeds@.len() == i,
                forall|k: int| 0 <= k < i ==> reports(#[trigger] price_feeds@[k], states[k]),
            decreases messages.len() - i,
        {
            let message_state = messages[i];
            assert(*message_state == states_of(messages@)[i as int]);
            assert(selects(history, price_feed_key(ids[i as int]), request_time, states[i as int]));
            match message_state.message {
                Message::PriceFeedMessage(price_feed) => {
                    let update_data = match construct_single_update_data(message_state) {
                        Ok(update_data) => update_data,
                        Err(e) => {
                            assert(spec_single_update_data(states[i as int]) is None);
                            return Err(e);
                        },
                    };
                    price_feeds.push(
                        PriceFeedUpdate {
                            price_feed,
                            slot: message_state.slot,
                            received_at: message_state.received_at,
                            wormhole_merkle_update_data: update_data,
                        },
                    );
                },
                _ => {
                    // The filter lets nothing but prices through.
                    assert(false);
                    return Err(StoreError::TypeMismatch);
                },
            }
            i += 1;
        }
        let update_data = match construct_update_data(messages) {
            Ok(update_data) => update_data,
            Err(e) => {
                return Err(e);
            },
        };
        proof {
            if unpackable(states) {
                if exists|k: int|
                    0 <= k < states.len() && spec_single_update_data(#[trigger] states[k]) is None {
                    let k = choose|k: int|
                        0 <= k < states.len() && spec_single_update_data(#[trigger] states[k])
                            is None;
                    assert(reports(price_feeds@[k], states[k]));
                } else {
                    let slot = choose|slot: Slot| #[trigger]
                        slots_of(states).contains(slot) && spec_slot_update_data(states, slot)
                            is None;
                    let slots = choose|slots: Seq<Slot>|
                        crate::wormhole_merkle::packs(states, slots, update_data.deep_view());
                    assert(slots.to_set().contains(slot));
                    let at = choose|at: int| 0 <= at < slots.len() && slots[at] == slot;
                    assert(spec_slot_update_data(states, slots[at]) is Some);
                }
            }
        }
        Ok(PriceFeedsWithUpdateData { price_feeds, wormhole_merkle_update_data: update_data })
    }

    /// The feeds that have an entry in the history, each once.
    pub fn get_price_feed_ids(&self) -> (ids: Vec<FeedId>)
        requires
            self.wf(),
        ensures
            ids@.no_duplicates(),
            forall|feed_id: FeedId|
                ids@.contains(feed_id) <==> exists|id: MessageStateId| #[trigger]
                    self@.history.contains_key(id) && id.key.feed_id == feed_id,
    {
        let keys = self.storage.message_state_keys();
        let mut ids: Vec<FeedId> = Vec::new();
        let mut i: usize = 0;
        while i < keys.len()
            invariant
                i <= keys.len(),
                ids@.no_duplicates(),
                forall|feed_id: FeedId|
                    ids@.contains(feed_id) <==> exists|k: int|
                        0 <= k < i && (#[trigger] keys@[k]).feed_id == feed_id,
            decreases keys.len() - i,
        {
            let feed_id = keys[i].feed_id;
            let mut known = false;
            let mut j: usize = 0;
            while j < ids.len()
                invariant
                    j <= ids.len(),
                    known <==> exists|k: int| 0 <= k < j && ids@[k] == feed_id,
                decreases ids.len() - j,
            {
                if crate::types::bytes_equal(&ids[j], &feed_id) {
                    known = true;
                }
                j += 1;
            }
            let ghost before = ids@;
            if !known {
                ids.push(feed_id);
            }
            proof {
                assert(known <==> before.contains(feed_id));
                assert forall|other: FeedId| ids@.contains(other) <==> exists|k: int|
                    0 <= k < i + 1 && (#[trigger] keys@[k]).feed_id == other by {
                    if ids@.contains(other) {
                        let at = choose|at: int| 0 <= at < ids@.len() && ids@[at] == other;
                        if at < before.len() {
                            assert(before.contains(other));
                            let k = choose|k: int|
                                0 <= k < i && (#[trigger] keys@[k]).feed_id == other;
                            assert(0 <= k < i + 1 && keys@[k].feed_id == other);
                        } else {
                            assert(keys@[i as int].feed_id == other);
                        }
                    }
                    if exists|k: int| 0 <= k < i + 1 && (#[trigger] keys@[k]).feed_id == other {
                        let k = choose|k: int|
                            0 <= k < i + 1 && (#[trigger] keys@[k]).feed_id == other;
                        if k < i || known {
                            assert(before.contains(other));
                            let at = choose|at: int| 0 <= at < before.len() && before[at] == other;
                            assert(ids@[at] == other);
                        } else {
                            assert(ids@[before.len() as int] == other);
                        }
                    }
                }
            }
            i += 1;
        }
        proof {
            assert forall|feed_id: FeedId| ids@.contains(feed_id) <==> exists|id: MessageStateId| #[trigger]
                self@.history.contains_key(id) && id.key.feed_id == feed_id by {
                if ids@.contains(feed_id) {
                    let k = choose|k: int| 0 <= k < i && (#[trigger] keys@[k]).feed_id == feed_id;
                    assert(keys@.contains(keys@[k]));
                    let id = choose|id: MessageStateId| #[trigger]
                        self@.history.contains_key(id) && id.key == keys@[k];
                    assert(self@.history.contains_key(id) && id.key.feed_id == feed_id);
                }
                if exists|id: MessageStateId| #[trigger]
                    self@.history.contains_key(id) && id.key.feed_id == feed_id {
                    let id = choose|id: MessageStateId| #[trigger]
                        self@.history.contains_key(id) && id.key.feed_id == feed_id;
                    assert(keys@.contains(id.key));
                    let k = choose|k: int| 0 <= k < keys@.len() && keys@[k] == id.key;
                    assert(keys@[k].feed_id == feed_id);
                }
            }
        }
        ids
    }
}

} // verus!
