//! The history of completed messages as the contracts speak of it: a map
//! from the key and time of each entry to the entry, what it means to enter
//! states and to enforce the cache policy, and which entry answers a query.

use crate::message::MessageType;
use crate::order::largest;
use crate::order::lemma_largest_absorbs;
use crate::order::lemma_largest_len;
use crate::storage::MessageState;
use crate::storage::MessageStateFilter;
use crate::storage::MessageStateId;
use crate::storage::MessageStateKey;
use crate::types::FeedId;
use crate::types::RequestTime;
use crate::types::Slot;
use crate::types::UnixTimestamp;
use vstd::prelude::*;

verus! {

/// The slots that have an entry in `history`.
pub open spec fn history_slots(history: Map<MessageStateId, MessageState>) -> Set<Slot> {
    Set::new(|slot: Slot| exists|id: MessageStateId| #[trigger] history.contains_key(id) && id.time.slot == slot)
}

/// The entries of `history` whose slot is among `slots`.
pub open spec fn of_slots(history: Map<MessageStateId, MessageState>, slots: Set<Slot>) -> Map<
    MessageStateId,
    MessageState,
> {
    history.restrict(Set::new(|id: MessageStateId| slots.contains(id.time.slot)))
}

/// The history after the cache policy has been enforced: the entries of the
/// `limit` largest slots that have any.
pub open spec fn evicted(history: Map<MessageStateId, MessageState>, limit: nat) -> Map<
    MessageStateId,
    MessageState,
> {
    of_slots(history, largest(history_slots(history), limit))
}

/// The history after the first `n` of `states` have been entered in turn, each
/// under its key and time, a later one in the place of an earlier one.
pub open spec fn entered(
    history: Map<MessageStateId, MessageState>,
    states: Seq<MessageState>,
    n: nat,
) -> Map<MessageStateId, MessageState>
    decreases n,
{
    if n == 0 {
        history
    } else {
        entered(history, states, (n - 1) as nat).insert(states[n - 1].id(), states[n - 1])
    }
}

/// Whether `id` is the latest entry of `key`: none of the key comes after it.
pub open spec fn is_latest(
    history: Map<MessageStateId, MessageState>,
    key: MessageStateKey,
    id: MessageStateId,
) -> bool {
    &&& history.contains_key(id)
    &&& id.key == key
    &&& forall|other: MessageStateId| #[trigger]
        history.contains_key(other) && other.key == key ==> other.time.spec_le(id.time)
}

/// Whether the history of `key` reaches back to `time`: it holds an entry of
/// the key that was published at or before that time. Where it does not, the
/// first entry after `time` may be one that the cache has dropped.
pub open spec fn reaches_back(
    history: Map<MessageStateId, MessageState>,
    key: MessageStateKey,
    time: UnixTimestamp,
) -> bool {
    exists|other: MessageStateId| #[trigger]
        history.contains_key(other) && other.key == key && other.time.publish_time <= time
}

/// Whether `id` is the first entry of `key` at or after `time`: it was
/// published no earlier than `time`, no entry of the key published no earlier
/// than `time` comes before it, and the history of the key reaches back to
/// `time`.
pub open spec fn is_first_after(
    history: Map<MessageStateId, MessageState>,
    key: MessageStateKey,
    time: UnixTimestamp,
    id: MessageStateId,
) -> bool {
    &&& history.contains_key(id)
    &&& id.key == key
    &&& id.time.publish_time >= time
    &&& reaches_back(history, key, time)
    &&& forall|other: MessageStateId| #[trigger]
        history.contains_key(other) && other.key == key && other.time.publish_time >= time
            ==> id.time.spec_le(other.time)
}

/// Whether `id` is the entry that answers a query for `key` at `request_time`.
pub open spec fn answers(
    history: Map<MessageStateId, MessageState>,
    key: MessageStateKey,
    request_time: RequestTime,
    id: MessageStateId,
) -> bool {
    match request_time {
        RequestTime::Latest => is_latest(history, key, id),
        RequestTime::FirstAfter(time) => is_first_after(history, key, time, id),
    }
}

/// Whether no entry answers a query for `key` at `request_time`.
pub open spec fn unanswered(
    history: Map<MessageStateId, MessageState>,
    key: MessageStateKey,
    request_time: RequestTime,
) -> bool {
    forall|id: MessageStateId| !answers(history, key, request_time, id)
}

/// The entry that answers a query for `key` at `request_time`, where one does.
pub open spec fn answer(
    history: Map<MessageStateId, MessageState>,
    key: MessageStateKey,
    request_time: RequestTime,
) -> MessageState {
    history[choose|id: MessageStateId| answers(history, key, request_time, id)]
}

/// Whether `state` is the entry of the history that answers a query for `key`
/// at `request_time`.
pub open spec fn selects(
    history: Map<MessageStateId, MessageState>,
    key: MessageStateKey,
    request_time: RequestTime,
    state: MessageState,
) -> bool {
    &&& history.contains_key(state.id())
    &&& history[state.id()] == state
    &&& answers(history, key, request_time, state.id())
}

/// The kinds of message that pass `filter`.
pub open spec fn filter_types(filter: MessageStateFilter) -> Seq<MessageType> {
    match filter {
        MessageStateFilter::All => seq![
            MessageType::PriceFeedMessage,
            MessageType::TwapMessage,
            MessageType::PublisherStakeCapsMessage,
        ],
        MessageStateFilter::Only(kind) => seq![kind],
    }
}

/// The keys of the feed `feed_id` for the kinds `kinds`.
pub open spec fn feed_keys(feed_id: FeedId, kinds: Seq<MessageType>) -> Seq<MessageStateKey> {
    Seq::new(kinds.len(), |i: int| MessageStateKey { feed_id, type_: kinds[i] })
}

/// The keys that a query for the first `n` of `ids` asks for: feed by feed in
/// the order of the request, and for each feed the kinds that pass `filter`.
pub open spec fn requested_keys(ids: Seq<FeedId>, filter: MessageStateFilter, n: nat) -> Seq<
    MessageStateKey,
>
    decreases n,
{
    if n == 0 {
        Seq::empty()
    } else {
        requested_keys(ids, filter, (n - 1) as nat) + feed_keys(ids[n - 1], filter_types(filter))
    }
}

/// At most one entry answers a query: two entries that both answer it have the
/// same key and time.
pub proof fn lemma_answer_unique(
    history: Map<MessageStateId, MessageState>,
    key: MessageStateKey,
    request_time: RequestTime,
    a: MessageStateId,
    b: MessageStateId,
)
    requires
        answers(history, key, request_time, a),
        answers(history, key, request_time, b),
    ensures
        a == b,
{
    assert(a.time.spec_le(b.time) && b.time.spec_le(a.time));
}

/// The entry that a query selects is the answer to it, and the query is not
/// unanswered.
pub proof fn lemma_selected_is_answer(
    history: Map<MessageStateId, MessageState>,
    key: MessageStateKey,
    request_time: RequestTime,
    state: MessageState,
)
    requires
        selects(history, key, request_time, state),
    ensures
        state == answer(history, key, request_time),
        !unanswered(history, key, request_time),
{
    let id = choose|id: MessageStateId| answers(history, key, request_time, id);
    lemma_answer_unique(history, key, request_time, id, state.id());
}

/// A query for one kind of message asks for one key for each feed, in the
/// order of the request.
pub proof fn lemma_requested_only(ids: Seq<FeedId>, kind: MessageType, n: nat)
    requires
        n <= ids.len(),
    ensures
        requested_keys(ids, MessageStateFilter::Only(kind), n).len() == n,
        forall|i: int|
            0 <= i < n ==> #[trigger] requested_keys(ids, MessageStateFilter::Only(kind), n)[i]
                == (MessageStateKey { feed_id: ids[i], type_: kind }),
    decreases n,
{
    if n > 0 {
        lemma_requested_only(ids, kind, (n - 1) as nat);
    }
}

/// Every entry that entering `states` leaves in the history was there before
/// or is one of `states`.
pub proof fn lemma_entered_origin(
    history: Map<MessageStateId, MessageState>,
    states: Seq<MessageState>,
    n: nat,
    id: MessageStateId,
)
    requires
        n <= states.len(),
        entered(history, states, n).contains_key(id),
    ensures
        (history.contains_key(id) && entered(history, states, n)[id] == history[id]) || exists|
            i: int,
        |
            0 <= i < n && #[trigger] states[i] == entered(history, states, n)[id],
    decreases n,
{
    if n > 0 {
        if id == states[n - 1].id() {
            assert(states[n - 1] == entered(history, states, n)[id]);
        } else {
            lemma_entered_origin(history, states, (n - 1) as nat, id);
        }
    }
}

/// The slots of the first `n` of `states`.
pub open spec fn seq_slots(states: Seq<MessageState>, n: nat) -> Set<Slot>
    decreases n,
{
    if n == 0 {
        Set::empty()
    } else {
        seq_slots(states, (n - 1) as nat).insert(states[n - 1].slot)
    }
}

/// The history of a cache that started empty, after the first `n` of
/// `batches` have been stored in it one after the other.
pub open spec fn published(batches: Seq<Seq<MessageState>>, limit: nat, n: nat) -> Map<
    MessageStateId,
    MessageState,
>
    decreases n,
{
    if n == 0 {
        Map::empty()
    } else {
        evicted(
            entered(published(batches, limit, (n - 1) as nat), batches[n - 1], batches[n - 1].len()),
            limit,
        )
    }
}

/// The slots of all the states in the first `n` of `batches`.
pub open spec fn ever_published(batches: Seq<Seq<MessageState>>, n: nat) -> Set<Slot>
    decreases n,
{
    if n == 0 {
        Set::empty()
    } else {
        ever_published(batches, (n - 1) as nat).union(
            seq_slots(batches[n - 1], batches[n - 1].len()),
        )
    }
}

/// The slots of some states are finitely many.
pub proof fn lemma_seq_slots_finite(states: Seq<MessageState>, n: nat)
    ensures
        seq_slots(states, n).finite(),
    decreases n,
{
    if n > 0 {
        lemma_seq_slots_finite(states, (n - 1) as nat);
    }
}

/// Entering states adds their slots to those of the history.
pub proof fn lemma_entered_slots(
    history: Map<MessageStateId, MessageState>,
    states: Seq<MessageState>,
    n: nat,
)
    requires
        n <= states.len(),
    ensures
        history_slots(entered(history, states, n)) == history_slots(history).union(
            seq_slots(states, n),
        ),
    decreases n,
{
    if n == 0 {
        assert(history_slots(history).union(seq_slots(states, 0)) =~= history_slots(history));
    } else {
        let before = entered(history, states, (n - 1) as nat);
        let state = states[n - 1];
        lemma_entered_slots(history, states, (n - 1) as nat);
        assert forall|slot: Slot| history_slots(before.insert(state.id(), state)).contains(slot)
            <==> history_slots(before).insert(state.slot).contains(slot) by {
            if history_slots(before.insert(state.id(), state)).contains(slot) {
                let id = choose|id: MessageStateId| #[trigger]
                    before.insert(state.id(), state).contains_key(id) && id.time.slot == slot;
                if id != state.id() {
                    assert(before.contains_key(id));
                }
            }
            if history_slots(before).contains(slot) {
                let id = choose|id: MessageStateId| #[trigger]
                    before.contains_key(id) && id.time.slot == slot;
                assert(before.insert(state.id(), state).contains_key(id));
            }
            if slot == state.slot {
                assert(before.insert(state.id(), state).contains_key(state.id()));
            }
        }
        assert(history_slots(before.insert(state.id(), state)) =~= history_slots(before).insert(
            state.slot,
        ));
        assert(history_slots(before).insert(state.slot) =~= history_slots(history).union(
            seq_slots(states, n),
        ));
    }
}

/// After the cache policy has been enforced, the slots that have an entry are
/// the largest ones, within the limit, of those that had one.
pub proof fn lemma_evicted_slots(history: Map<MessageStateId, MessageState>, limit: nat)
    ensures
        history_slots(evicted(history, limit)) == largest(history_slots(history), limit),
{
    let kept = largest(history_slots(history), limit);
    assert forall|slot: Slot| history_slots(evicted(history, limit)).contains(slot)
        <==> kept.contains(slot) by {
        if history_slots(evicted(history, limit)).contains(slot) {
            let id = choose|id: MessageStateId| #[trigger]
                evicted(history, limit).contains_key(id) && id.time.slot == slot;
            assert(kept.contains(id.time.slot));
        }
        if kept.contains(slot) {
            assert(history_slots(history).contains(slot));
            let id = choose|id: MessageStateId| #[trigger]
                history.contains_key(id) && id.time.slot == slot;
            assert(evicted(history, limit).contains_key(id));
        }
    }
    assert(history_slots(evicted(history, limit)) =~= kept);
}

/// However many batches are stored and in whatever order their slots come,
/// the slots that have an entry afterwards are the largest ones, within the
/// limit, of all the slots that ever had one. So they are never more than the
/// limit.
pub proof fn lemma_retained_slots(batches: Seq<Seq<MessageState>>, limit: nat, n: nat)
    requires
        n <= batches.len(),
    ensures
        ever_published(batches, n).finite(),
        history_slots(published(batches, limit, n)) == largest(ever_published(batches, n), limit),
        history_slots(published(batches, limit, n)).len() <= limit,
    decreases n,
{
    if n == 0 {
        assert(history_slots(published(batches, limit, 0)) =~= Set::<Slot>::empty());
        assert(largest(Set::<Slot>::empty(), limit) =~= Set::<Slot>::empty());
    } else {
        let before = published(batches, limit, (n - 1) as nat);
        let batch = batches[n - 1];
        lemma_retained_slots(batches, limit, (n - 1) as nat);
        lemma_seq_slots_finite(batch, batch.len());
        lemma_entered_slots(before, batch, batch.len());
        lemma_evicted_slots(entered(before, batch, batch.len()), limit);
        lemma_largest_absorbs(
            ever_published(batches, (n - 1) as nat),
            seq_slots(batch, batch.len()),
            limit,
        );
        lemma_largest_len(ever_published(batches, n), limit);
    }
}

/// The keys of a shorter request open the keys of a longer one.
pub proof fn lemma_requested_prefix(
    ids: Seq<FeedId>,
    filter: MessageStateFilter,
    n: nat,
    m: nat,
)
    requires
        n <= m <= ids.len(),
    ensures
        requested_keys(ids, filter, n).len() <= requested_keys(ids, filter, m).len(),
        forall|j: int|
            0 <= j < requested_keys(ids, filter, n).len() ==> requested_keys(ids, filter, n)[j]
                == #[trigger] requested_keys(ids, filter, m)[j],
    decreases m,
{
    if n < m {
        lemma_requested_prefix(ids, filter, n, (m - 1) as nat);
    }
}

} // verus!
