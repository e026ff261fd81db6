//! The history of completed messages as the store keeps it: the entries of
//! each key together, so that a query looks at the entries of its key only.

use crate::storage::history::answers;
use crate::storage::history::history_slots;
use crate::storage::history::of_slots;
use crate::storage::history::selects;
use crate::storage::history::unanswered;
use crate::storage::MessageState;
use crate::storage::MessageStateId;
use crate::storage::MessageStateKey;
use crate::storage::MessageStateTime;
use crate::types::RequestTime;
use crate::types::Slot;
use std::collections::BTreeSet;
use vstd::prelude::*;

verus! {

broadcast use vstd::std_specs::btree::group_btree_axioms, vstd::laws_cmp::group_laws_cmp;

/// The entries of one key, in no particular order.
struct FeedHistory {
    key: MessageStateKey,
    states: Vec<MessageState>,
}

/// The history of completed messages.
pub struct History {
    feeds: Vec<FeedHistory>,
}

/// Whether `feeds` has a feed `f` with a state `i`.
spec fn within(feeds: Seq<FeedHistory>, f: int, i: int) -> bool {
    0 <= f < feeds.len() && 0 <= i < feeds[f].states@.len()
}

/// State `i` of feed `f`.
spec fn at(feeds: Seq<FeedHistory>, f: int, i: int) -> MessageState {
    feeds[f].states@[i]
}

/// Whether no two of `states` have the same time.
spec fn apart(states: Seq<MessageState>) -> bool {
    forall|i: int, j: int|
        0 <= i < j < states.len() ==> (#[trigger] states[i]).spec_time() != (
        #[trigger] states[j]).spec_time()
}

/// Whether all of `states` have the key `key`.
spec fn keyed(states: Seq<MessageState>, key: MessageStateKey) -> bool {
    forall|i: int| 0 <= i < states.len() ==> (#[trigger] states[i]).spec_key() == key
}

/// Whether every state is filed under its key, at a time of its own, and no
/// key has two feeds.
spec fn filed(feeds: Seq<FeedHistory>) -> bool {
    &&& forall|f: int|
        0 <= f < feeds.len() ==> keyed((#[trigger] feeds[f]).states@, feeds[f].key) && apart(
            feeds[f].states@,
        )
    &&& forall|f: int, g: int|
        0 <= f < g < feeds.len() ==> (#[trigger] feeds[f]).key != (#[trigger] feeds[g]).key
}

/// Whether every feed has a state.
spec fn inhabited(feeds: Seq<FeedHistory>) -> bool {
    forall|f: int| 0 <= f < feeds.len() ==> (#[trigger] feeds[f]).states@.len() > 0
}

/// Whether `feeds` holds a state with the key and time `id`.
spec fn has_id(feeds: Seq<FeedHistory>, id: MessageStateId) -> bool {
    exists|f: int, i: int| within(feeds, f, i) && (#[trigger] at(feeds, f, i)).id() == id
}

/// The state with the key and time `id`.
spec fn entry(feeds: Seq<FeedHistory>, id: MessageStateId) -> MessageState {
    let (f, i) = choose|f: int, i: int|
        within(feeds, f, i) && (#[trigger] at(feeds, f, i)).id() == id;
    at(feeds, f, i)
}

/// Whether `feeds` holds `state`.
spec fn held(feeds: Seq<FeedHistory>, state: MessageState) -> bool {
    exists|f: int, i: int| within(feeds, f, i) && (#[trigger] at(feeds, f, i)) == state
}

/// The history that `feeds` make up: each state under its key and time.
spec fn history_of(feeds: Seq<FeedHistory>) -> Map<MessageStateId, MessageState> {
    Map::new(|id: MessageStateId| has_id(feeds, id), |id: MessageStateId| entry(feeds, id))
}

/// A key and time has one place.
proof fn lemma_place(feeds: Seq<FeedHistory>, f: int, i: int, g: int, j: int)
    requires
        filed(feeds),
        within(feeds, f, i),
        within(feeds, g, j),
        at(feeds, f, i).id() == at(feeds, g, j).id(),
    ensures
        f == g,
        i == j,
{
    assert(feeds[f].states@[i].spec_key() == feeds[f].key);
    assert(feeds[g].states@[j].spec_key() == feeds[g].key);
    if f < g {
        assert(feeds[f].key != feeds[g].key);
    } else if g < f {
        assert(feeds[g].key != feeds[f].key);
    } else if i < j {
        assert(feeds[f].states@[i].spec_time() != feeds[f].states@[j].spec_time());
    } else if j < i {
        assert(feeds[f].states@[j].spec_time() != feeds[f].states@[i].spec_time());
    }
}

/// A state stands in the history under its own key and time.
proof fn lemma_entry(feeds: Seq<FeedHistory>, f: int, i: int)
    requires
        filed(feeds),
        within(feeds, f, i),
    ensures
        history_of(feeds).contains_key(at(feeds, f, i).id()),
        history_of(feeds)[at(feeds, f, i).id()] == at(feeds, f, i),
{
    let id = at(feeds, f, i).id();
    let (g, j) = choose|g: int, j: int|
        within(feeds, g, j) && (#[trigger] at(feeds, g, j)).id() == id;
    lemma_place(feeds, f, i, g, j);
}

/// The entry of a key and time in the history is a state that is held.
proof fn lemma_entry_held(feeds: Seq<FeedHistory>, id: MessageStateId)
    requires
        has_id(feeds, id),
    ensures
        held(feeds, entry(feeds, id)),
        entry(feeds, id).id() == id,
{
    let (g, j) = choose|g: int, j: int|
        within(feeds, g, j) && (#[trigger] at(feeds, g, j)).id() == id;
    assert(within(feeds, g, j) && at(feeds, g, j) == entry(feeds, id));
}

/// Where `after` holds `state` and what `before` holds under other keys and
/// times, `state` has been entered in the history.
proof fn lemma_entered(before: Seq<FeedHistory>, after: Seq<FeedHistory>, state: MessageState)
    requires
        filed(before),
        filed(after),
        forall|other: MessageState|
            held(after, other) <==> (held(before, other) && other.id() != state.id()) || other
                == state,
    ensures
        history_of(after) == history_of(before).insert(state.id(), state),
{
    let target = history_of(before).insert(state.id(), state);
    assert forall|id: MessageStateId| history_of(after).contains_key(id) <==> target.contains_key(
        id,
    ) by {
        if has_id(after, id) {
            lemma_entry_held(after, id);
            let found = entry(after, id);
            if found != state {
                assert(held(before, found));
                let (f, i) = choose|f: int, i: int|
                    within(before, f, i) && (#[trigger] at(before, f, i)) == found;
                assert(at(before, f, i).id() == id);
            }
        }
        if has_id(before, id) && id != state.id() {
            lemma_entry_held(before, id);
            let found = entry(before, id);
            assert(held(after, found));
            let (f, i) = choose|f: int, i: int|
                within(after, f, i) && (#[trigger] at(after, f, i)) == found;
            assert(at(after, f, i).id() == id);
        }
        if id == state.id() {
            assert(held(after, state));
            let (f, i) = choose|f: int, i: int|
                within(after, f, i) && (#[trigger] at(after, f, i)) == state;
            assert(at(after, f, i).id() == id);
        }
    }
    assert forall|id: MessageStateId| history_of(after).contains_key(id) implies history_of(
        after,
    )[id] == target[id] by {
        lemma_entry_held(after, id);
        let found = entry(after, id);
        if found != state {
            assert(held(before, found) && found.id() != state.id());
            let (f, i) = choose|f: int, i: int|
                within(before, f, i) && (#[trigger] at(before, f, i)) == found;
            lemma_entry(before, f, i);
        }
    }
    assert(history_of(after) =~= target);
}

/// Where `after` holds those states of `before` whose slot is among `slots`,
/// the history has been cut down to the entries of those slots.
proof fn lemma_kept(before: Seq<FeedHistory>, after: Seq<FeedHistory>, slots: Set<Slot>)
    requires
        filed(before),
        filed(after),
        forall|state: MessageState|
            held(after, state) <==> held(before, state) && slots.contains(state.slot),
    ensures
        history_of(after) == of_slots(history_of(before), slots),
{
    let target = of_slots(history_of(before), slots);
    assert forall|id: MessageStateId| history_of(after).contains_key(id) <==> target.contains_key(
        id,
    ) by {
        if has_id(after, id) {
            lemma_entry_held(after, id);
            let found = entry(after, id);
            assert(held(before, found));
            let (f, i) = choose|f: int, i: int|
                within(before, f, i) && (#[trigger] at(before, f, i)) == found;
            assert(at(before, f, i).id() == id);
        }
        if has_id(before, id) && slots.contains(id.time.slot) {
            lemma_entry_held(before, id);
            let found = entry(before, id);
            assert(held(after, found));
            let (f, i) = choose|f: int, i: int|
                within(after, f, i) && (#[trigger] at(after, f, i)) == found;
            assert(at(after, f, i).id() == id);
        }
    }
    assert forall|id: MessageStateId| history_of(after).contains_key(id) implies history_of(
        after,
    )[id] == target[id] by {
        lemma_entry_held(after, id);
        let found = entry(after, id);
        assert(held(before, found));
        let (f, i) = choose|f: int, i: int|
            within(before, f, i) && (#[trigger] at(before, f, i)) == found;
        lemma_entry(before, f, i);
    }
    assert(history_of(after) =~= target);
}

/// The slots of the history are the slots of the states.
proof fn lemma_slots(feeds: Seq<FeedHistory>, slot: Slot)
    ensures
        history_slots(history_of(feeds)).contains(slot) <==> exists|f: int, i: int|
            within(feeds, f, i) && (#[trigger] at(feeds, f, i)).slot == slot,
{
    if history_slots(history_of(feeds)).contains(slot) {
        let id = choose|id: MessageStateId| #[trigger]
            history_of(feeds).contains_key(id) && id.time.slot == slot;
        let (f, i) = choose|f: int, i: int|
            within(feeds, f, i) && (#[trigger] at(feeds, f, i)).id() == id;
        assert(at(feeds, f, i).slot == slot);
    }
    if exists|f: int, i: int| within(feeds, f, i) && (#[trigger] at(feeds, f, i)).slot == slot {
        let (f, i) = choose|f: int, i: int|
            within(feeds, f, i) && (#[trigger] at(feeds, f, i)).slot == slot;
        assert(has_id(feeds, at(feeds, f, i).id()));
        assert(history_of(feeds).contains_key(at(feeds, f, i).id()));
    }
}

/// Adds the slots of `states` to `slots`.
fn add_slots(states: &Vec<MessageState>, slots: &mut BTreeSet<Slot>)
    requires
        old(slots)@.finite(),
    ensures
        final(slots)@.finite(),
        forall|slot: Slot|
            final(slots)@.contains(slot) <==> old(slots)@.contains(slot) || exists|i: int|
                0 <= i < states@.len() && (#[trigger] states@[i]).slot == slot,
{
    let mut i: usize = 0;
    while i < states.len()
        invariant
            i <= states.len(),
            slots@.finite(),
            forall|slot: Slot|
                slots@.contains(slot) <==> old(slots)@.contains(slot) || exists|k: int|
                    0 <= k < i && (#[trigger] states@[k]).slot == slot,
        decreases states.len() - i,
    {
        let ghost before = slots@;
        slots.insert(states[i].slot);
        assert forall|slot: Slot|
            slots@.contains(slot) <==> old(slots)@.contains(slot) || exists|k: int|
                0 <= k < i + 1 && (#[trigger] states@[k]).slot == slot by {
            if slots@.contains(slot) && !old(slots)@.contains(slot) {
                if before.contains(slot) {
                    let k = choose|k: int| 0 <= k < i && (#[trigger] states@[k]).slot == slot;
                    assert(0 <= k < i + 1 && states@[k].slot == slot);
                } else {
                    assert(states@[i as int].slot == slot);
                }
            }
            if exists|k: int| 0 <= k < i + 1 && (#[trigger] states@[k]).slot == slot {
                let k = choose|k: int| 0 <= k < i + 1 && (#[trigger] states@[k]).slot == slot;
                if k < i {
                    assert(before.contains(slot));
                }
            }
        }
        i += 1;
    }
}

/// Drops the states whose slot is not among `slots`.
fn drop_slots(states: &mut Vec<MessageState>, slots: &BTreeSet<Slot>)
    requires
        apart(old(states)@),
    ensures
        apart(final(states)@),
        forall|state: MessageState|
            final(states)@.contains(state) <==> old(states)@.contains(state) && slots@.contains(
                state.slot,
            ),
{
    let mut i: usize = 0;
    while i < states.len()
        invariant
            i <= states.len(),
            apart(states@),
            forall|k: int| 0 <= k < i ==> slots@.contains((#[trigger] states@[k]).slot),
            forall|state: MessageState| states@.contains(state) ==> old(states)@.contains(state),
            forall|state: MessageState|
                old(states)@.contains(state) && slots@.contains(state.slot) ==> states@.contains(
                    state,
                ),
        decreases states.len() - i,
    {
        if slots.contains(&states[i].slot) {
            i += 1;
        } else {
            let ghost before = states@;
            states.swap_remove(i);
            proof {
                let after = states@;
                let last = before.len() - 1;
                assert forall|a: int, b: int| 0 <= a < b < after.len() implies (
                #[trigger] after[a]).spec_time() != (#[trigger] after[b]).spec_time() by {
                    let from_a = if a == i { last } else { a };
                    let from_b = if b == i { last } else { b };
                    assert(after[a] == before[from_a]);
                    assert(after[b] == before[from_b]);
                    if from_a < from_b {
                        assert(before[from_a].spec_time() != before[from_b].spec_time());
                    } else {
                        assert(before[from_b].spec_time() != before[from_a].spec_time());
                    }
                }
                assert forall|state: MessageState| after.contains(state) implies old(
                    states,
                )@.contains(state) by {
                    let k = choose|k: int| 0 <= k < after.len() && after[k] == state;
                    let from = if k == i { last } else { k };
                    assert(before[from] == state);
                    assert(before.contains(state));
                }
                assert forall|state: MessageState|
                    old(states)@.contains(state) && slots@.contains(
                        state.slot,
                    ) implies after.contains(state) by {
                    assert(before.contains(state));
                    let k = choose|k: int| 0 <= k < before.len() && before[k] == state;
                    assert(k != i);
                    if k == last {
                        assert(after[i as int] == state);
                    } else {
                        assert(after[k] == state);
                    }
                }
            }
        }
    }
    proof {
        assert forall|state: MessageState| states@.contains(state) implies slots@.contains(
            state.slot,
        ) by {
            let k = choose|k: int| 0 <= k < states@.len() && states@[k] == state;
            assert(slots@.contains(states@[k].slot));
        }
    }
}

impl View for History {
    type V = Map<MessageStateId, MessageState>;

    /// The history as a map from the key and time of each entry to the entry.
    closed spec fn view(&self) -> Map<MessageStateId, MessageState> {
        history_of(self.feeds@)
    }
}

impl History {
    /// The invariant of the history.
    pub closed spec fn wf(&self) -> bool {
        filed(self.feeds@) && inhabited(self.feeds@)
    }

    /// Every entry stands under its own key and time.
    pub proof fn lemma_wf(&self)
        requires
            self.wf(),
        ensures
            forall|id: MessageStateId| #[trigger] self@.contains_key(id) ==> self@[id].id() == id,
    {
        assert forall|id: MessageStateId| #[trigger] self@.contains_key(id) implies self@[id].id()
            == id by {
            lemma_entry_held(self.feeds@, id);
        }
    }

    /// An empty history.
    pub fn new() -> (history: Self)
        ensures
            history.wf(),
            history@ == Map::<MessageStateId, MessageState>::empty(),
    {
        let history = History { feeds: Vec::new() };
        assert(history@ =~= Map::<MessageStateId, MessageState>::empty());
        history
    }

    /// The feed of `key`, where there is one.
    fn find(&self, key: &MessageStateKey) -> (found: Option<usize>)
        ensures
            match found {
                Some(f) => f < self.feeds@.len() && self.feeds@[f as int].key == *key,
                None => forall|f: int|
                    0 <= f < self.feeds@.len() ==> (#[trigger] self.feeds@[f]).key != *key,
            },
    {
        let mut f: usize = 0;
        while f < self.feeds.len()
            invariant
                f <= self.feeds.len(),
                forall|g: int| 0 <= g < f ==> (#[trigger] self.feeds@[g]).key != *key,
            decreases self.feeds.len() - f,
        {
            if self.feeds[f].key.same(key) {
                return Some(f);
            }
            f += 1;
        }
        None
    }

    /// The place of the state with the time `time` among `states`, where there
    /// is one.
    fn position(states: &Vec<MessageState>, time: MessageStateTime) -> (place: Option<usize>)
        ensures
            match place {
                Some(i) => i < states@.len() && states@[i as int].spec_time() == time,
                None => forall|k: int|
                    0 <= k < states@.len() ==> (#[trigger] states@[k]).spec_time() != time,
            },
    {
        let mut i: usize = 0;
        while i < states.len()
            invariant
                i <= states.len(),
                forall|k: int| 0 <= k < i ==> (#[trigger] states@[k]).spec_time() != time,
            decreases states.len() - i,
        {
            let held_time = states[i].time();
            if held_time.publish_time == time.publish_time && held_time.slot == time.slot {
                return Some(i);
            }
            i += 1;
        }
        None
    }

    /// Enters `state` under its key and time, in the place of the entry that
    /// stands there, where one does.
    pub fn enter(&mut self, state: MessageState)
        requires
            old(self).wf(),
        ensures
            final(self).wf(),
            final(self)@ == old(self)@.insert(state.id(), state),
    {
        let key = state.key();
        let time = state.time();
        let ghost before = self.feeds@;
        match self.find(&key) {
            Some(f) => {
                match History::position(&self.feeds[f].states, time) {
                    Some(i) => {
                        self.feeds[f].states[i] = state;
                        proof {
                            lemma_replace(before, self.feeds@, f as int, i as int, state);
                        }
                    },
                    None => {
                        self.feeds[f].states.push(state);
                        proof {
                            lemma_append(before, self.feeds@, f as int, state);
                        }
                    },
                }
            },
            None => {
                let mut states: Vec<MessageState> = Vec::new();
                states.push(state);
                self.feeds.push(FeedHistory { key, states });
                proof {
                    lemma_open(before, self.feeds@, state);
                }
            },
        }
    }

    /// The entry that answers a query for `key` at `request_time`, where there
    /// is one.
    pub fn retrieve(&self, key: MessageStateKey, request_time: RequestTime) -> (state: Option<
        &MessageState,
    >)
        requires
            self.wf(),
        ensures
            match state {
                Some(found) => selects(self@, key, request_time, *found),
                None => unanswered(self@, key, request_time),
            },
    {
        let f = match self.find(&key) {
            Some(f) => f,
            None => {
                proof {
                    assert forall|id: MessageStateId| !answers(self@, key, request_time, id) by {
                        if self@.contains_key(id) && id.key == key {
                            lemma_no_feed(self.feeds@, id);
                        }
                    }
                }
                return None;
            },
        };
        let states = &self.feeds[f].states;
        let mut best: Option<usize> = None;
        let mut reached = false;
        let mut i: usize = 0;
        while i < states.len()
            invariant
                i <= states.len(),
                best matches Some(b) ==> b < i,
                request_time is Latest ==> {
                    &&& best is None ==> i == 0
                    &&& best matches Some(b) ==> forall|k: int|
                        0 <= k < i ==> (#[trigger] states@[k]).spec_time().spec_le(
                            states@[b as int].spec_time(),
                        )
                },
                request_time matches RequestTime::FirstAfter(time) ==> {
                    &&& reached <==> exists|k: int|
                        0 <= k < i && (#[trigger] states@[k]).spec_time().publish_time <= time
                    &&& best is None ==> forall|k: int|
                        0 <= k < i ==> (#[trigger] states@[k]).spec_time().publish_time < time
                    &&& best matches Some(b) ==> {
                        &&& states@[b as int].spec_time().publish_time >= time
                        &&& forall|k: int|
                            0 <= k < i && (#[trigger] states@[k]).spec_time().publish_time >= time
                                ==> states@[b as int].spec_time().spec_le(states@[k].spec_time())
                    }
                },
            decreases states.len() - i,
        {
            let held_time = states[i].time();
            match request_time {
                RequestTime::Latest => {
                    let later = match best {
                        Some(b) => states[b].time().le(&held_time),
                        None => true,
                    };
                    if later {
                        best = Some(i);
                    }
                },
                RequestTime::FirstAfter(time) => {
                    if held_time.publish_time <= time {
                        reached = true;
                    }
                    if held_time.publish_time >= time {
                        let earlier = match best {
                            Some(b) => held_time.le(&states[b].time()),
                            None => true,
                        };
                        if earlier {
                            best = Some(i);
                        }
                    }
                },
            }
            i += 1;
        }
        let found = match (best, request_time) {
            (Some(b), RequestTime::Latest) => Some(b),
            (Some(b), RequestTime::FirstAfter(_)) => if reached {
                Some(b)
            } else {
                None
            },
            (None, _) => None,
        };
        proof {
            let feeds = self.feeds@;
            let history = self@;
            assert(states@ == feeds[f as int].states@);
            assert forall|id: MessageStateId| #[trigger]
                history.contains_key(id) && id.key == key implies exists|k: int|
                0 <= k < states@.len() && (#[trigger] states@[k]).id() == id by {
                lemma_feed_of(feeds, f as int, id);
                let k = choose|k: int| within(feeds, f as int, k) && at(feeds, f as int, k).id() == id;
                assert(states@[k].id() == id);
            }
            match found {
                Some(b) => {
                    lemma_entry(feeds, f as int, b as int);
                    let id = states@[b as int].id();
                    assert(id.key == key);
                    match request_time {
                        RequestTime::Latest => {
                            assert forall|other: MessageStateId| #[trigger]
                                history.contains_key(other) && other.key
                                    == key implies other.time.spec_le(id.time) by {
                                let k = choose|k: int|
                                    0 <= k < states@.len() && (#[trigger] states@[k]).id() == other;
                                assert(states@[k].spec_time().spec_le(states@[b as int].spec_time()));
                            }
                        },
                        RequestTime::FirstAfter(time) => {
                            let r = choose|k: int|
                                0 <= k < i && (#[trigger] states@[k]).spec_time().publish_time
                                    <= time;
                            lemma_entry(feeds, f as int, r);
                            assert(history.contains_key(states@[r].id()) && states@[r].id().key
                                == key);
                            assert forall|other: MessageStateId| #[trigger]
                                history.contains_key(other) && other.key == key
                                    && other.time.publish_time >= time implies id.time.spec_le(
                                other.time,
                            ) by {
                                let k = choose|k: int|
                                    0 <= k < states@.len() && (#[trigger] states@[k]).id() == other;
                                assert(states@[b as int].spec_time().spec_le(states@[k].spec_time()));
                            }
                        },
                    }
                },
                None => {
                    assert forall|id: MessageStateId| !answers(history, key, request_time, id) by {
                        if answers(history, key, request_time, id) {
                            let k = choose|k: int|
                                0 <= k < states@.len() && (#[trigger] states@[k]).id() == id;
                            match request_time {
                                RequestTime::Latest => {},
                                RequestTime::FirstAfter(time) => {
                                    if best is Some {
                                        let other = choose|other: MessageStateId| #[trigger]
                                            history.contains_key(other) && other.key == key
                                                && other.time.publish_time <= time;
                                        let r = choose|r: int|
                                            0 <= r < states@.len() && (#[trigger] states@[r]).id()
                                                == other;
                                        assert(states@[r].spec_time().publish_time <= time);
                                    } else {
                                        assert(states@[k].spec_time().publish_time < time);
                                    }
                                },
                            }
                        }
                    }
                },
            }
        }
        match found {
            Some(b) => Some(&self.feeds[f].states[b]),
            None => None,
        }
    }

    /// The keys that have an entry, each once.
    pub fn keys(&self) -> (keys: Vec<MessageStateKey>)
        requires
            self.wf(),
        ensures
            keys@.no_duplicates(),
            forall|key: MessageStateKey|
                keys@.contains(key) <==> exists|id: MessageStateId| #[trigger]
                    self@.contains_key(id) && id.key == key,
    {
        let mut keys: Vec<MessageStateKey> = Vec::with_capacity(self.feeds.len());
        let mut f: usize = 0;
        while f < self.feeds.len()
            invariant
                f <= self.feeds.len(),
                keys@.len() == f,
                forall|g: int| 0 <= g < f ==> #[trigger] keys@[g] == self.feeds@[g].key,
            decreases self.feeds.len() - f,
        {
            keys.push(self.feeds[f].key);
            f += 1;
        }
        proof {
            let feeds = self.feeds@;
            assert forall|a: int, b: int| 0 <= a < keys@.len() && 0 <= b < keys@.len() && a
                != b implies keys@[a] != keys@[b] by {
                if a < b {
                    assert(feeds[a].key != feeds[b].key);
                } else {
                    assert(feeds[b].key != feeds[a].key);
                }
            }
            assert forall|key: MessageStateKey| keys@.contains(key) <==> exists|id: MessageStateId| #[trigger]
                self@.contains_key(id) && id.key == key by {
                if keys@.contains(key) {
                    let g = choose|g: int| 0 <= g < keys@.len() && keys@[g] == key;
                    assert(feeds[g].states@.len() > 0);
                    lemma_entry(feeds, g, 0);
                    assert(feeds[g].states@[0].spec_key() == feeds[g].key);
                    assert(self@.contains_key(at(feeds, g, 0).id()) && at(feeds, g, 0).id().key
                        == key);
                }
                if exists|id: MessageStateId| #[trigger] self@.contains_key(id) && id.key == key {
                    let id = choose|id: MessageStateId| #[trigger]
                        self@.contains_key(id) && id.key == key;
                    let (g, j) = choose|g: int, j: int|
                        within(feeds, g, j) && (#[trigger] at(feeds, g, j)).id() == id;
                    assert(feeds[g].states@[j].spec_key() == feeds[g].key);
                    assert(keys@[g] == key);
                }
            }
        }
        keys
    }

    /// The slots that have an entry.
    pub fn slots(&self) -> (slots: BTreeSet<Slot>)
        ensures
            slots@ == history_slots(self@),
            slots@.finite(),
    {
        let mut slots: BTreeSet<Slot> = BTreeSet::new();
        let mut f: usize = 0;
        while f < self.feeds.len()
            invariant
                f <= self.feeds.len(),
                slots@.finite(),
                forall|slot: Slot|
                    slots@.contains(slot) <==> exists|g: int, j: int|
                        g < f && within(self.feeds@, g, j) && (#[trigger] at(
                            self.feeds@,
                            g,
                            j,
                        )).slot == slot,
            decreases self.feeds.len() - f,
        {
            let ghost before = slots@;
            add_slots(&self.feeds[f].states, &mut slots);
            proof {
                let feeds = self.feeds@;
                assert forall|slot: Slot|
                    slots@.contains(slot) <==> exists|g: int, j: int|
                        g < f + 1 && within(feeds, g, j) && (#[trigger] at(feeds, g, j)).slot
                            == slot by {
                    if slots@.contains(slot) {
                        if before.contains(slot) {
                            let (g, j) = choose|g: int, j: int|
                                g < f && within(feeds, g, j) && (#[trigger] at(feeds, g, j)).slot
                                    == slot;
                            assert(g < f + 1 && within(feeds, g, j) && at(feeds, g, j).slot == slot);
                        } else {
                            let j = choose|j: int|
                                0 <= j < feeds[f as int].states@.len() && (
                                #[trigger] feeds[f as int].states@[j]).slot == slot;
                            assert(within(feeds, f as int, j) && at(feeds, f as int, j).slot == slot);
                        }
                    }
                    if exists|g: int, j: int|
                        g < f + 1 && within(feeds, g, j) && (#[trigger] at(feeds, g, j)).slot
                            == slot {
                        let (g, j) = choose|g: int, j: int|
                            g < f + 1 && within(feeds, g, j) && (#[trigger] at(feeds, g, j)).slot
                                == slot;
                        if g < f {
                            assert(before.contains(slot));
                        } else {
                            assert(feeds[f as int].states@[j].slot == slot);
                        }
                    }
                }
            }
            f += 1;
        }
        proof {
            let feeds = self.feeds@;
            assert forall|slot: Slot| slots@.contains(slot) <==> history_slots(self@).contains(
                slot,
            ) by {
                lemma_slots(feeds, slot);
                if slots@.contains(slot) {
                    let (g, j) = choose|g: int, j: int|
                        g < f && within(feeds, g, j) && (#[trigger] at(feeds, g, j)).slot == slot;
                    assert(within(feeds, g, j) && at(feeds, g, j).slot == slot);
                }
                if history_slots(self@).contains(slot) {
                    let (g, j) = choose|g: int, j: int|
                        within(feeds, g, j) && (#[trigger] at(feeds, g, j)).slot == slot;
                    assert(g < f && within(feeds, g, j) && at(feeds, g, j).slot == slot);
                }
            }
            assert(slots@ =~= history_slots(self@));
        }
        slots
    }

    /// Drops the entries whose slot is not among `slots`.
    pub fn retain_slots(&mut self, slots: &BTreeSet<Slot>)
        requires
            old(self).wf(),
        ensures
            final(self).wf(),
            final(self)@ == of_slots(old(self)@, slots@),
    {
        let ghost before = self.feeds@;
        let mut f: usize = 0;
        while f < self.feeds.len()
            invariant
                f <= self.feeds.len(),
                filed(before),
                filed(self.feeds@),
                inhabited(self.feeds@),
                forall|g: int, j: int|
                    g < f && within(self.feeds@, g, j) ==> slots@.contains(
                        (#[trigger] at(self.feeds@, g, j)).slot,
                    ),
                forall|state: MessageState| held(self.feeds@, state) ==> held(before, state),
                forall|state: MessageState|
                    held(before, state) && slots@.contains(state.slot) ==> held(
                        self.feeds@,
                        state,
                    ),
            decreases self.feeds.len() - f,
        {
            let ghost whole = self.feeds@;
            drop_slots(&mut self.feeds[f].states, slots);
            let ghost cut = self.feeds@;
            proof {
                lemma_after_drop(whole, cut, f as int, slots@);
                assert forall|g: int, j: int| g < f && within(cut, g, j) implies slots@.contains(
                    (#[trigger] at(cut, g, j)).slot,
                ) by {
                    assert(cut[g] == whole[g]);
                    assert(within(whole, g, j) && at(whole, g, j) == at(cut, g, j));
                }
            }
            if self.feeds[f].states.len() == 0 {
                self.feeds.swap_remove(f);
                proof {
                    let rest = self.feeds@;
                    lemma_after_remove(cut, rest, f as int);
                    assert forall|g: int, j: int| g < f && within(rest, g, j) implies slots@.contains(
                        (#[trigger] at(rest, g, j)).slot,
                    ) by {
                        assert(rest[g] == cut[g]);
                        assert(within(cut, g, j) && at(cut, g, j) == at(rest, g, j));
                    }
                    assert forall|g: int| 0 <= g < rest.len() implies (
                    #[trigger] rest[g]).states@.len() > 0 by {
                        let from = if g == f { cut.len() - 1 } else { g };
                        assert(rest[g] == cut[from]);
                        assert(cut[from].states@.len() > 0);
                    }
                }
            } else {
                f += 1;
            }
        }
        proof {
            assert forall|state: MessageState|
                held(self.feeds@, state) <==> held(before, state) && slots@.contains(
                    state.slot,
                ) by {
                if held(self.feeds@, state) {
                    let (g, j) = choose|g: int, j: int|
                        within(self.feeds@, g, j) && (#[trigger] at(self.feeds@, g, j)) == state;
                    assert(slots@.contains(at(self.feeds@, g, j).slot));
                }
            }
            lemma_kept(before, self.feeds@, slots@);
        }
    }
}

/// A key and time of the history lies in the feed of its key.
proof fn lemma_feed_of(feeds: Seq<FeedHistory>, f: int, id: MessageStateId)
    requires
        filed(feeds),
        has_id(feeds, id),
        0 <= f < feeds.len(),
        feeds[f].key == id.key,
    ensures
        exists|k: int| within(feeds, f, k) && at(feeds, f, k).id() == id,
{
    let (g, j) = choose|g: int, j: int|
        within(feeds, g, j) && (#[trigger] at(feeds, g, j)).id() == id;
    assert(feeds[g].states@[j].spec_key() == feeds[g].key);
    if g < f {
        assert(feeds[g].key != feeds[f].key);
    } else if f < g {
        assert(feeds[f].key != feeds[g].key);
    }
    assert(within(feeds, f, j) && at(feeds, f, j).id() == id);
}

/// The history has no entry of a key that has no feed.
proof fn lemma_no_feed(feeds: Seq<FeedHistory>, id: MessageStateId)
    requires
        filed(feeds),
        forall|f: int| 0 <= f < feeds.len() ==> (#[trigger] feeds[f]).key != id.key,
    ensures
        !has_id(feeds, id),
{
    if has_id(feeds, id) {
        let (g, j) = choose|g: int, j: int|
            within(feeds, g, j) && (#[trigger] at(feeds, g, j)).id() == id;
        assert(feeds[g].states@[j].spec_key() == feeds[g].key);
    }
}

/// Putting `state` in the place of the state with its key and time enters it.
proof fn lemma_replace(
    before: Seq<FeedHistory>,
    after: Seq<FeedHistory>,
    f: int,
    i: int,
    state: MessageState,
)
    requires
        filed(before),
        inhabited(before),
        within(before, f, i),
        at(before, f, i).spec_time() == state.spec_time(),
        before[f].key == state.spec_key(),
        after.len() == before.len(),
        after[f].key == before[f].key,
        after[f].states@ == before[f].states@.update(i, state),
        forall|g: int| 0 <= g < before.len() && g != f ==> after[g] == before[g],
    ensures
        filed(after),
        inhabited(after),
        history_of(after) == history_of(before).insert(state.id(), state),
{
    assert(before[f].states@[i].spec_key() == before[f].key);
    lemma_same_keys(before, after, f);
    assert(keyed(after[f].states@, after[f].key)) by {
        assert forall|k: int| 0 <= k < after[f].states@.len() implies (
        #[trigger] after[f].states@[k]).spec_key() == after[f].key by {
            if k != i {
                assert(before[f].states@[k].spec_key() == before[f].key);
            }
        }
    }
    assert(apart(after[f].states@)) by {
        assert forall|a: int, b: int| 0 <= a < b < after[f].states@.len() implies (
        #[trigger] after[f].states@[a]).spec_time() != (
        #[trigger] after[f].states@[b]).spec_time() by {
            assert(before[f].states@[a].spec_time() != before[f].states@[b].spec_time());
        }
    }
    assert forall|other: MessageState|
        held(after, other) <==> (held(before, other) && other.id() != state.id()) || other
            == state by {
        if held(after, other) && other != state {
            let (g, k) = choose|g: int, k: int|
                within(after, g, k) && (#[trigger] at(after, g, k)) == other;
            assert(within(before, g, k) && at(before, g, k) == other);
            if other.id() == state.id() {
                lemma_place(before, g, k, f, i);
            }
        }
        if held(before, other) && other.id() != state.id() {
            let (g, k) = choose|g: int, k: int|
                within(before, g, k) && (#[trigger] at(before, g, k)) == other;
            assert(within(after, g, k) && at(after, g, k) == other);
        }
        if other == state {
            assert(within(after, f, i) && at(after, f, i) == other);
        }
    }
    lemma_entered(before, after, state);
}

/// Adding `state` to the feed of its key, which has no state at its time,
/// enters it.
proof fn lemma_append(before: Seq<FeedHistory>, after: Seq<FeedHistory>, f: int, state: MessageState)
    requires
        filed(before),
        inhabited(before),
        0 <= f < before.len(),
        before[f].key == state.spec_key(),
        forall|k: int|
            0 <= k < before[f].states@.len() ==> (#[trigger] before[f].states@[k]).spec_time()
                != state.spec_time(),
        after.len() == before.len(),
        after[f].key == before[f].key,
        after[f].states@ == before[f].states@.push(state),
        forall|g: int| 0 <= g < before.len() && g != f ==> after[g] == before[g],
    ensures
        filed(after),
        inhabited(after),
        history_of(after) == history_of(before).insert(state.id(), state),
{
    let last = before[f].states@.len() as int;
    lemma_same_keys(before, after, f);
    assert(keyed(after[f].states@, after[f].key)) by {
        assert forall|k: int| 0 <= k < after[f].states@.len() implies (
        #[trigger] after[f].states@[k]).spec_key() == after[f].key by {
            if k != last {
                assert(before[f].states@[k].spec_key() == before[f].key);
            }
        }
    }
    assert(apart(after[f].states@)) by {
        assert forall|a: int, b: int| 0 <= a < b < after[f].states@.len() implies (
        #[trigger] after[f].states@[a]).spec_time() != (
        #[trigger] after[f].states@[b]).spec_time() by {
            if b != last {
                assert(before[f].states@[a].spec_time() != before[f].states@[b].spec_time());
            } else {
                assert(before[f].states@[a].spec_time() != state.spec_time());
            }
        }
    }
    assert forall|other: MessageState|
        held(after, other) <==> (held(before, other) && other.id() != state.id()) || other
            == state by {
        if held(after, other) && other != state {
            let (g, k) = choose|g: int, k: int|
                within(after, g, k) && (#[trigger] at(after, g, k)) == other;
            assert(within(before, g, k) && at(before, g, k) == other);
            assert(before[g].states@[k].spec_key() == before[g].key);
            if g == f {
                assert(before[f].states@[k].spec_time() != state.spec_time());
            } else if g < f {
                assert(before[g].key != before[f].key);
            } else {
                assert(before[f].key != before[g].key);
            }
        }
        if held(before, other) && other.id() != state.id() {
            let (g, k) = choose|g: int, k: int|
                within(before, g, k) && (#[trigger] at(before, g, k)) == other;
            assert(within(after, g, k) && at(after, g, k) == other);
        }
        if other == state {
            assert(within(after, f, last) && at(after, f, last) == other);
        }
    }
    lemma_entered(before, after, state);
}

/// Opening a feed with `state` for its key, which has none, enters it.
proof fn lemma_open(before: Seq<FeedHistory>, after: Seq<FeedHistory>, state: MessageState)
    requires
        filed(before),
        inhabited(before),
        forall|f: int| 0 <= f < before.len() ==> (#[trigger] before[f]).key != state.spec_key(),
        after.len() == before.len() + 1,
        forall|g: int| 0 <= g < before.len() ==> after[g] == before[g],
        after[before.len() as int].key == state.spec_key(),
        after[before.len() as int].states@ == seq![state],
    ensures
        filed(after),
        inhabited(after),
        history_of(after) == history_of(before).insert(state.id(), state),
{
    let new = before.len() as int;
    assert forall|f: int| 0 <= f < after.len() implies keyed(
        (#[trigger] after[f]).states@,
        after[f].key,
    ) && apart(after[f].states@) by {
        if f < new {
            assert(keyed(before[f].states@, before[f].key) && apart(before[f].states@));
        }
    }
    assert forall|f: int, g: int| 0 <= f < g < after.len() implies (#[trigger] after[f]).key != (
    #[trigger] after[g]).key by {
        if g < new {
            assert(before[f].key != before[g].key);
        } else {
            assert(before[f].key != state.spec_key());
        }
    }
    assert forall|f: int| 0 <= f < after.len() implies (#[trigger] after[f]).states@.len() > 0 by {
        if f < new {
            assert(before[f].states@.len() > 0);
        }
    }
    assert forall|other: MessageState|
        held(after, other) <==> (held(before, other) && other.id() != state.id()) || other
            == state by {
        if held(after, other) && other != state {
            let (g, k) = choose|g: int, k: int|
                within(after, g, k) && (#[trigger] at(after, g, k)) == other;
            assert(within(before, g, k) && at(before, g, k) == other);
            assert(before[g].states@[k].spec_key() == before[g].key);
            assert(before[g].key != state.spec_key());
        }
        if held(before, other) && other.id() != state.id() {
            let (g, k) = choose|g: int, k: int|
                within(before, g, k) && (#[trigger] at(before, g, k)) == other;
            assert(within(after, g, k) && at(after, g, k) == other);
        }
        if other == state {
            assert(within(after, new, 0) && at(after, new, 0) == other);
        }
    }
    lemma_entered(before, after, state);
}

/// Feeds that differ in the states of feed `f` only are filed alike but for
/// that feed, and have a state in every feed but, perhaps, that one.
proof fn lemma_same_keys(before: Seq<FeedHistory>, after: Seq<FeedHistory>, f: int)
    requires
        filed(before),
        inhabited(before),
        0 <= f < before.len(),
        after.len() == before.len(),
        after[f].key == before[f].key,
        forall|g: int| 0 <= g < before.len() && g != f ==> after[g] == before[g],
    ensures
        forall|g: int|
            0 <= g < after.len() && g != f ==> keyed((#[trigger] after[g]).states@, after[g].key)
                && apart(after[g].states@) && after[g].states@.len() > 0,
        forall|g: int, h: int|
            0 <= g < h < after.len() ==> (#[trigger] after[g]).key != (#[trigger] after[h]).key,
{
    assert forall|g: int| 0 <= g < after.len() && g != f implies keyed(
        (#[trigger] after[g]).states@,
        after[g].key,
    ) && apart(after[g].states@) && after[g].states@.len() > 0 by {
        assert(keyed(before[g].states@, before[g].key) && apart(before[g].states@));
        assert(before[g].states@.len() > 0);
    }
    assert forall|g: int, h: int| 0 <= g < h < after.len() implies (#[trigger] after[g]).key != (
    #[trigger] after[h]).key by {
        assert(before[g].key != before[h].key);
    }
}

/// After the states of other slots have been dropped from feed `f`: the feeds
/// are filed as before, every other feed has a state, what is held was held
/// before, and what was held of the slots is held still.
proof fn lemma_after_drop(
    before: Seq<FeedHistory>,
    after: Seq<FeedHistory>,
    f: int,
    slots: Set<Slot>,
)
    requires
        filed(before),
        inhabited(before),
        0 <= f < before.len(),
        after.len() == before.len(),
        after[f].key == before[f].key,
        forall|g: int| 0 <= g < before.len() && g != f ==> after[g] == before[g],
        apart(after[f].states@),
        forall|state: MessageState|
            after[f].states@.contains(state) <==> before[f].states@.contains(state)
                && slots.contains(state.slot),
    ensures
        filed(after),
        forall|g: int| 0 <= g < after.len() && g != f ==> (#[trigger] after[g]).states@.len() > 0,
        forall|j: int| within(after, f, j) ==> slots.contains((#[trigger] at(after, f, j)).slot),
        forall|state: MessageState| held(after, state) ==> held(before, state),
        forall|state: MessageState|
            held(before, state) && (slots.contains(state.slot) || !before[f].states@.contains(
                state,
            )) ==> held(after, state),
{
    lemma_same_keys(before, after, f);
    assert(keyed(after[f].states@, after[f].key)) by {
        assert forall|k: int| 0 <= k < after[f].states@.len() implies (
        #[trigger] after[f].states@[k]).spec_key() == after[f].key by {
            let state = after[f].states@[k];
            assert(after[f].states@.contains(state));
            let from = choose|from: int|
                0 <= from < before[f].states@.len() && before[f].states@[from] == state;
            assert(before[f].states@[from].spec_key() == before[f].key);
        }
    }
    assert forall|j: int| within(after, f, j) implies slots.contains(
        (#[trigger] at(after, f, j)).slot,
    ) by {
        assert(after[f].states@.contains(after[f].states@[j]));
    }
    assert forall|state: MessageState| held(after, state) implies held(before, state) by {
        let (g, k) = choose|g: int, k: int|
            within(after, g, k) && (#[trigger] at(after, g, k)) == state;
        if g == f {
            assert(after[f].states@.contains(after[f].states@[k]));
            let from = choose|from: int|
                0 <= from < before[f].states@.len() && before[f].states@[from] == state;
            assert(within(before, f, from) && at(before, f, from) == state);
        } else {
            assert(within(before, g, k) && at(before, g, k) == state);
        }
    }
    assert forall|state: MessageState|
        held(before, state) && (slots.contains(state.slot) || !before[f].states@.contains(
            state,
        )) implies held(after, state) by {
        let (g, k) = choose|g: int, k: int|
            within(before, g, k) && (#[trigger] at(before, g, k)) == state;
        if g == f {
            assert(before[f].states@.contains(before[f].states@[k]));
            assert(after[f].states@.contains(state));
            let to = choose|to: int|
                0 <= to < after[f].states@.len() && after[f].states@[to] == state;
            assert(within(after, f, to) && at(after, f, to) == state);
        } else {
            assert(within(after, g, k) && at(after, g, k) == state);
        }
    }
}

/// After feed `f`, which has no state, has been taken out with the last feed
/// moved to its place: the feeds are filed as before, and they hold what they
/// held.
proof fn lemma_after_remove(before: Seq<FeedHistory>, after: Seq<FeedHistory>, f: int)
    requires
        filed(before),
        0 <= f < before.len(),
        before[f].states@.len() == 0,
        after == before.update(f, before.last()).drop_last(),
    ensures
        filed(after),
        forall|g: int| 0 <= g < after.len() ==> #[trigger] after[g] == before[if g == f {
            before.len() - 1
        } else {
            g
        }],
        forall|state: MessageState| held(after, state) <==> held(before, state),
{
    let last = before.len() - 1;
    assert forall|g: int| 0 <= g < after.len() implies keyed(
        (#[trigger] after[g]).states@,
        after[g].key,
    ) && apart(after[g].states@) by {
        let from = if g == f { last } else { g };
        assert(after[g] == before[from]);
        assert(keyed(before[from].states@, before[from].key) && apart(before[from].states@));
    }
    assert forall|g: int, h: int| 0 <= g < h < after.len() implies (#[trigger] after[g]).key != (
    #[trigger] after[h]).key by {
        let from_g = if g == f { last } else { g };
        let from_h = if h == f { last } else { h };
        assert(after[g] == before[from_g]);
        assert(after[h] == before[from_h]);
        if from_g < from_h {
            assert(before[from_g].key != before[from_h].key);
        } else {
            assert(before[from_h].key != before[from_g].key);
        }
    }
    assert forall|state: MessageState| held(after, state) <==> held(before, state) by {
        if held(after, state) {
            let (g, k) = choose|g: int, k: int|
                within(after, g, k) && (#[trigger] at(after, g, k)) == state;
            let from = if g == f { last } else { g };
            assert(after[g] == before[from]);
            assert(within(before, from, k) && at(before, from, k) == state);
        }
        if held(before, state) {
            let (g, k) = choose|g: int, k: int|
                within(before, g, k) && (#[trigger] at(before, g, k)) == state;
            let to = if g == last { f } else { g };
            assert(after[to] == before[g]);
            assert(within(after, to, k) && at(after, to, k) == state);
        }
    }
}

} // verus!
