//! Plain data that crosses the store's interface.

use crate::message::PriceFeedMessage;
use vstd::prelude::*;

verus! {

/// Sequence number of a batch on the upstream chain.
pub type Slot = u64;

/// Seconds since the Unix epoch.
pub type UnixTimestamp = i64;

/// Identifier of a price feed.
pub type FeedId = [u8; 32];

/// A reading of a monotonic clock: nanoseconds since an origin that the caller
/// has chosen once.
pub type Monotonic = u64;

/// The point in time a query asks about.
#[derive(Clone, Copy, Debug, PartialEq, Eq)]
pub enum RequestTime {
    /// The most recent entry of each feed.
    Latest,
    /// The earliest entry of each feed published at or after the given time.
    FirstAfter(UnixTimestamp),
}

/// The raw messages of one slot, which the Merkle root attested for that slot
/// commits to.
#[derive(Clone, Debug, PartialEq, Eq)]
pub struct AccumulatorMessages {
    pub magic: [u8; 4],
    pub slot: Slot,
    pub ring_size: u32,
    pub raw_messages: Vec<Vec<u8>>,
}

/// One half of a slot, as it arrives from upstream.
#[derive(Clone, Debug, PartialEq, Eq)]
pub enum Update {
    /// The bytes of a signed attestation.
    Vaa(Vec<u8>),
    /// The batch of messages of a slot.
    AccumulatorMessages(AccumulatorMessages),
}

/// A price together with the blob that proves it.
#[derive(Clone, Debug, PartialEq)]
pub struct PriceFeedUpdate {
    pub price_feed: PriceFeedMessage,
    pub slot: Slot,
    pub received_at: UnixTimestamp,
    /// Update data that holds this one message and its proof.
    pub wormhole_merkle_update_data: Vec<u8>,
}

/// The answer to a query for several feeds.
#[derive(Clone, Debug, PartialEq)]
pub struct PriceFeedsWithUpdateData {
    /// One entry for each requested feed, in the order of the request.
    pub price_feeds: Vec<PriceFeedUpdate>,
    /// Update data for all the returned messages, one blob for each slot.
    pub wormhole_merkle_update_data: Vec<Vec<u8>>,
}

/// Why a slot could not be completed.
#[derive(Clone, Copy, Debug, PartialEq, Eq)]
pub enum IntegrityFault {
    /// The tree over the raw messages has another root than the attested one.
    RootMismatch,
    /// A raw message is not in the wire format.
    UndecodableMessage,
    /// No proof that verifies under the attested root could be made for a message.
    MissingProof,
}

/// The errors of the store.
#[derive(Clone, Copy, Debug, PartialEq, Eq)]
pub enum StoreError {
    /// The bytes of an update are not an attestation.
    MalformedVaa,
    /// A verified attestation of the accumulator carries no Merkle root.
    MalformedPayload,
    /// The two halves of a slot contradict each other.
    Integrity(IntegrityFault),
    /// A requested feed has no entry that answers the query.
    NotFound,
    /// A stored message is not of the type that was asked for.
    TypeMismatch,
    /// A selection of messages does not fit the wire format of update data.
    UpdateData,
}

/// Whether two arrays hold the same bytes.
pub fn bytes_equal<const N: usize>(a: &[u8; N], b: &[u8; N]) -> (equal: bool)
    ensures
        equal == (*a == *b),
{
    let mut i: usize = 0;
    while i < N
        invariant
            i <= N,
            forall|j: int| 0 <= j < i ==> a[j] == b[j],
        decreases N - i,
    {
        if a[i] != b[i] {
            return false;
        }
        i += 1;
    }
    assert(*a =~= *b);
    true
}

/// The elements of `items` in the opposite order.
pub fn reversed<T>(items: Vec<T>) -> (turned: Vec<T>)
    ensures
        turned@.len() == items@.len(),
        forall|k: int| 0 <= k < turned@.len() ==> #[trigger] turned@[k] == items@[items@.len() - 1 - k],
{
    let mut rest = items;
    let mut turned: Vec<T> = Vec::with_capacity(rest.len());
    while rest.len() > 0
        invariant
            rest@.len() + turned@.len() == items@.len(),
            rest@ == items@.subrange(0, rest@.len() as int),
            forall|k: int|
                0 <= k < turned@.len() ==> #[trigger] turned@[k] == items@[items@.len() - 1 - k],
        decreases rest@.len(),
    {
        let ghost before = rest@;
        match rest.pop() {
            Some(item) => {
                turned.push(item);
                assert(rest@ =~= items@.subrange(0, rest@.len() as int));
            },
            None => {},
        }
    }
    turned
}

/// A copy of the bytes of `bytes`.
pub fn copy_bytes(bytes: &Vec<u8>) -> (copy: Vec<u8>)
    ensures
        copy@ == bytes@,
{
    let mut copy: Vec<u8> = Vec::with_capacity(bytes.len());
    let mut i: usize = 0;
    while i < bytes.len()
        invariant
            i <= bytes.len(),
            copy@ == bytes@.subrange(0, i as int),
        decreases bytes.len() - i,
    {
        copy.push(bytes[i]);
        i += 1;
        assert(copy@ =~= bytes@.subrange(0, i as int));
    }
    assert(copy@ =~= bytes@);
    copy
}

} // verus!
