//! The messages of a batch, as far as the store reads them.

use byteorder::BigEndian;
use crate::types::FeedId;
use pythnet_sdk::messages::Message as WireMessage;
use vstd::prelude::*;

verus! {

/// The kinds of message that a batch may hold.
#[derive(Clone, Copy, Debug, PartialEq, Eq, Hash, Structural)]
pub enum MessageType {
    PriceFeedMessage,
    TwapMessage,
    PublisherStakeCapsMessage,
}

/// The price of a feed at one moment.
#[derive(Clone, Copy, Debug, PartialEq, Eq)]
pub struct PriceFeedMessage {
    pub feed_id: FeedId,
    pub price: i64,
    pub conf: u64,
    pub exponent: i32,
    pub publish_time: i64,
    pub prev_publish_time: i64,
    pub ema_price: i64,
    pub ema_conf: u64,
}

/// The cumulative price of a feed, from which time-weighted averages are taken.
#[derive(Clone, Copy, Debug, PartialEq, Eq)]
pub struct TwapMessage {
    pub feed_id: FeedId,
    pub cumulative_price: i128,
    pub cumulative_conf: u128,
    pub num_down_slots: u64,
    pub exponent: i32,
    pub publish_time: i64,
    pub prev_publish_time: i64,
    pub publish_slot: u64,
}

/// The stake caps of the publishers. The store reads the time of the message
/// only; the caps themselves stay in the raw bytes.
#[derive(Clone, Copy, Debug, PartialEq, Eq)]
pub struct PublisherStakeCapsMessage {
    pub publish_time: i64,
}

/// A decoded message of a batch.
#[derive(Clone, Copy, Debug, PartialEq, Eq)]
pub enum Message {
    PriceFeedMessage(PriceFeedMessage),
    TwapMessage(TwapMessage),
    PublisherStakeCapsMessage(PublisherStakeCapsMessage),
}

/// The feed under which the stake caps are filed: they belong to no price feed.
pub const STAKE_CAPS_FEED_ID: FeedId = [
    1, 1, 1, 1, 1, 1, 1, 1, 1, 1, 1, 1, 1, 1, 1, 1, 1, 1, 1, 1, 1, 1, 1, 1, 1, 1, 1, 1, 1, 1, 1, 1,
];

impl PriceFeedMessage {
    /// A price feed message with the given fields.
    pub fn new(
        feed_id: FeedId,
        price: i64,
        conf: u64,
        exponent: i32,
        publish_time: i64,
        prev_publish_time: i64,
        ema_price: i64,
        ema_conf: u64,
    ) -> (message: Self)
        ensures
            message == (PriceFeedMessage {
                feed_id,
                price,
                conf,
                exponent,
                publish_time,
                prev_publish_time,
                ema_price,
                ema_conf,
            }),
    {
        PriceFeedMessage {
            feed_id,
            price,
            conf,
            exponent,
            publish_time,
            prev_publish_time,
            ema_price,
            ema_conf,
        }
    }
}

impl TwapMessage {
    /// A message of cumulative prices with the given fields.
    pub fn new(
        feed_id: FeedId,
        cumulative_price: i128,
        cumulative_conf: u128,
        num_down_slots: u64,
        exponent: i32,
        publish_time: i64,
        prev_publish_time: i64,
        publish_slot: u64,
    ) -> (message: Self)
        ensures
            message == (TwapMessage {
                feed_id,
                cumulative_price,
                cumulative_conf,
                num_down_slots,
                exponent,
                publish_time,
                prev_publish_time,
                publish_slot,
            }),
    {
        TwapMessage {
            feed_id,
            cumulative_price,
            cumulative_conf,
            num_down_slots,
            exponent,
            publish_time,
            prev_publish_time,
            publish_slot,
        }
    }
}

impl Message {
    /// The time at which the message was published.
    pub open spec fn spec_publish_time(&self) -> i64 {
        match *self {
            Message::PriceFeedMessage(m) => m.publish_time,
            Message::TwapMessage(m) => m.publish_time,
            Message::PublisherStakeCapsMessage(m) => m.publish_time,
        }
    }

    /// The feed that the message belongs to.
    pub open spec fn spec_feed_id(&self) -> FeedId {
        match *self {
            Message::PriceFeedMessage(m) => m.feed_id,
            Message::TwapMessage(m) => m.feed_id,
            Message::PublisherStakeCapsMessage(_) => STAKE_CAPS_FEED_ID,
        }
    }

    /// The kind of the message.
    pub open spec fn spec_message_type(&self) -> MessageType {
        match *self {
            Message::PriceFeedMessage(_) => MessageType::PriceFeedMessage,
            Message::TwapMessage(_) => MessageType::TwapMessage,
            Message::PublisherStakeCapsMessage(_) => MessageType::PublisherStakeCapsMessage,
        }
    }

    /// The time at which the message was published.
    #[verifier::when_used_as_spec(spec_publish_time)]
    pub fn publish_time(&self) -> (time: i64)
        ensures
            time == self.spec_publish_time(),
    {
        match *self {
            Message::PriceFeedMessage(m) => m.publish_time,
            Message::TwapMessage(m) => m.publish_time,
            Message::PublisherStakeCapsMessage(m) => m.publish_time,
        }
    }

    /// The feed that the message belongs to.
    #[verifier::when_used_as_spec(spec_feed_id)]
    pub fn feed_id(&self) -> (id: FeedId)
        ensures
            id == self.spec_feed_id(),
    {
        match *self {
            Message::PriceFeedMessage(m) => m.feed_id,
            Message::TwapMessage(m) => m.feed_id,
            Message::PublisherStakeCapsMessage(_) => STAKE_CAPS_FEED_ID,
        }
    }

    /// The kind of the message.
    #[verifier::when_used_as_spec(spec_message_type)]
    pub fn message_type(&self) -> (kind: MessageType)
        ensures
            kind == self.spec_message_type(),
    {
        match *self {
            Message::PriceFeedMessage(_) => MessageType::PriceFeedMessage,
            Message::TwapMessage(_) => MessageType::TwapMessage,
            Message::PublisherStakeCapsMessage(_) => MessageType::PublisherStakeCapsMessage,
        }
    }
}

/// What the wire format makes of `bytes`: the message they encode, or `None`
/// where they encode none.
pub uninterp spec fn spec_decode_message(bytes: Seq<u8>) -> Option<Message>;

/// `pythnet_sdk::wire::from_slice`, at big-endian byte order and for a
/// `pythnet_sdk::messages::Message`: the decoded message, its fields taken over
/// one for one, or `None` where decoding fails. Bytes that follow the message
/// are ignored by the wire format.
#[verifier::external_body]
pub(crate) fn wire_decode_message(bytes: &[u8]) -> (message: Option<Message>)
    ensures
        message == spec_decode_message(bytes@),
{
    Some(match pythnet_sdk::wire::from_slice::<BigEndian, WireMessage>(bytes).ok()? {
        WireMessage::PriceFeedMessage(m) => Message::PriceFeedMessage(PriceFeedMessage::new(
            m.feed_id, m.price, m.conf, m.exponent,
            m.publish_time, m.prev_publish_time, m.ema_price, m.ema_conf,
        )),
        WireMessage::TwapMessage(m) => Message::TwapMessage(TwapMessage::new(
            m.feed_id, m.cumulative_price, m.cumulative_conf, m.num_down_slots,
            m.exponent, m.publish_time, m.prev_publish_time, m.publish_slot,
        )),
        WireMessage::PublisherStakeCapsMessage(m) => Message::PublisherStakeCapsMessage(
            PublisherStakeCapsMessage { publish_time: m.publish_time },
        ),
    })
}

/// Decodes a raw message of a batch.
pub fn decode_message(bytes: &Vec<u8>) -> (message: Option<Message>)
    ensures
        message == spec_decode_message(bytes@),
{
    wire_decode_message(bytes.as_slice())
}

} // verus!
