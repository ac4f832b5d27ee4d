//! Ingress queues: which partition of which topic a category goes to, and the
//! envelope in which a command travels.

use vstd::prelude::*;

use crate::codec::{
    from_le, get_le, has_at, law_bytes_round_trip, le, lemma_le_len, lemma_le_of_from_le,
    lemma_pow256, put_le, put_slice,
};
use crate::types::InstrumentId;
use crate::wire::{instrument_of, is_command_frame, WireView, MSG_LEN};

verus! {

/// Size of an envelope.
pub const ENVELOPE_LEN: usize = 56;

/// The bytes `TQ01`.
pub open spec fn envelope_magic() -> Seq<u8> {
    seq![84u8, 81, 48, 49]
}

/// Where a category is queued.
#[derive(Debug, PartialEq, Eq)]
pub struct QueueRoute {
    pub topic: String,
    pub partition: i32,
    pub version: u32,
}

/// Routes categories to topics and partitions.
#[derive(Debug)]
pub struct QueueRouter {
    topics: Vec<String>,
    partitions_per_topic: u32,
    version: u32,
}

impl QueueRouter {
    /// The topics, one for each queue group.
    pub closed spec fn names(self) -> Seq<String> {
        self.topics@
    }

    /// Partitions of each topic.
    pub closed spec fn width(self) -> u32 {
        self.partitions_per_topic
    }

    /// Version of the route.
    pub closed spec fn revision(self) -> u32 {
        self.version
    }

    /// The router's invariant: there are topics and partitions, and all of them
    /// can be counted.
    pub closed spec fn wf(self) -> bool {
        &&& 0 < self.topics@.len() <= u32::MAX
        &&& self.partitions_per_topic > 0
        &&& self.topics@.len() * self.partitions_per_topic <= usize::MAX
    }

    /// The topic of a category.
    pub open spec fn topic_of(self, category: u32) -> int {
        (category as int) % (self.names().len() as int)
    }

    /// The partition of a category.
    pub open spec fn partition_of(self, category: u32) -> int {
        ((category as int) / (self.names().len() as int)) % (self.width() as int)
    }

    /// A router over `topics` with `partitions_per_topic` partitions each.
    pub fn new(topics: Vec<String>, partitions_per_topic: u32, version: u32) -> (r: QueueRouter)
        requires
            0 < topics@.len() <= u32::MAX,
            partitions_per_topic > 0,
            topics@.len() * partitions_per_topic <= usize::MAX,
        ensures
            r.wf(),
            r.names() == topics@,
            r.width() == partitions_per_topic,
            r.revision() == version,
    {
        QueueRouter { topics, partitions_per_topic, version }
    }

    /// The topics.
    pub fn topics(&self) -> (r: &Vec<String>)
        ensures
            r@ == self.names(),
    {
        &self.topics
    }

    /// Partitions of each topic.
    pub fn partitions_per_topic(&self) -> (r: u32)
        ensures
            r == self.width(),
    {
        self.partitions_per_topic
    }

    /// Partitions of all topics.
    pub fn partition_count(&self) -> (r: usize)
        requires
            self.wf(),
        ensures
            r == self.names().len() * self.width(),
    {
        self.topics.len() * self.partitions_per_topic as usize
    }

    /// Where a category is queued: on one partition, always the same.
    pub fn route(&self, category_id: u32) -> (r: QueueRoute)
        requires
            self.wf(),
        ensures
            r.topic@ == self.names()[self.topic_of(category_id)]@,
            r.partition == self.partition_of(category_id) as u32 as i32,
            r.version == self.revision(),
    {
        let topic_count: u32 = self.topics.len() as u32;
        let topic: usize = (category_id % topic_count) as usize;
        let partition: u32 = (category_id / topic_count) % self.partitions_per_topic;
        QueueRoute {
            topic: self.topics[topic].clone(),
            partition: partition as i32,
            version: self.version,
        }
    }

    /// The category's partition, counted over all topics.
    pub fn partition_index(&self, category_id: u32) -> (r: usize)
        requires
            self.wf(),
        ensures
            r == self.topic_of(category_id) * self.width() + self.partition_of(category_id),
            r < self.names().len() * self.width(),
    {
        let topic_count: u32 = self.topics.len() as u32;
        let topic: usize = (category_id % topic_count) as usize;
        let partition: usize = ((category_id / topic_count) % self.partitions_per_topic) as usize;
        proof {
            let n = self.topics@.len() as int;
            let w = self.partitions_per_topic as int;
            assert(topic * w + partition < n * w && topic * w <= n * w) by (nonlinear_arith)
                requires
                    0 <= topic < n,
                    0 <= partition < w,
            ;
        }
        topic * self.partitions_per_topic as usize + partition
    }

    /// Categories share a partition index exactly if they share topic and
    /// partition.
    pub proof fn law_index_tells_topic_and_partition(&self, a: u32, b: u32)
        requires
            self.wf(),
        ensures
            self.topic_of(a) * self.width() + self.partition_of(a) == self.topic_of(b)
                * self.width() + self.partition_of(b) <==> self.topic_of(a) == self.topic_of(b)
                && self.partition_of(a) == self.partition_of(b),
    {
        let w = self.width() as int;
        let (p, q) = (self.partition_of(a), self.partition_of(b));
        let (t, u) = (self.topic_of(a), self.topic_of(b));
        assert(0 <= p < w && 0 <= q < w);
        if t * w + p == u * w + q {
            vstd::arithmetic::div_mod::lemma_fundamental_div_mod_converse(t * w + p, w, t, p);
            vstd::arithmetic::div_mod::lemma_fundamental_div_mod_converse(u * w + q, w, u, q);
        }
    }
}

/// An envelope: magic, route version, user, and the command frame.
pub open spec fn envelope(user: u64, version: u32, frame: Seq<u8>) -> Seq<u8> {
    envelope_magic() + le(version as nat, 4) + le(user as nat, 8) + frame
}

/// Puts a command frame into an envelope.
pub fn encode_envelope(user: u64, route_version: u32, frame: &[u8; MSG_LEN]) -> (r: [u8;
    ENVELOPE_LEN])
    ensures
        r@ == envelope(user, route_version, frame@),
{
    let mut bytes: Vec<u8> = Vec::new();
    bytes.push(84);
    bytes.push(81);
    bytes.push(48);
    bytes.push(49);
    put_le(&mut bytes, route_version as u64, 4);
    put_le(&mut bytes, user, 8);
    assert(frame@.subrange(0, MSG_LEN as int) =~= frame@);
    put_slice(&mut bytes, frame.as_slice(), 0, MSG_LEN);
    proof {
        lemma_le_len(route_version as nat, 4);
        lemma_le_len(user as nat, 8);
        assert(bytes@ =~= envelope(user, route_version, frame@));
    }
    let mut out: [u8; ENVELOPE_LEN] = [0;ENVELOPE_LEN];
    let mut i: usize = 0;
    while i < ENVELOPE_LEN
        invariant
            i <= ENVELOPE_LEN,
            bytes@.len() == ENVELOPE_LEN,
            out@.len() == ENVELOPE_LEN,
            forall|j: int| 0 <= j < i ==> #[trigger] out@[j] == bytes@[j],
        decreases ENVELOPE_LEN - i,
    {
        out[i] = bytes[i];
        i += 1;
    }
    assert(out@ =~= bytes@);
    out
}

/// A command frame with the user that sent it and the route that it was sent by.
#[derive(Clone, Copy, Debug)]
pub struct QueueEnvelope {
    pub user: u64,
    pub route_version: u32,
    pub frame: [u8; MSG_LEN],
}

/// A message that is an envelope around a command frame.
pub open spec fn is_envelope(bytes: Seq<u8>) -> bool {
    bytes.len() == ENVELOPE_LEN && bytes.take(4) == envelope_magic() && is_command_frame(
        bytes.skip(16),
    )
}

impl QueueEnvelope {
    /// Opens an envelope.
    pub fn decode(bytes: &[u8]) -> (r: Option<QueueEnvelope>)
        ensures
            match r {
                Some(e) => {
                    &&& is_envelope(bytes@)
                    &&& e.route_version == from_le(bytes@.subrange(4, 8))
                    &&& e.user == from_le(bytes@.subrange(8, 16))
                    &&& e.frame@ == bytes@.skip(16)
                },
                None => !is_envelope(bytes@),
            },
    {
        if bytes.len() != ENVELOPE_LEN {
            return None;
        }
        let magic: [u8; 4] = [84, 81, 48, 49];
        assert(magic@ =~= envelope_magic());
        assert(bytes@.subrange(0, 4) =~= bytes@.take(4));
        if !has_at(bytes, 0, magic.as_slice()) {
            return None;
        }
        let mut frame: [u8; MSG_LEN] = [0;MSG_LEN];
        let mut i: usize = 0;
        while i < MSG_LEN
            invariant
                i <= MSG_LEN,
                bytes@.len() == ENVELOPE_LEN,
                frame@.len() == MSG_LEN,
                forall|j: int| 0 <= j < i ==> #[trigger] frame@[j] == bytes@[16 + j],
            decreases MSG_LEN - i,
        {
            frame[i] = bytes[16 + i];
            i += 1;
        }
        assert(frame@ =~= bytes@.skip(16));
        if WireView::parse(frame.as_slice()).is_none() {
            return None;
        }
        proof {
            lemma_pow256();
            lemma_le_of_from_le(bytes@.subrange(4, 8));
        }
        Some(
            QueueEnvelope {
                user: get_le(bytes, 8, 8),
                route_version: get_le(bytes, 4, 4) as u32,
                frame,
            },
        )
    }

    /// The instrument of the command; 0 if the frame is none.
    pub fn instrument(&self) -> (r: InstrumentId)
        ensures
            r.0 == if is_command_frame(self.frame@) {
                instrument_of(self.frame@)
            } else {
                0
            },
    {
        match WireView::parse(self.frame.as_slice()) {
            Some(view) => view.instrument(),
            None => InstrumentId(0),
        }
    }
}

/// An envelope gives back the user, the route version and the frame.
pub proof fn law_envelope_round_trip(user: u64, version: u32, frame: Seq<u8>)
    requires
        is_command_frame(frame),
    ensures
        ({
            let bytes = envelope(user, version, frame);
            &&& is_envelope(bytes)
            &&& from_le(bytes.subrange(4, 8)) == version
            &&& from_le(bytes.subrange(8, 16)) == user
            &&& bytes.skip(16) == frame
        }),
{
    let bytes = envelope(user, version, frame);
    lemma_le_len(version as nat, 4);
    lemma_le_len(user as nat, 8);
    lemma_pow256();
    law_bytes_round_trip(version as nat, 4);
    law_bytes_round_trip(user as nat, 8);
    assert(bytes.take(4) =~= envelope_magic());
    assert(bytes.subrange(4, 8) =~= le(version as nat, 4));
    assert(bytes.subrange(8, 16) =~= le(user as nat, 8));
    assert(bytes.skip(16) =~= frame);
}

impl QueueRouter {
    /// Categories go round the topics, and from one round to the next round the partitions:
    /// topic and partition together count the category, up to the number of partitions of
    /// all topics. So that many categories in a row are all apart.
    pub proof fn law_categories_go_round(&self, category: u32)
        requires
            self.wf(),
        ensures
            0 <= self.topic_of(category) < self.names().len(),
            0 <= self.partition_of(category) < self.width(),
            self.topic_of(category) + self.names().len() * self.partition_of(category)
                == category as int % (self.names().len() * self.width()),
    {
        let n = self.names().len() as int;
        let w = self.width() as int;
        let c = category as int;
        vstd::arithmetic::div_mod::lemma_mod_breakdown(c, n, w);
        assert(0 <= c % n < n && 0 <= (c / n) % w < w) by (nonlinear_arith)
            requires
                n > 0,
                w > 0,
        ;
    }
}

} // verus!
