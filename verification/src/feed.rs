//! Feed message kinds produced for broadcast, and the plain value types that
//! cross this layer's boundary.
//!
//! The wire encoding of individual messages belongs to a separate encoder, so
//! a batch is kept here as a sequence of structured [`FeedMessage`] values.
//! Geographic coordinates are carried as microdegree fixed-point integers.

use vstd::prelude::*;

verus! {

/// Why an `add_node` request was rejected; the only caller-visible error.
#[derive(Clone, Copy, Debug, PartialEq, Eq, Structural)]
pub enum MuteReason {
    /// The chain already holds as many nodes as its quota allows.
    Overquota,
    /// The chain is on the deny list.
    ChainNotAllowed,
}

/// What a shard reports about a node when adding it.
#[derive(Clone, Debug, PartialEq, Eq)]
pub struct NodeDetails {
    /// Human-readable node name; chain labels are derived from node names.
    pub name: String,
}

/// Mathematical model of [`NodeDetails`].
pub struct NodeDetailsV {
    pub name: Seq<char>,
}

impl View for NodeDetails {
    type V = NodeDetailsV;

    open spec fn view(&self) -> NodeDetailsV {
        NodeDetailsV { name: self.name@ }
    }
}

/// The registry's current view of one node, as handed to feed consumers.
#[derive(Clone, Debug, PartialEq, Eq)]
pub struct NodeInfo {
    /// Node name as reported on add.
    pub name: String,
    /// Height of the node's latest finalized block.
    pub finalized_height: u64,
    /// Hash of the node's latest finalized block.
    pub finalized_hash: u64,
    /// Whether the node is currently flagged stale.
    pub stale: bool,
}

/// Mathematical model of [`NodeInfo`].
pub struct NodeInfoV {
    pub name: Seq<char>,
    pub finalized_height: u64,
    pub finalized_hash: u64,
    pub stale: bool,
}

impl View for NodeInfo {
    type V = NodeInfoV;

    open spec fn view(&self) -> NodeInfoV {
        NodeInfoV {
            name: self.name@,
            finalized_height: self.finalized_height,
            finalized_hash: self.finalized_hash,
            stale: self.stale,
        }
    }
}

impl NodeInfo {
    /// Deep copy; `String::clone` keeps the value exactly.
    pub fn duplicate(&self) -> (r: NodeInfo)
        ensures
            r == *self,
    {
        NodeInfo {
            name: self.name.clone(),
            finalized_height: self.finalized_height,
            finalized_hash: self.finalized_hash,
            stale: self.stale,
        }
    }
}

/// A resolved node location: microdegree fixed-point coordinates and a city.
#[derive(Clone, Debug, PartialEq, Eq)]
pub struct NodeLocation {
    pub latitude_micro: i64,
    pub longitude_micro: i64,
    pub city: String,
}

/// Mathematical model of [`NodeLocation`].
pub struct NodeLocationV {
    pub latitude_micro: i64,
    pub longitude_micro: i64,
    pub city: Seq<char>,
}

impl View for NodeLocation {
    type V = NodeLocationV;

    open spec fn view(&self) -> NodeLocationV {
        NodeLocationV {
            latitude_micro: self.latitude_micro,
            longitude_micro: self.longitude_micro,
            city: self.city@,
        }
    }
}

impl NodeLocation {
    /// Deep copy; `String::clone` keeps the value exactly.
    pub fn duplicate(&self) -> (r: NodeLocation)
        ensures
            r == *self,
    {
        NodeLocation {
            latitude_micro: self.latitude_micro,
            longitude_micro: self.longitude_micro,
            city: self.city.clone(),
        }
    }
}

/// One message of an outbound feed. Node-scoped messages carry the node's
/// index within its chain; chain-scoped messages carry the genesis hash.
#[derive(Clone, Debug, PartialEq, Eq)]
pub enum FeedMessage {
    /// A node joined the chain: its index and full current view.
    AddedNode(usize, NodeInfo),
    /// The node at this index left the chain.
    RemovedNode(usize),
    /// The node's location was resolved: index, latitude, longitude, city.
    LocatedNode(usize, i64, i64, String),
    /// The node finalized a block: index, height, hash.
    FinalizedBlock(usize, u64, u64),
    /// The node at this index is flagged stale.
    StaleNode(usize),
    /// A chain appeared or changed: label, genesis hash, node count.
    AddedChain(String, u64, usize),
    /// The chain with this genesis hash disappeared.
    RemovedChain(u64),
}

/// Mathematical model of [`FeedMessage`].
pub enum FeedMessageV {
    AddedNode(usize, NodeInfoV),
    RemovedNode(usize),
    LocatedNode(usize, i64, i64, Seq<char>),
    FinalizedBlock(usize, u64, u64),
    StaleNode(usize),
    AddedChain(Seq<char>, u64, usize),
    RemovedChain(u64),
}

impl View for FeedMessage {
    type V = FeedMessageV;

    open spec fn view(&self) -> FeedMessageV {
        match self {
            FeedMessage::AddedNode(idx, info) => FeedMessageV::AddedNode(*idx, info@),
            FeedMessage::RemovedNode(idx) => FeedMessageV::RemovedNode(*idx),
            FeedMessage::LocatedNode(idx, lat, lon, city) => FeedMessageV::LocatedNode(
                *idx,
                *lat,
                *lon,
                city@,
            ),
            FeedMessage::FinalizedBlock(idx, height, hash) => FeedMessageV::FinalizedBlock(
                *idx,
                *height,
                *hash,
            ),
            FeedMessage::StaleNode(idx) => FeedMessageV::StaleNode(*idx),
            FeedMessage::AddedChain(label, genesis, count) => FeedMessageV::AddedChain(
                label@,
                *genesis,
                *count,
            ),
            FeedMessage::RemovedChain(genesis) => FeedMessageV::RemovedChain(*genesis),
        }
    }
}

/// Model of a sequence of feed messages.
pub open spec fn msgs_view(s: Seq<FeedMessage>) -> Seq<FeedMessageV> {
    s.map_values(|m: FeedMessage| m@)
}

/// Accumulates feed messages for one batch, in push order.
#[derive(Clone, Debug)]
pub struct FeedMessageSerializer {
    pub messages: Vec<FeedMessage>,
}

impl View for FeedMessageSerializer {
    type V = Seq<FeedMessageV>;

    open spec fn view(&self) -> Seq<FeedMessageV> {
        msgs_view(self.messages@)
    }
}

impl FeedMessageSerializer {
    /// An empty batch.
    pub fn new() -> (r: FeedMessageSerializer)
        ensures
            r@ == Seq::<FeedMessageV>::empty(),
    {
        let r = FeedMessageSerializer { messages: Vec::new() };
        proof {
            assert(r@ =~= Seq::<FeedMessageV>::empty());
        }
        r
    }

    /// Appends one message to the batch.
    pub fn push(&mut self, msg: FeedMessage)
        ensures
            final(self)@ == old(self)@.push(msg@),
    {
        self.messages.push(msg);
        proof {
            assert(self@ =~= old(self)@.push(self.messages@.last()@));
        }
    }

    /// Finishes the batch: the messages in push order, or `None` if nothing
    /// was pushed.
    pub fn into_finalized(self) -> (r: Option<Vec<FeedMessage>>)
        ensures
            match r {
                Option::None => self@.len() == 0,
                Option::Some(v) => msgs_view(v@) == self@ && self@.len() > 0,
            },
    {
        if self.messages.len() == 0 {
            None
        } else {
            Some(self.messages)
        }
    }
}

} // verus!
