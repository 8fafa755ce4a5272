//! The node registry: per-chain node storage with quota and deny-list
//! policy, node lifecycle, and label derivation.
//!
//! The facade keeps two instances: a live one, mutated by every event, and a
//! mirror, replaced wholesale at diff-drain time so snapshot generation can
//! read a stable view.
//!
//! A chain is a growing vector of node slots; removal empties a slot and
//! later adds append fresh slots, so a node's slot index is stable for its
//! lifetime. The chain's label is the name of the most recently added node,
//! and a node name on the deny list is what makes a chain denied.

use vstd::prelude::*;

use crate::feed::FeedMessage;
use crate::feed::FeedMessageSerializer;
use crate::feed::NodeDetails;
use crate::feed::NodeInfo;
use crate::feed::NodeInfoV;
use crate::feed::NodeLocation;
use crate::feed::NodeLocationV;

verus! {

/// An update a shard reports about one node; opaque to the batching layer,
/// interpreted here.
#[derive(Clone, Debug, PartialEq, Eq)]
pub enum Payload {
    /// The node finalized a block: height and hash.
    Finalized(u64, u64),
    /// The node stopped reporting in time and is now considered stale.
    WentStale,
}

/// One stored node: its identifier, its feed-visible state, its location.
#[derive(Clone, Debug, PartialEq, Eq)]
pub struct NodeRecord {
    pub node_id: u64,
    pub info: NodeInfo,
    pub location: Option<NodeLocation>,
}

/// Mathematical model of [`NodeRecord`].
#[verifier::ext_equal]
pub struct NodeRecordV {
    pub node_id: u64,
    pub info: NodeInfoV,
    pub location: Option<NodeLocationV>,
}

impl View for NodeRecord {
    type V = NodeRecordV;

    open spec fn view(&self) -> NodeRecordV {
        NodeRecordV {
            node_id: self.node_id,
            info: self.info@,
            location: match self.location {
                Option::Some(l) => Option::Some(l@),
                Option::None => Option::None,
            },
        }
    }
}

impl NodeRecord {
    /// Deep copy; every piece is copied exactly.
    pub fn duplicate(&self) -> (r: NodeRecord)
        ensures
            r == *self,
    {
        NodeRecord {
            node_id: self.node_id,
            info: self.info.duplicate(),
            location: match &self.location {
                Option::Some(l) => Option::Some(l.duplicate()),
                Option::None => Option::None,
            },
        }
    }
}

/// One chain: genesis hash, label, and its node slots in add order.
#[derive(Clone, Debug, PartialEq, Eq)]
pub struct Chain {
    pub genesis_hash: u64,
    pub label: String,
    pub nodes: Vec<Option<NodeRecord>>,
}

/// Model of a slot vector.
pub open spec fn nodes_view(s: Seq<Option<NodeRecord>>) -> Seq<Option<NodeRecordV>> {
    s.map_values(
        |o: Option<NodeRecord>|
            match o {
                Option::Some(rec) => Option::Some(rec@),
                Option::None => Option::<NodeRecordV>::None,
            },
    )
}

/// Mathematical model of [`Chain`].
#[verifier::ext_equal]
pub struct ChainV {
    pub genesis_hash: u64,
    pub label: Seq<char>,
    pub nodes: Seq<Option<NodeRecordV>>,
}

impl View for Chain {
    type V = ChainV;

    open spec fn view(&self) -> ChainV {
        ChainV {
            genesis_hash: self.genesis_hash,
            label: self.label@,
            nodes: nodes_view(self.nodes@),
        }
    }
}

/// The registry itself.
#[derive(Clone, Debug)]
pub struct Registry {
    /// Node names whose chains are not admitted.
    pub denylist: Vec<String>,
    /// How many live nodes one chain may hold.
    pub max_nodes_per_chain: usize,
    /// All known chains, in order of first appearance.
    pub chains: Vec<Chain>,
    /// The next node identifier to hand out; identifiers are never reused.
    pub next_node_id: u64,
}

/// Mathematical model of [`Registry`].
#[verifier::ext_equal]
pub struct RegistryV {
    pub denylist: Seq<Seq<char>>,
    pub max_nodes_per_chain: usize,
    pub chains: Seq<ChainV>,
    pub next_node_id: u64,
}

impl View for Registry {
    type V = RegistryV;

    open spec fn view(&self) -> RegistryV {
        RegistryV {
            denylist: self.denylist@.map_values(|s: String| s@),
            max_nodes_per_chain: self.max_nodes_per_chain,
            chains: self.chains@.map_values(|c: Chain| c@),
            next_node_id: self.next_node_id,
        }
    }
}

/// How many slots of `nodes` hold a live node.
pub open spec fn live_count(nodes: Seq<Option<NodeRecordV>>) -> nat
    decreases nodes.len(),
{
    if nodes.len() == 0 {
        0
    } else {
        live_count(nodes.drop_last()) + if nodes.last() is Some {
            1nat
        } else {
            0nat
        }
    }
}

/// Slot `si` of `nodes` holds the node with identifier `id`.
pub open spec fn node_at(nodes: Seq<Option<NodeRecordV>>, id: u64, si: int) -> bool {
    0 <= si < nodes.len() && nodes[si] is Some && nodes[si]->Some_0.node_id == id
}

/// Chain `ci` of `r` holds the node with identifier `id` at slot `si`.
pub open spec fn node_loc_at(r: RegistryV, id: u64, ci: int, si: int) -> bool {
    0 <= ci < r.chains.len() && node_at(r.chains[ci].nodes, id, si)
}

/// The registry holds a node with identifier `id`.
pub open spec fn contains_node(r: RegistryV, id: u64) -> bool {
    exists|ci: int, si: int| node_loc_at(r, id, ci, si)
}

/// The (chain, slot) position of node `id`; meaningful when
/// [`contains_node`] holds (well-formedness makes it unique).
pub open spec fn node_loc(r: RegistryV, id: u64) -> (int, int) {
    choose|ci: int, si: int| node_loc_at(r, id, ci, si)
}

/// The index of the chain with this genesis hash; meaningful when one exists
/// (well-formedness makes it unique).
pub open spec fn chain_idx(r: RegistryV, genesis_hash: u64) -> int {
    choose|ci: int| 0 <= ci < r.chains.len() && r.chains[ci].genesis_hash == genesis_hash
}

/// The registry holds a chain with this genesis hash.
pub open spec fn contains_chain(r: RegistryV, genesis_hash: u64) -> bool {
    exists|ci: int| 0 <= ci < r.chains.len() && r.chains[ci].genesis_hash == genesis_hash
}

/// Well-formedness: genesis hashes are unique, node identifiers are unique
/// across the whole registry and below the allocation counter.
pub open spec fn reg_wf(r: RegistryV) -> bool {
    &&& forall|i: int, j: int|
        0 <= i < j < r.chains.len() ==> r.chains[i].genesis_hash != r.chains[j].genesis_hash
    &&& forall|ci: int, si: int|
        0 <= ci < r.chains.len() && 0 <= si < r.chains[ci].nodes.len()
            && r.chains[ci].nodes[si] is Some ==> (#[trigger] r.chains[ci].nodes[si])->Some_0.node_id
            < r.next_node_id
    &&& forall|c1: int, s1: int, c2: int, s2: int|
        #![trigger r.chains[c1].nodes[s1], r.chains[c2].nodes[s2]]
        0 <= c1 < r.chains.len() && 0 <= s1 < r.chains[c1].nodes.len() && 0 <= c2 < r.chains.len()
            && 0 <= s2 < r.chains[c2].nodes.len() && r.chains[c1].nodes[s1] is Some
            && r.chains[c2].nodes[s2] is Some && r.chains[c1].nodes[s1]->Some_0.node_id
            == r.chains[c2].nodes[s2]->Some_0.node_id ==> (c1 == c2 && s1 == s2)
}

/// The record a successful add stores for the new node.
pub open spec fn added_record(r: RegistryV, name: Seq<char>) -> NodeRecordV {
    NodeRecordV {
        node_id: r.next_node_id,
        info: NodeInfoV { name, finalized_height: 0, finalized_hash: 0, stale: false },
        location: Option::None,
    }
}

/// The chosen chain after appending `rec`: one more slot, relabelled after
/// the newcomer.
pub open spec fn chain_after_add(c: ChainV, rec: NodeRecordV) -> ChainV {
    ChainV {
        genesis_hash: c.genesis_hash,
        label: rec.info.name,
        nodes: c.nodes.push(Option::Some(rec)),
    }
}

/// The whole registry after a successful add of a node named `name` to the
/// chain with genesis hash `genesis_hash`.
pub open spec fn reg_after_add(r: RegistryV, genesis_hash: u64, name: Seq<char>) -> RegistryV {
    let rec = added_record(r, name);
    let chains = if contains_chain(r, genesis_hash) {
        let ci = chain_idx(r, genesis_hash);
        r.chains.update(ci, chain_after_add(r.chains[ci], rec))
    } else {
        r.chains.push(
            ChainV { genesis_hash, label: name, nodes: seq![Option::Some(rec)] },
        )
    };
    RegistryV { chains, next_node_id: (r.next_node_id + 1) as u64, ..r }
}

/// An add is denied when the label the chain would then carry — the new
/// node's name — is on the deny list.
pub open spec fn denied(r: RegistryV, name: Seq<char>) -> bool {
    r.denylist.contains(name)
}

/// An add is over quota when the chain already holds as many live nodes as
/// allowed (a chain yet to appear holds zero).
pub open spec fn over_quota(r: RegistryV, genesis_hash: u64) -> bool {
    if contains_chain(r, genesis_hash) {
        live_count(r.chains[chain_idx(r, genesis_hash)].nodes) >= r.max_nodes_per_chain
    } else {
        r.max_nodes_per_chain == 0
    }
}

/// The registry after replacing the record at (`ci`, `si`).
pub open spec fn reg_with_record(r: RegistryV, ci: int, si: int, rec: Option<
    NodeRecordV,
>) -> RegistryV {
    RegistryV {
        chains: r.chains.update(
            ci,
            ChainV { nodes: r.chains[ci].nodes.update(si, rec), ..r.chains[ci] },
        ),
        ..r
    }
}

/// The record a payload turns `prev` into.
pub open spec fn updated_record(prev: NodeRecordV, payload: Payload) -> NodeRecordV {
    match payload {
        Payload::Finalized(height, hash) => NodeRecordV {
            info: NodeInfoV { finalized_height: height, finalized_hash: hash, ..prev.info },
            ..prev
        },
        Payload::WentStale => NodeRecordV {
            info: NodeInfoV { stale: true, ..prev.info },
            ..prev
        },
    }
}

/// The feed message a payload makes the registry emit for the node at slot
/// `si`.
pub open spec fn update_message(si: int, payload: Payload) -> crate::feed::FeedMessageV {
    match payload {
        Payload::Finalized(height, hash) => crate::feed::FeedMessageV::FinalizedBlock(
            si as usize,
            height,
            hash,
        ),
        Payload::WentStale => crate::feed::FeedMessageV::StaleNode(si as usize),
    }
}

/// The registry after a payload lands on the node with identifier `id`
/// (meaningful when the registry holds it).
pub open spec fn reg_after_update(r: RegistryV, id: u64, payload: Payload) -> RegistryV {
    let loc = node_loc(r, id);
    let prev = r.chains[loc.0].nodes[loc.1]->Some_0;
    reg_with_record(r, loc.0, loc.1, Option::Some(updated_record(prev, payload)))
}

/// What a successful add reports back.
pub struct NodeAddedToChain {
    /// The fresh node identifier.
    pub id: u64,
    /// The node's slot index within its chain.
    pub chain_node_index: usize,
    /// The stored view of the node, for the feed.
    pub node: NodeInfo,
    /// The chain's label after the add.
    pub new_chain_label: String,
    /// Live nodes on the chain after the add.
    pub chain_node_count: usize,
    /// Whether the add changed the label of an already populated chain.
    pub has_chain_label_changed: bool,
}

/// The outcome of an add: success, or one of the two policy rejections.
pub enum AddNodeResult {
    NodeAddedToChain(NodeAddedToChain),
    ChainOverQuota,
    ChainOnDenyList,
}

/// What a successful removal reports back.
pub struct RemovedNode {
    /// The slot index the removed node had within its chain.
    pub chain_node_index: usize,
    /// Live nodes remaining on the chain.
    pub chain_node_count: usize,
    /// The chain's label after the removal.
    pub new_chain_label: String,
}

proof fn lemma_live_count_push(nodes: Seq<Option<NodeRecordV>>, rec: Option<NodeRecordV>)
    ensures
        live_count(nodes.push(rec)) == live_count(nodes) + if rec is Some {
            1nat
        } else {
            0nat
        },
{
    assert(nodes.push(rec).drop_last() =~= nodes);
}

proof fn lemma_live_count_update(nodes: Seq<Option<NodeRecordV>>, si: int, rec: Option<NodeRecordV>)
    requires
        0 <= si < nodes.len(),
    ensures
        live_count(nodes.update(si, rec)) == live_count(nodes) + (
        if rec is Some {
            1int
        } else {
            0int
        }) - (
        if nodes[si] is Some {
            1int
        } else {
            0int
        }),
    decreases nodes.len(),
{
    let upd = nodes.update(si, rec);
    if si == nodes.len() - 1 {
        assert(upd.drop_last() =~= nodes.drop_last());
    } else {
        assert(upd.drop_last() =~= nodes.drop_last().update(si, rec));
        lemma_live_count_update(nodes.drop_last(), si, rec);
    }
}

proof fn lemma_live_count_take_step(nodes: Seq<Option<NodeRecordV>>, i: int)
    requires
        0 <= i < nodes.len(),
    ensures
        live_count(nodes.take(i + 1)) == live_count(nodes.take(i)) + if nodes[i] is Some {
            1nat
        } else {
            0nat
        },
{
    assert(nodes.take(i + 1).drop_last() =~= nodes.take(i));
}

/// Counts the live nodes of a slot vector.
pub fn live_count_exec(nodes: &Vec<Option<NodeRecord>>) -> (r: usize)
    ensures
        r == live_count(nodes_view(nodes@)),
{
    let ghost view = nodes_view(nodes@);
    let mut count: usize = 0;
    let mut i: usize = 0;
    proof {
        assert(view.take(0) =~= Seq::<Option<NodeRecordV>>::empty());
    }
    while i < nodes.len()
        invariant
            i <= nodes@.len(),
            view == nodes_view(nodes@),
            count == live_count(view.take(i as int)),
            count <= i,
        decreases nodes@.len() - i,
    {
        proof {
            lemma_live_count_take_step(view, i as int);
        }
        if nodes[i].is_some() {
            count += 1;
        }
        i += 1;
    }
    proof {
        assert(view.take(nodes@.len() as int) =~= view);
    }
    count
}

impl Registry {
    /// An empty registry with the given deny list and per-chain quota.
    pub fn new(denylist: Vec<String>, max_nodes_per_chain: usize) -> (r: Registry)
        ensures
            r@.denylist == denylist@.map_values(|s: String| s@),
            r@.max_nodes_per_chain == max_nodes_per_chain,
            r@.chains == Seq::<ChainV>::empty(),
            r@.next_node_id == 0,
            reg_wf(r@),
    {
        let r = Registry { denylist, max_nodes_per_chain, chains: Vec::new(), next_node_id: 0 };
        proof {
            assert(r@.chains =~= Seq::<ChainV>::empty());
        }
        r
    }
}

/// With well-formedness, the chain index found for a genesis hash is the
/// only one.
pub proof fn lemma_chain_idx(r: RegistryV, genesis_hash: u64)
    requires
        reg_wf(r),
        contains_chain(r, genesis_hash),
    ensures
        0 <= chain_idx(r, genesis_hash) < r.chains.len(),
        r.chains[chain_idx(r, genesis_hash)].genesis_hash == genesis_hash,
        forall|ci: int|
            0 <= ci < r.chains.len() && r.chains[ci].genesis_hash == genesis_hash ==> ci
                == chain_idx(r, genesis_hash),
{
    let c0 = chain_idx(r, genesis_hash);
    assert(0 <= c0 < r.chains.len() && r.chains[c0].genesis_hash == genesis_hash);
    assert forall|ci: int|
        0 <= ci < r.chains.len() && r.chains[ci].genesis_hash == genesis_hash implies ci
        == c0 by {
        if ci < c0 {
            assert(r.chains[ci].genesis_hash != r.chains[c0].genesis_hash);
        } else if ci > c0 {
            assert(r.chains[c0].genesis_hash != r.chains[ci].genesis_hash);
        }
    }
}

/// With well-formedness, the position found for a node identifier is the
/// only one.
pub proof fn lemma_node_loc(r: RegistryV, id: u64)
    requires
        reg_wf(r),
        contains_node(r, id),
    ensures
        node_loc_at(r, id, node_loc(r, id).0, node_loc(r, id).1),
        forall|ci: int, si: int|
            node_loc_at(r, id, ci, si) ==> (ci, si) == node_loc(r, id),
{
    let (c0, s0) = node_loc(r, id);
    assert(node_loc_at(r, id, c0, s0));
    assert forall|ci: int, si: int| node_loc_at(r, id, ci, si) implies (ci, si) == node_loc(
        r,
        id,
    ) by {
        assert(r.chains[ci].nodes[si] is Some && r.chains[c0].nodes[s0] is Some
            && r.chains[ci].nodes[si]->Some_0.node_id == r.chains[c0].nodes[s0]->Some_0.node_id);
    }
}

/// Replacing one record with one of the same identifier, or emptying its
/// slot, keeps the registry well-formed.
pub proof fn lemma_wf_after_set(r: RegistryV, ci: int, si: int, rec: Option<NodeRecordV>)
    requires
        reg_wf(r),
        0 <= ci < r.chains.len(),
        0 <= si < r.chains[ci].nodes.len(),
        rec is Some ==> r.chains[ci].nodes[si] is Some && rec->Some_0.node_id
            == r.chains[ci].nodes[si]->Some_0.node_id,
    ensures
        reg_wf(reg_with_record(r, ci, si, rec)),
{
    let r2 = reg_with_record(r, ci, si, rec);
    assert forall|c1: int, s1: int, c2: int, s2: int|
        0 <= c1 < r2.chains.len() && 0 <= s1 < r2.chains[c1].nodes.len() && 0 <= c2
            < r2.chains.len() && 0 <= s2 < r2.chains[c2].nodes.len() && (#[trigger] r2.chains[c1].nodes[s1]) is Some
            && (#[trigger] r2.chains[c2].nodes[s2]) is Some
            && r2.chains[c1].nodes[s1]->Some_0.node_id
            == r2.chains[c2].nodes[s2]->Some_0.node_id implies (c1 == c2 && s1 == s2) by {
        assert(r2.chains[c1].nodes[s1] is Some ==> r.chains[c1].nodes[s1] is Some
            && r.chains[c1].nodes[s1]->Some_0.node_id == r2.chains[c1].nodes[s1]->Some_0.node_id);
        assert(r2.chains[c2].nodes[s2] is Some ==> r.chains[c2].nodes[s2] is Some
            && r.chains[c2].nodes[s2]->Some_0.node_id == r2.chains[c2].nodes[s2]->Some_0.node_id);
    }
    assert forall|c: int, s: int|
        0 <= c < r2.chains.len() && 0 <= s < r2.chains[c].nodes.len()
            && (#[trigger] r2.chains[c].nodes[s]) is Some implies r2.chains[c].nodes[s]->Some_0.node_id
        < r2.next_node_id by {
        assert(r.chains[c].nodes[s] is Some && r.chains[c].nodes[s]->Some_0.node_id
            == r2.chains[c].nodes[s]->Some_0.node_id);
    }
}

/// A successful add keeps the registry well-formed.
pub proof fn lemma_wf_after_add(r: RegistryV, genesis_hash: u64, name: Seq<char>)
    requires
        reg_wf(r),
        r.next_node_id < u64::MAX,
    ensures
        reg_wf(reg_after_add(r, genesis_hash, name)),
{
    let r2 = reg_after_add(r, genesis_hash, name);
    if contains_chain(r, genesis_hash) {
        lemma_chain_idx(r, genesis_hash);
    }
    assert forall|c: int, s: int|
        0 <= c < r2.chains.len() && 0 <= s < r2.chains[c].nodes.len()
            && (#[trigger] r2.chains[c].nodes[s]) is Some implies r2.chains[c].nodes[s]->Some_0.node_id
        < r2.next_node_id by {
        if c < r.chains.len() && s < r.chains[c].nodes.len() {
            assert(r.chains[c].nodes[s] == r2.chains[c].nodes[s] || r2.chains[c].nodes[s]
                == Option::Some(added_record(r, name)));
        } else {
            assert(r2.chains[c].nodes[s] == Option::Some(added_record(r, name)));
        }
    }
    assert forall|c1: int, s1: int, c2: int, s2: int|
        0 <= c1 < r2.chains.len() && 0 <= s1 < r2.chains[c1].nodes.len() && 0 <= c2
            < r2.chains.len() && 0 <= s2 < r2.chains[c2].nodes.len() && (#[trigger] r2.chains[c1].nodes[s1]) is Some
            && (#[trigger] r2.chains[c2].nodes[s2]) is Some
            && r2.chains[c1].nodes[s1]->Some_0.node_id
            == r2.chains[c2].nodes[s2]->Some_0.node_id implies (c1 == c2 && s1 == s2) by {
        let fresh = added_record(r, name);
        let old1 = c1 < r.chains.len() && s1 < r.chains[c1].nodes.len() && r.chains[c1].nodes[s1]
            == r2.chains[c1].nodes[s1];
        let old2 = c2 < r.chains.len() && s2 < r.chains[c2].nodes.len() && r.chains[c2].nodes[s2]
            == r2.chains[c2].nodes[s2];
        assert(old1 || r2.chains[c1].nodes[s1] == Option::Some(fresh));
        assert(old2 || r2.chains[c2].nodes[s2] == Option::Some(fresh));
        if old1 && !old2 {
            assert(r.chains[c1].nodes[s1]->Some_0.node_id < r.next_node_id);
        }
        if old2 && !old1 {
            assert(r.chains[c2].nodes[s2]->Some_0.node_id < r.next_node_id);
        }
    }
}

impl Registry {
    /// Whether a node with this name would put its chain on the deny list.
    fn name_denied(&self, name: &String) -> (r: bool)
        ensures
            r == denied(self@, name@),
    {
        let mut i: usize = 0;
        while i < self.denylist.len()
            invariant
                i <= self.denylist@.len(),
                self@.denylist.len() == self.denylist@.len(),
                self@.denylist == self.denylist@.map_values(|s: String| s@),
                forall|j: int| 0 <= j < i ==> self@.denylist[j] != name@,
            decreases self.denylist@.len() - i,
        {
            if self.denylist[i].eq(name) {
                proof {
                    assert(self@.denylist[i as int] == name@);
                }
                return true;
            }
            proof {
                assert(self@.denylist[i as int] != name@);
            }
            i += 1;
        }
        false
    }

    /// Adds a node to the chain with this genesis hash, subject to the deny
    /// list and the per-chain quota; on rejection nothing changes.
    pub fn add_node(&mut self, genesis_hash: u64, node: NodeDetails) -> (r: AddNodeResult)
        requires
            reg_wf(old(self)@),
            old(self).next_node_id < u64::MAX,
        ensures
            reg_wf(final(self)@),
            match r {
                AddNodeResult::ChainOnDenyList => *final(self) == *old(self) && denied(
                    old(self)@,
                    node@.name,
                ),
                AddNodeResult::ChainOverQuota => *final(self) == *old(self) && !denied(
                    old(self)@,
                    node@.name,
                ) && over_quota(old(self)@, genesis_hash),
                AddNodeResult::NodeAddedToChain(res) => {
                    &&& !denied(old(self)@, node@.name)
                    &&& !over_quota(old(self)@, genesis_hash)
                    &&& final(self)@ == reg_after_add(old(self)@, genesis_hash, node@.name)
                    &&& res.id == old(self).next_node_id
                    &&& res.chain_node_index == if contains_chain(old(self)@, genesis_hash) {
                        old(self)@.chains[chain_idx(old(self)@, genesis_hash)].nodes.len()
                    } else {
                        0
                    }
                    &&& res.node@ == added_record(old(self)@, node@.name).info
                    &&& res.new_chain_label@ == node@.name
                    &&& res.chain_node_count == 1 + if contains_chain(old(self)@, genesis_hash) {
                        live_count(old(self)@.chains[chain_idx(old(self)@, genesis_hash)].nodes)
                    } else {
                        0
                    }
                    &&& res.has_chain_label_changed == (contains_chain(old(self)@, genesis_hash)
                        && live_count(old(self)@.chains[chain_idx(old(self)@, genesis_hash)].nodes)
                        > 0 && old(self)@.chains[chain_idx(old(self)@, genesis_hash)].label
                        != node@.name)
                },
            },
    {
        if self.name_denied(&node.name) {
            return AddNodeResult::ChainOnDenyList;
        }
        let id = self.next_node_id;
        match self.find_chain_index(genesis_hash) {
            Option::Some(ci) => {
                proof {
                    lemma_chain_idx(self@, genesis_hash);
                    assert(self@.chains[ci as int].nodes == self.chains@[ci as int]@.nodes);
                }
                let live = live_count_exec(&self.chains[ci].nodes);
                if live >= self.max_nodes_per_chain {
                    return AddNodeResult::ChainOverQuota;
                }
                let rec = NodeRecord {
                    node_id: id,
                    info: NodeInfo {
                        name: node.name,
                        finalized_height: 0,
                        finalized_hash: 0,
                        stale: false,
                    },
                    location: Option::None,
                };
                let res_node = rec.info.duplicate();
                let res_label = rec.info.name.clone();
                let mut c = self.chains.remove(ci);
                let slot = c.nodes.len();
                let changed = live > 0 && !(c.label == rec.info.name);
                c.label = rec.info.name.clone();
                c.nodes.push(Option::Some(rec));
                self.chains.insert(ci, c);
                self.next_node_id = id + 1;
                proof {
                    let oldv = old(self)@;
                    let cv = chain_after_add(
                        oldv.chains[ci as int],
                        added_record(oldv, res_node@.name),
                    );
                    assert(self.chains@[ci as int]@.nodes =~= cv.nodes);
                    assert(self.chains@[ci as int]@ =~= cv);
                    assert(self@.chains =~= oldv.chains.update(ci as int, cv));
                    assert(self@ =~= reg_after_add(oldv, genesis_hash, res_node@.name));
                    lemma_wf_after_add(oldv, genesis_hash, res_node@.name);
                    lemma_live_count_push(
                        oldv.chains[ci as int].nodes,
                        Option::Some(added_record(oldv, res_node@.name)),
                    );
                }
                AddNodeResult::NodeAddedToChain(
                    NodeAddedToChain {
                        id,
                        chain_node_index: slot,
                        node: res_node,
                        new_chain_label: res_label,
                        chain_node_count: live + 1,
                        has_chain_label_changed: changed,
                    },
                )
            },
            Option::None => {
                if self.max_nodes_per_chain == 0 {
                    return AddNodeResult::ChainOverQuota;
                }
                let rec = NodeRecord {
                    node_id: id,
                    info: NodeInfo {
                        name: node.name,
                        finalized_height: 0,
                        finalized_hash: 0,
                        stale: false,
                    },
                    location: Option::None,
                };
                let res_node = rec.info.duplicate();
                let res_label = rec.info.name.clone();
                let label = rec.info.name.clone();
                let mut nodes: Vec<Option<NodeRecord>> = Vec::new();
                nodes.push(Option::Some(rec));
                let c = Chain { genesis_hash, label, nodes };
                self.chains.push(c);
                self.next_node_id = id + 1;
                proof {
                    let oldv = old(self)@;
                    let cv = ChainV {
                        genesis_hash,
                        label: res_node@.name,
                        nodes: seq![Option::Some(added_record(oldv, res_node@.name))],
                    };
                    assert(self.chains@.last()@.nodes =~= cv.nodes);
                    assert(self.chains@.last()@ =~= cv);
                    assert(self@.chains =~= oldv.chains.push(cv));
                    assert(self@ =~= reg_after_add(oldv, genesis_hash, res_node@.name));
                    lemma_wf_after_add(oldv, genesis_hash, res_node@.name);
                }
                AddNodeResult::NodeAddedToChain(
                    NodeAddedToChain {
                        id,
                        chain_node_index: 0,
                        node: res_node,
                        new_chain_label: res_label,
                        chain_node_count: 1,
                        has_chain_label_changed: false,
                    },
                )
            },
        }
    }

    /// Removes the node with this identifier; reports the slot it held and
    /// the chain's remaining count and label, or `None` for an unknown node.
    pub fn remove_node(&mut self, node_id: u64) -> (r: Option<RemovedNode>)
        requires
            reg_wf(old(self)@),
        ensures
            reg_wf(final(self)@),
            match r {
                Option::None => *final(self) == *old(self) && !contains_node(
                    old(self)@,
                    node_id,
                ),
                Option::Some(res) => {
                    let loc = node_loc(old(self)@, node_id);
                    &&& contains_node(old(self)@, node_id)
                    &&& final(self)@ == reg_with_record(old(self)@, loc.0, loc.1, Option::None)
                    &&& res.chain_node_index == loc.1
                    &&& res.chain_node_count + 1 == live_count(old(self)@.chains[loc.0].nodes)
                    &&& res.new_chain_label@ == old(self)@.chains[loc.0].label
                },
            },
    {
        match self.locate(node_id) {
            Option::None => None,
            Option::Some((ci, si)) => {
                let mut c = self.chains.remove(ci);
                c.nodes.set(si, Option::None);
                let count = live_count_exec(&c.nodes);
                let label = c.label.clone();
                self.chains.insert(ci, c);
                proof {
                    let oldv = old(self)@;
                    let cv = ChainV {
                        nodes: oldv.chains[ci as int].nodes.update(si as int, Option::None),
                        ..oldv.chains[ci as int]
                    };
                    assert(self.chains@[ci as int]@.nodes =~= cv.nodes);
                    assert(self.chains@[ci as int]@ =~= cv);
                    assert(self@.chains =~= oldv.chains.update(ci as int, cv));
                    assert(self@ =~= reg_with_record(oldv, ci as int, si as int, Option::None));
                    lemma_wf_after_set(oldv, ci as int, si as int, Option::None);
                    lemma_live_count_update(
                        oldv.chains[ci as int].nodes,
                        si as int,
                        Option::None,
                    );
                }
                Some(
                    RemovedNode {
                        chain_node_index: si,
                        chain_node_count: count,
                        new_chain_label: label,
                    },
                )
            },
        }
    }

    /// Applies a reported update to the node with this identifier, appending
    /// the matching feed message to `feed`; unknown nodes are skipped.
    pub fn update_node(&mut self, node_id: u64, payload: Payload, feed: &mut FeedMessageSerializer)
        requires
            reg_wf(old(self)@),
        ensures
            reg_wf(final(self)@),
            !contains_node(old(self)@, node_id) ==> *final(self) == *old(self) && final(feed)@
                == old(feed)@,
            contains_node(old(self)@, node_id) ==> {
                let loc = node_loc(old(self)@, node_id);
                let prev = old(self)@.chains[loc.0].nodes[loc.1]->Some_0;
                match payload {
                    Payload::Finalized(height, hash) => final(self)@ == reg_with_record(
                        old(self)@,
                        loc.0,
                        loc.1,
                        Option::Some(
                            NodeRecordV {
                                info: NodeInfoV {
                                    finalized_height: height,
                                    finalized_hash: hash,
                                    ..prev.info
                                },
                                ..prev
                            },
                        ),
                    ) && final(feed)@ == old(feed)@.push(
                        crate::feed::FeedMessageV::FinalizedBlock(loc.1 as usize, height, hash),
                    ),
                    Payload::WentStale => final(self)@ == reg_with_record(
                        old(self)@,
                        loc.0,
                        loc.1,
                        Option::Some(
                            NodeRecordV { info: NodeInfoV { stale: true, ..prev.info }, ..prev },
                        ),
                    ) && final(feed)@ == old(feed)@.push(
                        crate::feed::FeedMessageV::StaleNode(loc.1 as usize),
                    ),
                }
            },
    {
        match self.locate(node_id) {
            Option::None => {},
            Option::Some((ci, si)) => {
                let mut c = self.chains.remove(ci);
                let mut rec = match &c.nodes[si] {
                    Option::Some(rec) => rec.duplicate(),
                    Option::None => unreached(),
                };
                match payload {
                    Payload::Finalized(height, hash) => {
                        rec.info.finalized_height = height;
                        rec.info.finalized_hash = hash;
                        feed.push(FeedMessage::FinalizedBlock(si, height, hash));
                    },
                    Payload::WentStale => {
                        rec.info.stale = true;
                        feed.push(FeedMessage::StaleNode(si));
                    },
                }
                let ghost recv = rec@;
                c.nodes.set(si, Option::Some(rec));
                self.chains.insert(ci, c);
                proof {
                    let oldv = old(self)@;
                    let cv = ChainV {
                        nodes: oldv.chains[ci as int].nodes.update(
                            si as int,
                            Option::Some(recv),
                        ),
                        ..oldv.chains[ci as int]
                    };
                    assert(self.chains@[ci as int]@.nodes =~= cv.nodes);
                    assert(self.chains@[ci as int]@ =~= cv);
                    assert(self@.chains =~= oldv.chains.update(ci as int, cv));
                    let prev = oldv.chains[ci as int].nodes[si as int]->Some_0;
                    assert(recv =~= match payload {
                        Payload::Finalized(height, hash) => NodeRecordV {
                            info: NodeInfoV {
                                finalized_height: height,
                                finalized_hash: hash,
                                ..prev.info
                            },
                            ..prev
                        },
                        Payload::WentStale => NodeRecordV {
                            info: NodeInfoV { stale: true, ..prev.info },
                            ..prev
                        },
                    });
                    assert(self@ =~= reg_with_record(
                        oldv,
                        ci as int,
                        si as int,
                        Option::Some(recv),
                    ));
                    lemma_wf_after_set(oldv, ci as int, si as int, Option::Some(recv));
                }
            },
        }
    }

    /// Stores the node's resolved location; unknown nodes are skipped.
    pub fn update_node_location(&mut self, node_id: u64, location: Option<NodeLocation>)
        requires
            reg_wf(old(self)@),
        ensures
            reg_wf(final(self)@),
            !contains_node(old(self)@, node_id) ==> *final(self) == *old(self),
            contains_node(old(self)@, node_id) ==> {
                let loc = node_loc(old(self)@, node_id);
                let prev = old(self)@.chains[loc.0].nodes[loc.1]->Some_0;
                final(self)@ == reg_with_record(
                    old(self)@,
                    loc.0,
                    loc.1,
                    Option::Some(NodeRecordV { location: opt_loc_view(location), ..prev }),
                )
            },
    {
        match self.locate(node_id) {
            Option::None => {},
            Option::Some((ci, si)) => {
                let mut c = self.chains.remove(ci);
                let mut rec = match &c.nodes[si] {
                    Option::Some(rec) => rec.duplicate(),
                    Option::None => unreached(),
                };
                rec.location = location;
                let ghost recv = rec@;
                c.nodes.set(si, Option::Some(rec));
                self.chains.insert(ci, c);
                proof {
                    let oldv = old(self)@;
                    let cv = ChainV {
                        nodes: oldv.chains[ci as int].nodes.update(
                            si as int,
                            Option::Some(recv),
                        ),
                        ..oldv.chains[ci as int]
                    };
                    assert(self.chains@[ci as int]@.nodes =~= cv.nodes);
                    assert(self.chains@[ci as int]@ =~= cv);
                    assert(self@.chains =~= oldv.chains.update(ci as int, cv));
                    let prev = oldv.chains[ci as int].nodes[si as int]->Some_0;
                    assert(recv =~= NodeRecordV { location: opt_loc_view(location), ..prev });
                    assert(self@ =~= reg_with_record(
                        oldv,
                        ci as int,
                        si as int,
                        Option::Some(recv),
                    ));
                    lemma_wf_after_set(oldv, ci as int, si as int, Option::Some(recv));
                }
            },
        }
    }

    /// A deep, point-in-time copy: same model, freshly owned storage.
    pub fn duplicate(&self) -> (r: Registry)
        ensures
            r@ == self@,
    {
        let mut denylist: Vec<String> = Vec::new();
        let mut i: usize = 0;
        while i < self.denylist.len()
            invariant
                i <= self.denylist@.len(),
                denylist@.len() == i,
                forall|j: int| 0 <= j < i ==> denylist@[j] == self.denylist@[j],
            decreases self.denylist@.len() - i,
        {
            denylist.push(self.denylist[i].clone());
            i += 1;
        }
        let mut chains: Vec<Chain> = Vec::new();
        let mut ci: usize = 0;
        while ci < self.chains.len()
            invariant
                ci <= self.chains@.len(),
                chains@.len() == ci,
                forall|j: int| 0 <= j < ci ==> chains@[j]@ == self.chains@[j]@,
            decreases self.chains@.len() - ci,
        {
            let src = &self.chains[ci];
            let mut nodes: Vec<Option<NodeRecord>> = Vec::new();
            let mut si: usize = 0;
            while si < src.nodes.len()
                invariant
                    si <= src.nodes@.len(),
                    nodes@.len() == si,
                    forall|j: int| 0 <= j < si ==> nodes@[j] == src.nodes@[j],
                decreases src.nodes@.len() - si,
            {
                let copy = match &src.nodes[si] {
                    Option::Some(rec) => Option::Some(rec.duplicate()),
                    Option::None => Option::None,
                };
                nodes.push(copy);
                si += 1;
            }
            proof {
                assert(nodes@ =~= src.nodes@);
            }
            chains.push(Chain { genesis_hash: src.genesis_hash, label: src.label.clone(), nodes });
            proof {
                assert(chains@.last()@ =~= src@);
            }
            ci += 1;
        }
        let r = Registry {
            denylist,
            max_nodes_per_chain: self.max_nodes_per_chain,
            chains,
            next_node_id: self.next_node_id,
        };
        proof {
            assert(r.denylist@ =~= self.denylist@);
            assert(r@.chains =~= self@.chains);
            assert(r@ =~= self@);
        }
        r
    }
}

/// The model of an optional location value.
pub open spec fn opt_loc_view(o: Option<NodeLocation>) -> Option<NodeLocationV> {
    match o {
        Option::Some(l) => Option::Some(l@),
        Option::None => Option::None,
    }
}

impl Registry {
    /// The position of the chain with this genesis hash, if it is known.
    fn find_chain_index(&self, genesis_hash: u64) -> (r: Option<usize>)
        requires
            reg_wf(self@),
        ensures
            match r {
                Option::Some(ci) => contains_chain(self@, genesis_hash) && ci == chain_idx(
                    self@,
                    genesis_hash,
                ),
                Option::None => !contains_chain(self@, genesis_hash),
            },
    {
        let mut ci: usize = 0;
        while ci < self.chains.len()
            invariant
                reg_wf(self@),
                ci <= self@.chains.len(),
                self@.chains.len() == self.chains@.len(),
                forall|c: int| 0 <= c < ci ==> self@.chains[c].genesis_hash != genesis_hash,
            decreases self.chains@.len() - ci,
        {
            if self.chains[ci].genesis_hash == genesis_hash {
                proof {
                    assert(self@.chains[ci as int].genesis_hash == genesis_hash);
                    lemma_chain_idx(self@, genesis_hash);
                }
                return Some(ci);
            }
            proof {
                assert(self@.chains[ci as int].genesis_hash != genesis_hash);
            }
            ci += 1;
        }
        None
    }

    /// The (chain, slot) position of the node with this identifier, if it is
    /// known.
    fn locate(&self, node_id: u64) -> (r: Option<(usize, usize)>)
        requires
            reg_wf(self@),
        ensures
            match r {
                Option::Some(pos) => contains_node(self@, node_id) && (
                pos.0 as int,
                pos.1 as int,
                ) == node_loc(self@, node_id),
                Option::None => !contains_node(self@, node_id),
            },
    {
        let mut ci: usize = 0;
        while ci < self.chains.len()
            invariant
                reg_wf(self@),
                ci <= self@.chains.len(),
                self@.chains.len() == self.chains@.len(),
                forall|c: int, s: int| 0 <= c < ci ==> !node_at(self@.chains[c].nodes, node_id, s),
            decreases self.chains@.len() - ci,
        {
            let nodes = &self.chains[ci].nodes;
            let ghost nview = self@.chains[ci as int].nodes;
            proof {
                assert(nview.len() == nodes@.len());
            }
            let mut si: usize = 0;
            while si < nodes.len()
                invariant
                    reg_wf(self@),
                    ci < self.chains@.len(),
                    si <= nodes@.len(),
                    nodes == &self.chains@[ci as int].nodes,
                    nview == self@.chains[ci as int].nodes,
                    nview.len() == nodes@.len(),
                    nview == nodes_view(nodes@),
                    forall|s: int| 0 <= s < si ==> !node_at(nview, node_id, s),
                decreases nodes@.len() - si,
            {
                match &nodes[si] {
                    Option::Some(rec) => {
                        if rec.node_id == node_id {
                            proof {
                                assert(nview[si as int] == Option::Some(rec@));
                                assert(node_loc_at(self@, node_id, ci as int, si as int));
                                lemma_node_loc(self@, node_id);
                            }
                            return Some((ci, si));
                        }
                        proof {
                            assert(nview[si as int] == Option::Some(rec@));
                        }
                    },
                    Option::None => {
                        proof {
                            assert(nview[si as int] is None);
                        }
                    },
                }
                si += 1;
            }
            proof {
                assert forall|s: int| !node_at(self@.chains[ci as int].nodes, node_id, s) by {
                    if 0 <= s < nview.len() {
                        assert(!node_at(nview, node_id, s));
                    }
                }
            }
            ci += 1;
        }
        proof {
            assert forall|c: int, s: int| !node_loc_at(self@, node_id, c, s) by {
                if 0 <= c < self@.chains.len() {
                    assert(!node_at(self@.chains[c].nodes, node_id, s));
                }
            }
        }
        None
    }

    /// The genesis hash of the chain holding this node, and the node's slot
    /// index within that chain.
    pub fn get_chain_by_node_id(&self, node_id: u64) -> (r: Option<(u64, usize)>)
        requires
            reg_wf(self@),
        ensures
            match r {
                Option::Some(pos) => contains_node(self@, node_id) && pos.0 == self@.chains[node_loc(
                    self@,
                    node_id,
                ).0].genesis_hash && pos.1 == node_loc(self@, node_id).1,
                Option::None => !contains_node(self@, node_id),
            },
    {
        match self.locate(node_id) {
            Option::Some((ci, si)) => Some((self.chains[ci].genesis_hash, si)),
            Option::None => None,
        }
    }

    /// The chain with this genesis hash, if it is known.
    pub fn get_chain_by_genesis_hash(&self, genesis_hash: u64) -> (r: Option<&Chain>)
        requires
            reg_wf(self@),
        ensures
            match r {
                Option::Some(c) => contains_chain(self@, genesis_hash) && c@ == self@.chains[chain_idx(
                    self@,
                    genesis_hash,
                )],
                Option::None => !contains_chain(self@, genesis_hash),
            },
    {
        match self.find_chain_index(genesis_hash) {
            Option::Some(ci) => Some(&self.chains[ci]),
            Option::None => None,
        }
    }
}

} // verus!
