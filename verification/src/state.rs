//! The batched state facade.
//!
//! One logical writer drives node add/update/remove/disconnect events against
//! the live registry, resolves identity through the Identity Index, and
//! accumulates per-chain feed messages. Two drain operations hand the
//! accumulated batches out: per-chain diffs (which also refresh the mirror
//! registry), and the global chain-list diff. A separately scheduled step
//! rebuilds the per-chain snapshot cache from the mirror.

use vstd::prelude::*;

use crate::chunks::build_chain_chunks;
use crate::chunks::chain_chunks;
use crate::chunks::chunks_view;
use crate::feed::FeedMessage;
use crate::feed::FeedMessageSerializer;
use crate::feed::FeedMessageV;
use crate::feed::MuteReason;
use crate::feed::NodeDetails;
use crate::feed::NodeLocation;
use crate::ids::all_matching_connection;
use crate::ids::bimap_get_by_right;
use crate::ids::bimap_insert;
use crate::ids::bimap_new;
use crate::ids::bimap_pairs;
use crate::ids::bimap_remove_by_left;
use crate::ids::bimap_remove_by_right;
use crate::ids::injective;
use crate::ids::strictly_sorted;
use crate::ids::without_right;
use crate::ids::NodeIdMap;
use crate::registry::added_record;
use crate::registry::chain_idx;
use crate::registry::contains_chain;
use crate::registry::contains_node;
use crate::registry::denied;
use crate::registry::live_count;
use crate::registry::node_loc;
use crate::registry::over_quota;
use crate::registry::reg_after_update;
use crate::registry::update_message;
use crate::registry::Payload;
use crate::registry::reg_after_add;
use crate::registry::reg_wf;
use crate::registry::AddNodeResult;
use crate::registry::Chain;
use crate::registry::Registry;
use crate::registry::RegistryV;

verus! {

/// Accumulated, not yet drained updates for one chain.
pub struct ChainUpdates {
    /// The chain's pending feed messages, in event order.
    pub feed: FeedMessageSerializer,
    /// The chain's node count as last reported by the registry.
    pub node_count: usize,
    /// Whether the chain's label changed since the last global drain.
    pub has_chain_label_changed: bool,
    /// The chain's label as last reported by the registry.
    pub chain_label: String,
}

/// Mathematical model of [`ChainUpdates`].
#[verifier::ext_equal]
pub struct ChainUpdatesV {
    pub msgs: Seq<FeedMessageV>,
    pub node_count: usize,
    pub has_chain_label_changed: bool,
    pub chain_label: Seq<char>,
}

impl View for ChainUpdates {
    type V = ChainUpdatesV;

    open spec fn view(&self) -> ChainUpdatesV {
        ChainUpdatesV {
            msgs: self.feed@,
            node_count: self.node_count,
            has_chain_label_changed: self.has_chain_label_changed,
            chain_label: self.chain_label@,
        }
    }
}

/// The value stored under `k`, if any: entries are searched from the back,
/// though under [`distinct_keys`] at most one entry can match.
pub open spec fn lookup<V>(s: Seq<(u64, V)>, k: u64) -> Option<V>
    decreases s.len(),
{
    if s.len() == 0 {
        Option::None
    } else if s.last().0 == k {
        Option::Some(s.last().1)
    } else {
        lookup(s.drop_last(), k)
    }
}

/// Some entry carries the key `k`.
pub open spec fn has_key<V>(s: Seq<(u64, V)>, k: u64) -> bool {
    lookup(s, k) is Some
}

/// No two entries carry the same key.
pub open spec fn distinct_keys<V>(s: Seq<(u64, V)>) -> bool {
    forall|i: int, j: int| 0 <= i < j < s.len() ==> s[i].0 != s[j].0
}

/// The position of the entry carrying `k`; meaningful when [`has_key`] holds
/// and keys are distinct.
pub open spec fn key_index<V>(s: Seq<(u64, V)>, k: u64) -> int {
    choose|i: int| 0 <= i < s.len() && s[i].0 == k
}

/// `s` with the entry for `k` replaced in place, or appended if `k` is new.
pub open spec fn upsert<V>(s: Seq<(u64, V)>, k: u64, v: V) -> Seq<(u64, V)> {
    if has_key(s, k) {
        s.update(key_index(s, k), (k, v))
    } else {
        s.push((k, v))
    }
}

/// `s` without the entry for `k` (which must be unique), order kept.
pub open spec fn remove_entry<V>(s: Seq<(u64, V)>, k: u64) -> Seq<(u64, V)> {
    if has_key(s, k) {
        s.remove(key_index(s, k))
    } else {
        s
    }
}

/// Under distinct keys, an entry found at an index is the entry [`lookup`]
/// yields, and [`key_index`] names that index.
pub proof fn lemma_lookup_at<V>(s: Seq<(u64, V)>, i: int)
    requires
        distinct_keys(s),
        0 <= i < s.len(),
    ensures
        lookup(s, s[i].0) == Option::Some(s[i].1),
        key_index(s, s[i].0) == i,
    decreases s.len(),
{
    if i == s.len() - 1 {
        assert(lookup(s, s[i].0) == Option::Some(s[i].1));
    } else {
        assert(s.last().0 != s[i].0);
        assert(s.drop_last()[i] == s[i]);
        lemma_lookup_at(s.drop_last(), i);
        assert(lookup(s, s[i].0) == lookup(s.drop_last(), s[i].0));
    }
    let j = key_index(s, s[i].0);
    assert(0 <= j < s.len() && s[j].0 == s[i].0);
    if j != i {
        assert(false);
    }
}

/// A key no entry carries has no [`lookup`] value.
pub proof fn lemma_lookup_none<V>(s: Seq<(u64, V)>, k: u64)
    requires
        forall|i: int| 0 <= i < s.len() ==> s[i].0 != k,
    ensures
        lookup(s, k) is None,
    decreases s.len(),
{
    if s.len() > 0 {
        assert(s.drop_last().len() == s.len() - 1);
        assert(forall|i: int| 0 <= i < s.drop_last().len() ==> s.drop_last()[i].0 != k);
        lemma_lookup_none(s.drop_last(), k);
    }
}

/// Model of the snapshot cache as rebuilt from a mirror's chains.
pub open spec fn snapshot_target(chains: Seq<crate::registry::ChainV>) -> Seq<
    (u64, Seq<Seq<FeedMessageV>>),
> {
    chains.map_values(|c: crate::registry::ChainV| (c.genesis_hash, chain_chunks(c.nodes)))
}

/// Model of the snapshot cache vector.
pub open spec fn cache_entries_view(s: Seq<(u64, Vec<Vec<FeedMessage>>)>) -> Seq<
    (u64, Seq<Seq<FeedMessageV>>),
> {
    s.map_values(|p: (u64, Vec<Vec<FeedMessage>>)| (p.0, chunks_view(p.1@)))
}

/// Mathematical model of [`State`].
#[verifier::ext_equal]
pub struct StateV {
    /// The mirror registry: the live registry as of the last diff drain.
    pub prev: RegistryV,
    /// The live registry.
    pub next: RegistryV,
    /// Per-chain accumulators, keyed by genesis hash.
    pub chains: Seq<(u64, ChainUpdatesV)>,
    /// The Identity Index: node id to (connection id, shard-local id).
    pub ids: Map<u64, (u64, u64)>,
    /// The snapshot cache: per-chain catch-up chunk lists.
    pub chain_nodes: Seq<(u64, Seq<Seq<FeedMessageV>>)>,
    /// Chains that went from populated to empty since the last global drain.
    pub removed_chains: Seq<u64>,
}

/// Wrapper which batches updates to state, double-buffering the registry.
pub struct State {
    /// The mirror registry (read only between diff drains).
    pub prev: Registry,
    /// The live registry (mutated by every event).
    pub next: Registry,
    /// Accumulated updates for each chain.
    pub chains: Vec<(u64, ChainUpdates)>,
    /// Node id to (connection id, shard-local id), both ways.
    pub node_ids: NodeIdMap,
    /// Snapshot cache: encoded catch-up chunks, per chain.
    pub chain_nodes: Vec<(u64, Vec<Vec<FeedMessage>>)>,
    /// Chains that became empty since the last global drain.
    pub removed_chains: Vec<u64>,
}

impl View for State {
    type V = StateV;

    open spec fn view(&self) -> StateV {
        StateV {
            prev: self.prev@,
            next: self.next@,
            chains: self.chains@.map_values(|p: (u64, ChainUpdates)| (p.0, p.1@)),
            ids: bimap_pairs(self.node_ids),
            chain_nodes: cache_entries_view(self.chain_nodes@),
            removed_chains: self.removed_chains@,
        }
    }
}

/// The message announcing a freshly added node to its chain's subscribers.
pub open spec fn added_node_message(r: RegistryV, genesis_hash: u64, name: Seq<
    char,
>) -> FeedMessageV {
    let idx = if contains_chain(r, genesis_hash) {
        r.chains[chain_idx(r, genesis_hash)].nodes.len()
    } else {
        0
    };
    FeedMessageV::AddedNode(idx as usize, added_record(r, name).info)
}

/// The accumulator entry for a chain right after a successful add.
pub open spec fn updates_after_add(prior: Option<ChainUpdatesV>, r: RegistryV, genesis_hash: u64,
    name: Seq<char>) -> ChainUpdatesV {
    let msgs = match prior {
        Option::Some(cu) => cu.msgs,
        Option::None => Seq::empty(),
    };
    let count = 1 + if contains_chain(r, genesis_hash) {
        live_count(r.chains[chain_idx(r, genesis_hash)].nodes)
    } else {
        0
    };
    ChainUpdatesV {
        msgs: msgs.push(added_node_message(r, genesis_hash, name)),
        node_count: count as usize,
        has_chain_label_changed: contains_chain(r, genesis_hash) && live_count(
            r.chains[chain_idx(r, genesis_hash)].nodes,
        ) > 0 && r.chains[chain_idx(r, genesis_hash)].label != name,
        chain_label: name,
    }
}

/// `s` with every occurrence of `x` taken out, order kept.
pub open spec fn seq_without(s: Seq<u64>, x: u64) -> Seq<u64>
    decreases s.len(),
{
    if s.len() == 0 {
        seq![]
    } else {
        let rest = seq_without(s.drop_last(), x);
        if s.last() == x {
            rest
        } else {
            rest.push(s.last())
        }
    }
}

/// Takes `x` out of a duplicate-free vector, if present.
fn remove_value(v: &mut Vec<u64>, x: u64)
    requires
        forall|a: int, b: int| 0 <= a < b < old(v)@.len() ==> old(v)@[a] != old(v)@[b],
    ensures
        final(v)@ == seq_without(old(v)@, x),
        forall|a: int, b: int| 0 <= a < b < final(v)@.len() ==> final(v)@[a] != final(v)@[b],
        !final(v)@.contains(x),
        forall|y: u64| y != x ==> (final(v)@.contains(y) <==> old(v)@.contains(y)),
{
    let ghost orig = v@;
    let mut k: usize = 0;
    while k < v.len()
        invariant
            k <= v@.len(),
            v@ == orig,
            orig == old(v)@,
            forall|a: int, b: int| 0 <= a < b < orig.len() ==> orig[a] != orig[b],
            forall|j: int| 0 <= j < k ==> v@[j] != x,
        decreases v@.len() - k,
    {
        if v[k] == x {
            v.remove(k);
            proof {
                lemma_seq_without_removed(orig, x, k as int);
                assert forall|y: u64| y != x implies (v@.contains(y) <==> orig.contains(y)) by {
                    if v@.contains(y) {
                        let j = choose|j: int| 0 <= j < v@.len() && v@[j] == y;
                        let sj = if j < k { j } else { j + 1 };
                        assert(orig[sj] == y);
                    }
                    if orig.contains(y) {
                        let j = choose|j: int| 0 <= j < orig.len() && orig[j] == y;
                        if j < k {
                            assert(v@[j] == y);
                        } else if j > k {
                            assert(v@[j - 1] == y);
                        }
                    }
                }
            }
            return;
        }
        proof {
            assert(v@[k as int] != x);
        }
        k += 1;
    }
    proof {
        if orig.contains(x) {
            let j = choose|j: int| 0 <= j < orig.len() && orig[j] == x;
            assert(orig[j] != x);
        }
        lemma_seq_without_absent(orig, x);
    }
}

impl State {
    /// Every piece of the facade is internally consistent: both registries
    /// are well-formed, accumulator and snapshot keys are unique, the
    /// removed-chains set holds no duplicates, and the Identity Index is a
    /// bijection (injectivity over a map: no external pair is reachable from
    /// two node ids, no node id holds two pairs).
    pub open spec fn wf(self) -> bool {
        &&& reg_wf(self@.prev)
        &&& reg_wf(self@.next)
        &&& distinct_keys(self@.chains)
        &&& distinct_keys(self@.chain_nodes)
        &&& injective(self@.ids)
        &&& forall|i: int, j: int|
            0 <= i < j < self@.removed_chains.len() ==> self@.removed_chains[i]
                != self@.removed_chains[j]
    }

    /// A fresh facade: an empty deny-listed live registry, an empty mirror,
    /// and nothing accumulated.
    pub fn new(denylist: Vec<String>, max_third_party_nodes: usize) -> (r: State)
        ensures
            r.wf(),
            r@.prev.denylist == Seq::<Seq<char>>::empty(),
            r@.next.denylist == denylist@.map_values(|s: String| s@),
            r@.prev.max_nodes_per_chain == max_third_party_nodes,
            r@.next.max_nodes_per_chain == max_third_party_nodes,
            r@.prev.chains == Seq::<crate::registry::ChainV>::empty(),
            r@.next.chains == Seq::<crate::registry::ChainV>::empty(),
            r@.chains == Seq::<(u64, ChainUpdatesV)>::empty(),
            r@.chain_nodes == Seq::<(u64, Seq<Seq<FeedMessageV>>)>::empty(),
            r@.removed_chains == Seq::<u64>::empty(),
            r@.ids.dom() == Set::<u64>::empty(),
    {
        let r = State {
            prev: Registry::new(Vec::new(), max_third_party_nodes),
            next: Registry::new(denylist, max_third_party_nodes),
            chains: Vec::new(),
            node_ids: bimap_new(),
            chain_nodes: Vec::new(),
            removed_chains: Vec::new(),
        };
        proof {
            assert(r@.chains =~= Seq::<(u64, ChainUpdatesV)>::empty());
            assert(r@.chain_nodes =~= Seq::<(u64, Seq<Seq<FeedMessageV>>)>::empty());
            assert(r@.ids.dom() =~= Set::<u64>::empty());
            assert(r@.prev.denylist =~= Seq::<Seq<char>>::empty());
        }
        r
    }

    /// The position of the accumulator entry for this genesis hash.
    fn find_updates_index(&self, genesis_hash: u64) -> (r: Option<usize>)
        requires
            distinct_keys(self@.chains),
        ensures
            match r {
                Option::Some(i) => i < self@.chains.len() && self@.chains[i as int].0
                    == genesis_hash && has_key(self@.chains, genesis_hash) && key_index(
                    self@.chains,
                    genesis_hash,
                ) == i as int && lookup(self@.chains, genesis_hash) == Option::Some(
                    self@.chains[i as int].1,
                ),
                Option::None => !has_key(self@.chains, genesis_hash),
            },
    {
        let mut i: usize = 0;
        while i < self.chains.len()
            invariant
                distinct_keys(self@.chains),
                i <= self.chains@.len(),
                self@.chains.len() == self.chains@.len(),
                forall|j: int| 0 <= j < i ==> self@.chains[j].0 != genesis_hash,
            decreases self.chains@.len() - i,
        {
            if self.chains[i].0 == genesis_hash {
                proof {
                    assert(self@.chains[i as int].0 == genesis_hash);
                    lemma_lookup_at(self@.chains, i as int);
                }
                return Some(i);
            }
            proof {
                assert(self@.chains[i as int].0 != genesis_hash);
            }
            i += 1;
        }
        proof {
            lemma_lookup_none(self@.chains, genesis_hash);
        }
        None
    }

    /// Adds a node reported by connection `shard_conn_id` under shard-local
    /// id `local_id` to the chain with this genesis hash.
    ///
    /// On a policy rejection nothing changes. On success the chain leaves
    /// the removed-chains set (it may just have come back from empty), the
    /// fresh node id is bound to the external pair, and the chain's
    /// accumulator records the newcomer and the registry's new count, label
    /// and label-changed flag.
    pub fn add_node(&mut self, genesis_hash: u64, shard_conn_id: u64, local_id: u64,
        node: NodeDetails) -> (r: Result<u64, MuteReason>)
        requires
            old(self).wf(),
            old(self)@.next.next_node_id < u64::MAX,
        ensures
            final(self).wf(),
            match r {
                Result::Err(MuteReason::ChainNotAllowed) => *final(self) == *old(self) && denied(
                    old(self)@.next,
                    node@.name,
                ),
                Result::Err(MuteReason::Overquota) => *final(self) == *old(self) && !denied(
                    old(self)@.next,
                    node@.name,
                ) && over_quota(old(self)@.next, genesis_hash),
                Result::Ok(id) => {
                    &&& !denied(old(self)@.next, node@.name)
                    &&& !over_quota(old(self)@.next, genesis_hash)
                    &&& id == old(self)@.next.next_node_id
                    &&& final(self)@.next == reg_after_add(old(self)@.next, genesis_hash, node@.name)
                    &&& final(self)@.prev == old(self)@.prev
                    &&& final(self)@.chain_nodes == old(self)@.chain_nodes
                    &&& final(self)@.removed_chains == seq_without(
                        old(self)@.removed_chains,
                        genesis_hash,
                    )
                    &&& !final(self)@.removed_chains.contains(genesis_hash)
                    &&& final(self)@.ids == without_right(
                        old(self)@.ids,
                        (shard_conn_id, local_id),
                    ).insert(id, (shard_conn_id, local_id))
                    &&& final(self)@.chains == upsert(
                        old(self)@.chains,
                        genesis_hash,
                        updates_after_add(
                            lookup(old(self)@.chains, genesis_hash),
                            old(self)@.next,
                            genesis_hash,
                            node@.name,
                        ),
                    )
                },
            },
    {
        let res = match self.next.add_node(genesis_hash, node) {
            AddNodeResult::NodeAddedToChain(res) => res,
            AddNodeResult::ChainOverQuota => {
                return Err(MuteReason::Overquota);
            },
            AddNodeResult::ChainOnDenyList => {
                return Err(MuteReason::ChainNotAllowed);
            },
        };
        let ghost oldst = old(self)@;
        // The chain may have just gone from empty back to populated: it must
        // not be announced as removed in the next global drain.
        proof {
            assert(old(self)@.removed_chains == self.removed_chains@);
        }
        remove_value(&mut self.removed_chains, genesis_hash);
        let ghost ids_before = bimap_pairs(self.node_ids);
        bimap_insert(&mut self.node_ids, res.id, (shard_conn_id, local_id));
        match self.find_updates_index(genesis_hash) {
            Option::Some(i) => {
                let ghost chains_before = self@.chains;
                let (g, mut cu) = self.chains.remove(i);
                cu.feed.push(FeedMessage::AddedNode(res.chain_node_index, res.node));
                cu.node_count = res.chain_node_count;
                cu.has_chain_label_changed = res.has_chain_label_changed;
                cu.chain_label = res.new_chain_label;
                self.chains.insert(i, (g, cu));
                proof {
                    assert(self@.chains =~= upsert(
                        chains_before,
                        genesis_hash,
                        updates_after_add(
                            lookup(chains_before, genesis_hash),
                            oldst.next,
                            genesis_hash,
                            res.node@.name,
                        ),
                    ));
                }
            },
            Option::None => {
                let ghost chains_before = self@.chains;
                let mut feed = FeedMessageSerializer::new();
                feed.push(FeedMessage::AddedNode(res.chain_node_index, res.node));
                let cu = ChainUpdates {
                    feed,
                    node_count: res.chain_node_count,
                    has_chain_label_changed: res.has_chain_label_changed,
                    chain_label: res.new_chain_label,
                };
                self.chains.push((genesis_hash, cu));
                proof {
                    assert(self@.chains =~= upsert(
                        chains_before,
                        genesis_hash,
                        updates_after_add(
                            lookup(chains_before, genesis_hash),
                            oldst.next,
                            genesis_hash,
                            res.node@.name,
                        ),
                    ));
                }
            },
        }
        proof {
            lemma_injective_insert(ids_before, res.id, (shard_conn_id, local_id));
            lemma_upsert_distinct(
                oldst.chains,
                genesis_hash,
                updates_after_add(
                    lookup(oldst.chains, genesis_hash),
                    oldst.next,
                    genesis_hash,
                    res.node@.name,
                ),
            );
        }
        Ok(res.id)
    }
}

/// A defaulted accumulator entry: what lazy creation starts from.
pub open spec fn prior_or_default(prior: Option<ChainUpdatesV>) -> ChainUpdatesV {
    match prior {
        Option::Some(cu) => cu,
        Option::None => ChainUpdatesV {
            msgs: Seq::empty(),
            node_count: 0,
            has_chain_label_changed: false,
            chain_label: Seq::empty(),
        },
    }
}

/// An accumulator entry with one more message.
pub open spec fn with_message(cu: ChainUpdatesV, m: FeedMessageV) -> ChainUpdatesV {
    ChainUpdatesV { msgs: cu.msgs.push(m), ..cu }
}

/// The node id bound to an external pair, if any; under injectivity it is
/// unique.
pub open spec fn right_lookup(m: Map<u64, (u64, u64)>, right: (u64, u64)) -> Option<u64> {
    if exists|l: u64| m.dom().contains(l) && m[l] == right {
        Option::Some(choose|l: u64| m.dom().contains(l) && m[l] == right)
    } else {
        Option::None
    }
}

/// One step of bulk removal: the node id is unbound, and if the live
/// registry still knows the node, it is removed there and the chain's
/// accumulator records one RemovedNode message and the new count and label.
/// A node the registry no longer knows is only unbound.
pub open spec fn remove_one(s: StateV, g: u64, id: u64) -> StateV {
    let s1 = StateV { ids: s.ids.remove(id), ..s };
    if contains_node(s.next, id) {
        let loc = node_loc(s.next, id);
        let cu = prior_or_default(lookup(s.chains, g));
        let cu2 = ChainUpdatesV {
            msgs: cu.msgs.push(FeedMessageV::RemovedNode(loc.1 as usize)),
            node_count: (live_count(s.next.chains[loc.0].nodes) - 1) as usize,
            has_chain_label_changed: cu.has_chain_label_changed,
            chain_label: s.next.chains[loc.0].label,
        };
        StateV {
            next: crate::registry::reg_with_record(s.next, loc.0, loc.1, Option::None),
            chains: upsert(s.chains, g, cu2),
            ..s1
        }
    } else {
        s1
    }
}

/// Bulk removal of one chain's nodes, one by one, in the order given.
pub open spec fn remove_ids_for_chain(s: StateV, g: u64, ids: Seq<u64>) -> StateV
    decreases ids.len(),
{
    if ids.len() == 0 {
        s
    } else {
        remove_one(remove_ids_for_chain(s, g, ids.drop_last()), g, ids.last())
    }
}

/// Bulk removal of one chain's group of node ids. With no accumulator entry
/// the group is skipped. When the group is exactly as large as the entry's
/// node count, the whole chain is dropped in one stroke: the entry
/// disappears and the chain is recorded as removed — no per-node messages,
/// no registry removal, no unbinding. Otherwise the nodes leave one by one.
pub open spec fn remove_chain_group(s: StateV, g: u64, ids: Seq<u64>) -> StateV {
    match lookup(s.chains, g) {
        Option::None => s,
        Option::Some(cu) => if cu.node_count == ids.len() {
            StateV {
                chains: remove_entry(s.chains, g),
                removed_chains: if s.removed_chains.contains(g) {
                    s.removed_chains
                } else {
                    s.removed_chains.push(g)
                },
                ..s
            }
        } else {
            remove_ids_for_chain(s, g, ids)
        },
    }
}

/// Bulk removal of several chains' groups, in the order given.
pub open spec fn remove_groups(s: StateV, groups: Seq<(u64, Seq<u64>)>) -> StateV
    decreases groups.len(),
{
    if groups.len() == 0 {
        s
    } else {
        remove_chain_group(
            remove_groups(s, groups.drop_last()),
            groups.last().0,
            groups.last().1,
        )
    }
}

/// Node ids grouped by the chain the live registry maps them to, chains in
/// first-appearance order, ids in input order; unknown ids fall away.
pub open spec fn group_by_chain(next: RegistryV, ids: Seq<u64>) -> Seq<(u64, Seq<u64>)>
    decreases ids.len(),
{
    if ids.len() == 0 {
        seq![]
    } else {
        let rest = group_by_chain(next, ids.drop_last());
        let id = ids.last();
        if contains_node(next, id) {
            let g = next.chains[node_loc(next, id).0].genesis_hash;
            let group = match lookup(rest, g) {
                Option::Some(v) => v.push(id),
                Option::None => seq![id],
            };
            upsert(rest, g, group)
        } else {
            rest
        }
    }
}

/// Model of an id-group vector.
pub open spec fn groups_view(s: Seq<(u64, Vec<u64>)>) -> Seq<(u64, Seq<u64>)> {
    s.map_values(|p: (u64, Vec<u64>)| (p.0, p.1@))
}

/// The position of the group for this genesis hash.
fn find_group_index(groups: &Vec<(u64, Vec<u64>)>, genesis_hash: u64) -> (r: Option<usize>)
    requires
        distinct_keys(groups_view(groups@)),
    ensures
        match r {
            Option::Some(i) => i < groups@.len() && groups@[i as int].0 == genesis_hash && has_key(
                groups_view(groups@),
                genesis_hash,
            ) && key_index(groups_view(groups@), genesis_hash) == i as int && lookup(
                groups_view(groups@),
                genesis_hash,
            ) == Option::Some(groups@[i as int].1@),
            Option::None => !has_key(groups_view(groups@), genesis_hash),
        },
{
    let ghost gv = groups_view(groups@);
    let mut i: usize = 0;
    while i < groups.len()
        invariant
            gv == groups_view(groups@),
            distinct_keys(gv),
            gv.len() == groups@.len(),
            i <= groups@.len(),
            forall|j: int| 0 <= j < i ==> gv[j].0 != genesis_hash,
        decreases groups@.len() - i,
    {
        if groups[i].0 == genesis_hash {
            proof {
                assert(gv[i as int] == (groups@[i as int].0, groups@[i as int].1@));
                lemma_lookup_at(gv, i as int);
            }
            return Some(i);
        }
        proof {
            assert(gv[i as int].0 != genesis_hash);
        }
        i += 1;
    }
    proof {
        lemma_lookup_none(gv, genesis_hash);
    }
    None
}

impl State {
    /// Bulk removal for one chain, as [`remove_chain_group`] describes: the
    /// whole-chain short cut when the group covers the full tracked count,
    /// per-node removal otherwise.
    fn remove_nodes_for_chain(&mut self, genesis_hash: u64, ids: &Vec<u64>)
        requires
            old(self).wf(),
        ensures
            final(self).wf(),
            final(self)@ == remove_chain_group(old(self)@, genesis_hash, ids@),
    {
        let ghost oldst = old(self)@;
        let i = match self.find_updates_index(genesis_hash) {
            Option::Some(i) => i,
            Option::None => {
                return;
            },
        };
        if self.chains[i].1.node_count == ids.len() {
            proof {
                assert(self@.chains[i as int].1.node_count == ids@.len());
                assert(lookup(self@.chains, genesis_hash)->Some_0.node_count == ids@.len());
            }
            self.chains.remove(i);
            proof {
                assert(self@.chains =~= remove_entry(oldst.chains, genesis_hash));
                assert forall|a: int, b: int|
                    0 <= a < b < self@.chains.len() implies self@.chains[a].0
                    != self@.chains[b].0 by {
                    let sa = if a < i as int { a } else { a + 1 };
                    let sb = if b < i as int { b } else { b + 1 };
                    assert(self@.chains[a] == oldst.chains[sa] && self@.chains[b]
                        == oldst.chains[sb]);
                }
            }
            let mut k: usize = 0;
            let mut found = false;
            while k < self.removed_chains.len()
                invariant
                    k <= self.removed_chains@.len(),
                    found <==> exists|j: int|
                        0 <= j < k && self.removed_chains@[j] == genesis_hash,
                decreases self.removed_chains@.len() - k,
            {
                if self.removed_chains[k] == genesis_hash {
                    found = true;
                }
                k += 1;
            }
            proof {
                if found {
                    let j = choose|j: int|
                        0 <= j < self.removed_chains@.len() && self.removed_chains@[j]
                            == genesis_hash;
                    assert(self.removed_chains@.contains(genesis_hash));
                } else {
                    if self.removed_chains@.contains(genesis_hash) {
                        let j = choose|j: int|
                            0 <= j < self.removed_chains@.len() && self.removed_chains@[j]
                                == genesis_hash;
                        assert(false);
                    }
                }
            }
            if !found {
                let ghost before = self.removed_chains@;
                self.removed_chains.push(genesis_hash);
                proof {
                    assert forall|a: int, b: int|
                        0 <= a < b < self.removed_chains@.len() implies self.removed_chains@[a]
                        != self.removed_chains@[b] by {
                        if b == self.removed_chains@.len() - 1 {
                            assert(!before.contains(genesis_hash));
                            assert(self.removed_chains@[a] == before[a]);
                            if before[a] == genesis_hash {
                                assert(before.contains(genesis_hash));
                            }
                        }
                    }
                }
            }
            proof {
                assert(self@ =~= remove_chain_group(oldst, genesis_hash, ids@));
            }
        } else {
            proof {
                assert(lookup(oldst.chains, genesis_hash)->Some_0.node_count != ids@.len());
                assert(remove_ids_for_chain(oldst, genesis_hash, ids@.take(0)) =~= oldst);
            }
            let mut k: usize = 0;
            while k < ids.len()
                invariant
                    k <= ids@.len(),
                    self.wf(),
                    has_key(self@.chains, genesis_hash),
                    self@ == remove_ids_for_chain(oldst, genesis_hash, ids@.take(k as int)),
                decreases ids@.len() - k,
            {
                let ghost stepst = self@;
                let id = ids[k];
                let ghost ids_before = bimap_pairs(self.node_ids);
                match bimap_remove_by_left(&mut self.node_ids, id) {
                    Option::Some(_) => {},
                    Option::None => {
                        proof {
                            assert(bimap_pairs(self.node_ids) =~= ids_before.remove(id));
                        }
                    },
                }
                proof {
                    assert(bimap_pairs(self.node_ids) == stepst.ids.remove(id));
                    assert forall|l1: u64, l2: u64|
                        bimap_pairs(self.node_ids).dom().contains(l1) && bimap_pairs(
                            self.node_ids,
                        ).dom().contains(l2) && l1 != l2 implies bimap_pairs(self.node_ids)[l1]
                        != bimap_pairs(self.node_ids)[l2] by {
                        assert(stepst.ids.dom().contains(l1) && stepst.ids.dom().contains(l2));
                    }
                }
                match self.next.remove_node(id) {
                    Option::Some(res) => {
                        let j = match self.find_updates_index(genesis_hash) {
                            Option::Some(j) => j,
                            Option::None => {
                                proof {
                                    assert(false);
                                }
                                unreached()
                            },
                        };
                        let ghost chains_before = self@.chains;
                        let (g, mut cu) = self.chains.remove(j);
                        cu.feed.push(FeedMessage::RemovedNode(res.chain_node_index));
                        cu.node_count = res.chain_node_count;
                        cu.chain_label = res.new_chain_label;
                        self.chains.insert(j, (g, cu));
                        proof {
                            let loc = node_loc(stepst.next, id);
                            let cuv = prior_or_default(lookup(stepst.chains, genesis_hash));
                            let cu2 = ChainUpdatesV {
                                msgs: cuv.msgs.push(FeedMessageV::RemovedNode(loc.1 as usize)),
                                node_count: (live_count(stepst.next.chains[loc.0].nodes)
                                    - 1) as usize,
                                has_chain_label_changed: cuv.has_chain_label_changed,
                                chain_label: stepst.next.chains[loc.0].label,
                            };
                            assert(self@.chains =~= upsert(chains_before, genesis_hash, cu2));
                            assert(self@ =~= remove_one(stepst, genesis_hash, id));
                            lemma_upsert_distinct(chains_before, genesis_hash, cu2);
                        }
                    },
                    Option::None => {
                        proof {
                            assert(self@ =~= remove_one(stepst, genesis_hash, id));
                        }
                    },
                }
                proof {
                    assert(ids@.take(k + 1).drop_last() =~= ids@.take(k as int));
                    assert(ids@.take(k + 1).last() == id);
                }
                k += 1;
            }
            proof {
                assert(ids@.take(ids@.len() as int) =~= ids@);
            }
        }
    }

    /// Removes the given nodes in bulk: the ids are grouped by the chain the
    /// live registry maps them to, and each group is handled as
    /// [`remove_chain_group`] describes — one "chain removed" outcome when a
    /// group covers a chain's whole tracked count, one RemovedNode message
    /// per node otherwise.
    pub fn remove_nodes(&mut self, node_ids: Vec<u64>)
        requires
            old(self).wf(),
        ensures
            final(self).wf(),
            final(self)@ == remove_groups(
                old(self)@,
                group_by_chain(old(self)@.next, node_ids@),
            ),
    {
        let ghost oldst = old(self)@;
        let mut groups: Vec<(u64, Vec<u64>)> = Vec::new();
        let mut i: usize = 0;
        proof {
            assert(groups_view(groups@) =~= group_by_chain(oldst.next, node_ids@.take(0)));
        }
        while i < node_ids.len()
            invariant
                i <= node_ids@.len(),
                *self == *old(self),
                old(self).wf(),
                groups_view(groups@) == group_by_chain(oldst.next, node_ids@.take(i as int)),
                distinct_keys(groups_view(groups@)),
                oldst == old(self)@,
            decreases node_ids@.len() - i,
        {
            let id = node_ids[i];
            let ghost gv_before = groups_view(groups@);
            match self.next.get_chain_by_node_id(id) {
                Option::Some((g, _slot)) => {
                    match find_group_index(&groups, g) {
                        Option::Some(j) => {
                            let (gk, mut v) = groups.remove(j);
                            v.push(id);
                            groups.insert(j, (gk, v));
                            proof {
                                let grp = lookup(gv_before, g)->Some_0.push(id);
                                assert(groups_view(groups@) =~= upsert(gv_before, g, grp));
                                lemma_upsert_distinct(gv_before, g, grp);
                            }
                        },
                        Option::None => {
                            let mut v: Vec<u64> = Vec::new();
                            v.push(id);
                            groups.push((g, v));
                            proof {
                                assert(v@ =~= seq![id]);
                                assert(groups_view(groups@) =~= upsert(gv_before, g, seq![id]));
                                lemma_upsert_distinct(gv_before, g, seq![id]);
                            }
                        },
                    }
                },
                Option::None => {},
            }
            proof {
                assert(node_ids@.take(i + 1).drop_last() =~= node_ids@.take(i as int));
                assert(node_ids@.take(i + 1).last() == id);
            }
            i += 1;
        }
        proof {
            assert(node_ids@.take(node_ids@.len() as int) =~= node_ids@);
        }
        let ghost gv = groups_view(groups@);
        let mut gi: usize = 0;
        proof {
            assert(remove_groups(oldst, gv.take(0)) =~= oldst);
        }
        while gi < groups.len()
            invariant
                gi <= groups@.len(),
                self.wf(),
                gv == groups_view(groups@),
                gv.len() == groups@.len(),
                self@ == remove_groups(oldst, gv.take(gi as int)),
            decreases groups@.len() - gi,
        {
            let (g, ids) = &groups[gi];
            self.remove_nodes_for_chain(*g, ids);
            proof {
                assert(gv.take(gi + 1).drop_last() =~= gv.take(gi as int));
                assert(gv.take(gi + 1).last() == (groups@[gi as int].0, groups@[gi as int].1@));
            }
            gi += 1;
        }
        proof {
            assert(gv.take(groups@.len() as int) =~= gv);
        }
    }

    /// Removes the node a shard reported under this external pair; unbinds
    /// it and delegates to bulk removal. An unknown pair is a no-op, and the
    /// caller may log it; the return value says whether the pair was bound.
    pub fn remove_node(&mut self, shard_conn_id: u64, local_id: u64) -> (r: bool)
        requires
            old(self).wf(),
        ensures
            final(self).wf(),
            r == (right_lookup(old(self)@.ids, (shard_conn_id, local_id)) is Some),
            !r ==> final(self)@ == old(self)@,
            r ==> {
                let id = right_lookup(old(self)@.ids, (shard_conn_id, local_id))->Some_0;
                final(self)@ == remove_groups(
                    StateV { ids: old(self)@.ids.remove(id), ..old(self)@ },
                    group_by_chain(old(self)@.next, seq![id]),
                )
            },
    {
        let ghost oldst = old(self)@;
        let node_id = match bimap_remove_by_right(&mut self.node_ids, (shard_conn_id, local_id)) {
            Option::Some((node_id, _)) => {
                proof {
                    let l0 = right_lookup(oldst.ids, (shard_conn_id, local_id))->Some_0;
                    assert(oldst.ids.dom().contains(node_id) && oldst.ids[node_id] == (
                        shard_conn_id,
                        local_id,
                    ));
                    assert(oldst.ids.dom().contains(l0) && oldst.ids[l0] == (
                        shard_conn_id,
                        local_id,
                    ));
                    assert(l0 == node_id);
                }
                node_id
            },
            Option::None => {
                proof {
                    if right_lookup(oldst.ids, (shard_conn_id, local_id)) is Some {
                        let l = choose|l: u64|
                            oldst.ids.dom().contains(l) && oldst.ids[l] == (
                                shard_conn_id,
                                local_id,
                            );
                        assert(false);
                    }
                    assert(self@ =~= oldst);
                }
                return false;
            },
        };
        proof {
            assert forall|l1: u64, l2: u64|
                bimap_pairs(self.node_ids).dom().contains(l1) && bimap_pairs(
                    self.node_ids,
                ).dom().contains(l2) && l1 != l2 implies bimap_pairs(self.node_ids)[l1]
                != bimap_pairs(self.node_ids)[l2] by {
                assert(oldst.ids.dom().contains(l1) && oldst.ids.dom().contains(l2));
            }
        }
        let mut one: Vec<u64> = Vec::new();
        one.push(node_id);
        proof {
            assert(one@ =~= seq![node_id]);
            assert(self@ =~= StateV { ids: oldst.ids.remove(node_id), ..oldst });
            assert(self.wf());
        }
        self.remove_nodes(one);
        true
    }

    /// Removes every node bound to this connection: how a shard losing its
    /// connection cleans up all the nodes it had reported.
    pub fn disconnect_node(&mut self, shard_conn_id: u64)
        requires
            old(self).wf(),
        ensures
            final(self).wf(),
            exists|ids: Seq<u64>|
                strictly_sorted(ids) && (forall|id: u64|
                    ids.contains(id) <==> (old(self)@.ids.dom().contains(id)
                        && old(self)@.ids[id].0 == shard_conn_id)) && final(self)@
                    == remove_groups(old(self)@, group_by_chain(old(self)@.next, ids)),
    {
        let ids = all_matching_connection(&self.node_ids, shard_conn_id);
        let ghost idsv = ids@;
        self.remove_nodes(ids);
        proof {
            assert(strictly_sorted(idsv) && (forall|id: u64|
                idsv.contains(id) <==> (old(self)@.ids.dom().contains(id) && old(
                    self,
                )@.ids[id].0 == shard_conn_id)) && self@ == remove_groups(
                old(self)@,
                group_by_chain(old(self)@.next, idsv),
            ));
        }
    }

    /// Routes a shard-reported update to the node bound to this external
    /// pair: the live registry applies it and appends whatever feed message
    /// it calls for into the chain's accumulator (created lazily). An
    /// unknown pair is a no-op, and the caller may log it; the return value
    /// says whether the pair was bound.
    pub fn update_node(&mut self, shard_conn_id: u64, local_id: u64, payload: Payload) -> (r: bool)
        requires
            old(self).wf(),
        ensures
            final(self).wf(),
            r == (right_lookup(old(self)@.ids, (shard_conn_id, local_id)) is Some),
            !r ==> *final(self) == *old(self),
            r ==> {
                let id = right_lookup(old(self)@.ids, (shard_conn_id, local_id))->Some_0;
                if contains_node(old(self)@.next, id) {
                    let g = old(self)@.next.chains[node_loc(old(self)@.next, id).0].genesis_hash;
                    &&& final(self)@.next == reg_after_update(old(self)@.next, id, payload)
                    &&& final(self)@.chains == upsert(
                        old(self)@.chains,
                        g,
                        with_message(
                            prior_or_default(lookup(old(self)@.chains, g)),
                            update_message(node_loc(old(self)@.next, id).1, payload),
                        ),
                    )
                    &&& final(self)@ == StateV {
                        next: final(self)@.next,
                        chains: final(self)@.chains,
                        ..old(self)@
                    }
                } else {
                    *final(self) == *old(self)
                }
            },
    {
        let ghost oldst = old(self)@;
        let node_id = match bimap_get_by_right(&self.node_ids, (shard_conn_id, local_id)) {
            Option::Some(node_id) => {
                proof {
                    let l0 = right_lookup(oldst.ids, (shard_conn_id, local_id))->Some_0;
                    assert(oldst.ids.dom().contains(l0) && oldst.ids[l0] == (
                        shard_conn_id,
                        local_id,
                    ));
                    assert(l0 == node_id);
                }
                node_id
            },
            Option::None => {
                proof {
                    if right_lookup(oldst.ids, (shard_conn_id, local_id)) is Some {
                        let l = choose|l: u64|
                            oldst.ids.dom().contains(l) && oldst.ids[l] == (
                                shard_conn_id,
                                local_id,
                            );
                        assert(false);
                    }
                }
                return false;
            },
        };
        match self.next.get_chain_by_node_id(node_id) {
            Option::Some((g, _slot)) => {
                let i = match self.find_updates_index(g) {
                    Option::Some(i) => i,
                    Option::None => {
                        let cu = ChainUpdates {
                            feed: FeedMessageSerializer::new(),
                            node_count: 0,
                            has_chain_label_changed: false,
                            chain_label: String::new(),
                        };
                        let ghost chains_before = self@.chains;
                        self.chains.push((g, cu));
                        let i = self.chains.len() - 1;
                        proof {
                            assert(self@.chains =~= chains_before.push(
                                (g, prior_or_default(Option::None)),
                            ));
                            assert forall|a: int, b: int|
                                0 <= a < b < self@.chains.len() implies self@.chains[a].0
                                != self@.chains[b].0 by {
                                if b == self@.chains.len() - 1 {
                                    if self@.chains[a].0 == g {
                                        lemma_lookup_at(chains_before, a);
                                    }
                                }
                            }
                        }
                        i
                    },
                };
                let ghost mid = self@;
                let (gk, mut cu) = self.chains.remove(i);
                self.next.update_node(node_id, payload, &mut cu.feed);
                self.chains.insert(i, (gk, cu));
                proof {
                    let loc = node_loc(oldst.next, node_id);
                    let msg = update_message(loc.1, payload);
                    lemma_lookup_at(mid.chains, i as int);
                    assert(self@.chains =~= upsert(
                        mid.chains,
                        g,
                        with_message(prior_or_default(lookup(mid.chains, g)), msg),
                    ));
                    if lookup(oldst.chains, g) is Some {
                        assert(mid.chains == oldst.chains);
                        lemma_upsert_distinct(
                            oldst.chains,
                            g,
                            with_message(prior_or_default(lookup(oldst.chains, g)), msg),
                        );
                        assert(self@.chains =~= upsert(
                            oldst.chains,
                            g,
                            with_message(prior_or_default(lookup(oldst.chains, g)), msg),
                        ));
                    } else {
                        lemma_lookup_at(mid.chains, mid.chains.len() - 1);
                        assert(lookup(mid.chains, g) == Option::Some(
                            prior_or_default(Option::None),
                        ));
                        assert(upsert(mid.chains, g, with_message(
                            prior_or_default(Option::None),
                            msg,
                        )) =~= oldst.chains.push(
                            (g, with_message(prior_or_default(Option::None), msg)),
                        ));
                        assert(self@.chains =~= upsert(
                            oldst.chains,
                            g,
                            with_message(prior_or_default(lookup(oldst.chains, g)), msg),
                        ));
                        lemma_upsert_distinct(
                            oldst.chains,
                            g,
                            with_message(prior_or_default(lookup(oldst.chains, g)), msg),
                        );
                    }
                    assert(self@ =~= StateV {
                        next: self@.next,
                        chains: self@.chains,
                        ..oldst
                    });
                }
            },
            Option::None => {},
        }
        true
    }

    /// Stores a node's resolved location in the live registry and, when a
    /// location is present and the node still maps to a chain, announces it
    /// to the chain's subscribers (absent locations are not broadcastable).
    pub fn update_node_location(&mut self, node_id: u64, location: Option<NodeLocation>)
        requires
            old(self).wf(),
        ensures
            final(self).wf(),
            !contains_node(old(self)@.next, node_id) ==> *final(self) == *old(self),
            contains_node(old(self)@.next, node_id) ==> {
                let loc = node_loc(old(self)@.next, node_id);
                let prev = old(self)@.next.chains[loc.0].nodes[loc.1]->Some_0;
                let g = old(self)@.next.chains[loc.0].genesis_hash;
                &&& final(self)@.next == crate::registry::reg_with_record(
                    old(self)@.next,
                    loc.0,
                    loc.1,
                    Option::Some(
                        crate::registry::NodeRecordV {
                            location: crate::registry::opt_loc_view(location),
                            ..prev
                        },
                    ),
                )
                &&& final(self)@.chains == match location {
                    Option::Some(l) => upsert(
                        old(self)@.chains,
                        g,
                        with_message(
                            prior_or_default(lookup(old(self)@.chains, g)),
                            FeedMessageV::LocatedNode(
                                loc.1 as usize,
                                l.latitude_micro,
                                l.longitude_micro,
                                l.city@,
                            ),
                        ),
                    ),
                    Option::None => old(self)@.chains,
                }
                &&& final(self)@ == StateV {
                    next: final(self)@.next,
                    chains: final(self)@.chains,
                    ..old(self)@
                }
            },
    {
        let ghost oldst = old(self)@;
        let loc_copy = match &location {
            Option::Some(l) => Option::Some(l.duplicate()),
            Option::None => Option::None,
        };
        self.next.update_node_location(node_id, loc_copy);
        match location {
            Option::Some(l) => {
                match self.next.get_chain_by_node_id(node_id) {
                    Option::Some((g, slot)) => {
                        proof {
                            if !contains_node(oldst.next, node_id) {
                                assert(false);
                            }
                            crate::registry::lemma_node_loc(oldst.next, node_id);
                            let loc = node_loc(oldst.next, node_id);
                            assert(crate::registry::node_loc_at(
                                self@.next,
                                node_id,
                                loc.0,
                                loc.1,
                            ));
                            crate::registry::lemma_node_loc(self@.next, node_id);
                            assert(node_loc(self@.next, node_id) == loc);
                            assert(g == oldst.next.chains[loc.0].genesis_hash);
                            assert(slot as int == loc.1);
                        }
                        let i = match self.find_updates_index(g) {
                            Option::Some(i) => i,
                            Option::None => {
                                let cu = ChainUpdates {
                                    feed: FeedMessageSerializer::new(),
                                    node_count: 0,
                                    has_chain_label_changed: false,
                                    chain_label: String::new(),
                                };
                                let ghost chains_before = self@.chains;
                                self.chains.push((g, cu));
                                let i = self.chains.len() - 1;
                                proof {
                                    assert(self@.chains =~= chains_before.push(
                                        (g, prior_or_default(Option::None)),
                                    ));
                                    assert forall|a: int, b: int|
                                        0 <= a < b < self@.chains.len() implies self@.chains[a].0
                                        != self@.chains[b].0 by {
                                        if b == self@.chains.len() - 1 {
                                            if self@.chains[a].0 == g {
                                                lemma_lookup_at(chains_before, a);
                                            }
                                        }
                                    }
                                }
                                i
                            },
                        };
                        let ghost mid = self@;
                        let (gk, mut cu) = self.chains.remove(i);
                        cu.feed.push(
                            FeedMessage::LocatedNode(
                                slot,
                                l.latitude_micro,
                                l.longitude_micro,
                                l.city,
                            ),
                        );
                        self.chains.insert(i, (gk, cu));
                        proof {
                            let loc = node_loc(oldst.next, node_id);
                            let msg = FeedMessageV::LocatedNode(
                                loc.1 as usize,
                                l.latitude_micro,
                                l.longitude_micro,
                                l.city@,
                            );
                            lemma_lookup_at(mid.chains, i as int);
                            assert(self@.chains =~= upsert(
                                mid.chains,
                                g,
                                with_message(prior_or_default(lookup(mid.chains, g)), msg),
                            ));
                            if lookup(oldst.chains, g) is Some {
                                assert(mid.chains == oldst.chains);
                                lemma_upsert_distinct(
                                    oldst.chains,
                                    g,
                                    with_message(prior_or_default(lookup(oldst.chains, g)), msg),
                                );
                            } else {
                                lemma_lookup_at(mid.chains, mid.chains.len() - 1);
                                assert(upsert(mid.chains, g, with_message(
                                    prior_or_default(Option::None),
                                    msg,
                                )) =~= oldst.chains.push(
                                    (g, with_message(prior_or_default(Option::None), msg)),
                                ));
                                lemma_upsert_distinct(
                                    oldst.chains,
                                    g,
                                    with_message(prior_or_default(lookup(oldst.chains, g)), msg),
                                );
                            }
                            assert(self@.chains =~= upsert(
                                oldst.chains,
                                g,
                                with_message(prior_or_default(lookup(oldst.chains, g)), msg),
                            ));
                            assert(self@ =~= StateV {
                                next: self@.next,
                                chains: self@.chains,
                                ..oldst
                            });
                        }
                    },
                    Option::None => {
                        proof {
                            // the registry never knew the node: nothing changed
                            if contains_node(oldst.next, node_id) {
                                crate::registry::lemma_node_loc(oldst.next, node_id);
                                let loc = node_loc(oldst.next, node_id);
                                assert(crate::registry::node_loc_at(
                                    self@.next,
                                    node_id,
                                    loc.0,
                                    loc.1,
                                ));
                                assert(false);
                            }
                        }
                    },
                }
            },
            Option::None => {
                proof {
                    if contains_node(oldst.next, node_id) {
                        crate::registry::lemma_node_loc(oldst.next, node_id);
                        assert(self@ =~= StateV {
                            next: self@.next,
                            chains: self@.chains,
                            ..oldst
                        });
                    }
                }
            },
        }
    }
}


/// The global-feed block one accumulator entry contributes: a RemovedChain
/// notice first when the label changed (so subscribers drop stale display
/// state), then always an AddedChain upsert with label, genesis hash and
/// count.
pub open spec fn chain_block(e: (u64, ChainUpdatesV)) -> Seq<FeedMessageV> {
    let added = FeedMessageV::AddedChain(e.1.chain_label, e.0, e.1.node_count);
    if e.1.has_chain_label_changed {
        seq![FeedMessageV::RemovedChain(e.0), added]
    } else {
        seq![added]
    }
}

/// The global-feed messages of all accumulator entries, in entry order.
pub open spec fn chains_feed(s: Seq<(u64, ChainUpdatesV)>) -> Seq<FeedMessageV>
    decreases s.len(),
{
    if s.len() == 0 {
        seq![]
    } else {
        chains_feed(s.drop_last()) + chain_block(s.last())
    }
}

/// One RemovedChain notice per chain of the removed-chains set, in order.
pub open spec fn removed_feed(s: Seq<u64>) -> Seq<FeedMessageV>
    decreases s.len(),
{
    if s.len() == 0 {
        seq![]
    } else {
        removed_feed(s.drop_last()).push(FeedMessageV::RemovedChain(s.last()))
    }
}

/// Everything one global drain emits: per-entry blocks first, then the
/// removed-chains notices.
pub open spec fn global_feed(chains: Seq<(u64, ChainUpdatesV)>, removed: Seq<u64>) -> Seq<
    FeedMessageV,
> {
    chains_feed(chains) + removed_feed(removed)
}

/// The accumulator entries after a diff drain: entries with a nonzero count
/// keep everything but their pending messages; zero-count entries are left
/// alone.
pub open spec fn drained_chains(s: Seq<(u64, ChainUpdatesV)>) -> Seq<(u64, ChainUpdatesV)> {
    s.map_values(
        |e: (u64, ChainUpdatesV)|
            if e.1.node_count != 0 {
                (e.0, ChainUpdatesV { msgs: Seq::empty(), ..e.1 })
            } else {
                e
            },
    )
}

/// What a diff drain yields: the pending messages of every entry with a
/// nonzero count, keyed by genesis hash, in entry order.
pub open spec fn drained_entries(s: Seq<(u64, ChainUpdatesV)>) -> Seq<(u64, Seq<FeedMessageV>)>
    decreases s.len(),
{
    if s.len() == 0 {
        seq![]
    } else {
        let rest = drained_entries(s.drop_last());
        if s.last().1.node_count != 0 {
            rest.push((s.last().0, s.last().1.msgs))
        } else {
            rest
        }
    }
}

/// Every entry a diff drain yields names a chain whose tracked node count is
/// nonzero: a chain that just became empty is announced through the
/// removed-chains path instead, never as a diff.
pub proof fn lemma_drained_nonzero(s: Seq<(u64, ChainUpdatesV)>)
    requires
        distinct_keys(s),
    ensures
        forall|i: int|
            0 <= i < drained_entries(s).len() ==> lookup(s, #[trigger] drained_entries(s)[i].0)
                is Some && lookup(s, drained_entries(s)[i].0)->Some_0.node_count != 0 && lookup(
                s,
                drained_entries(s)[i].0,
            )->Some_0.msgs == drained_entries(s)[i].1,
    decreases s.len(),
{
    if s.len() > 0 {
        lemma_drained_nonzero(s.drop_last());
        assert forall|i: int|
            0 <= i < drained_entries(s).len() implies lookup(
            s,
            #[trigger] drained_entries(s)[i].0,
        ) is Some && lookup(s, drained_entries(s)[i].0)->Some_0.node_count != 0 && lookup(
            s,
            drained_entries(s)[i].0,
        )->Some_0.msgs == drained_entries(s)[i].1 by {
            let d = drained_entries(s);
            let rest = drained_entries(s.drop_last());
            if i < rest.len() {
                assert(d[i] == rest[i]);
                assert(lookup(s.drop_last(), rest[i].0) is Some);
                if s.last().0 == rest[i].0 {
                    lemma_has_key_index(s.drop_last(), rest[i].0);
                    let j = key_index(s.drop_last(), rest[i].0);
                    assert(s[j].0 == s[s.len() - 1].0);
                    assert(false);
                }
                assert(lookup(s, rest[i].0) == lookup(s.drop_last(), rest[i].0));
            } else {
                assert(s.last().1.node_count != 0 && d[i] == (s.last().0, s.last().1.msgs));
            }
        }
    }
}

/// Model of a drained batch vector.
pub open spec fn batches_view(s: Seq<(u64, FeedMessageSerializer)>) -> Seq<
    (u64, Seq<FeedMessageV>),
> {
    s.map_values(|p: (u64, FeedMessageSerializer)| (p.0, p.1@))
}

impl State {
    /// Produces the global/overview feed diff and resets its bookkeeping:
    /// for every accumulator entry, a RemovedChain first if the label
    /// changed (clearing the flag), then always an AddedChain upsert; after
    /// the entries, one RemovedChain per chain of the removed-chains set,
    /// which this call drains.
    pub fn drain_updates_for_all_feeds(&mut self) -> (r: FeedMessageSerializer)
        requires
            old(self).wf(),
        ensures
            final(self).wf(),
            r@ == global_feed(old(self)@.chains, old(self)@.removed_chains),
            final(self)@.chains.len() == old(self)@.chains.len(),
            forall|i: int|
                0 <= i < old(self)@.chains.len() ==> final(self)@.chains[i] == (
                    old(self)@.chains[i].0,
                    ChainUpdatesV { has_chain_label_changed: false, ..old(self)@.chains[i].1 },
                ),
            final(self)@.removed_chains == Seq::<u64>::empty(),
            final(self)@ == (StateV {
                chains: final(self)@.chains,
                removed_chains: final(self)@.removed_chains,
                ..old(self)@
            }),
    {
        let ghost oldst = old(self)@;
        let mut feed = FeedMessageSerializer::new();
        let mut i: usize = 0;
        proof {
            assert(feed@ =~= chains_feed(oldst.chains.take(0)));
        }
        while i < self.chains.len()
            invariant
                i <= self.chains@.len(),
                self@.chains.len() == oldst.chains.len(),
                self.chains@.len() == oldst.chains.len(),
                forall|j: int|
                    i <= j < oldst.chains.len() ==> self@.chains[j] == oldst.chains[j],
                forall|j: int|
                    0 <= j < i ==> self@.chains[j] == (
                        oldst.chains[j].0,
                        ChainUpdatesV { has_chain_label_changed: false, ..oldst.chains[j].1 },
                    ),
                self@ == (StateV { chains: self@.chains, ..oldst }),
                feed@ == chains_feed(oldst.chains.take(i as int)),
            decreases self.chains@.len() - i,
        {
            let ghost chains_before = self@.chains;
            let (g, mut cu) = self.chains.remove(i);
            proof {
                assert((g, cu@) == oldst.chains[i as int]);
            }
            if cu.has_chain_label_changed {
                feed.push(FeedMessage::RemovedChain(g));
                cu.has_chain_label_changed = false;
            }
            feed.push(FeedMessage::AddedChain(cu.chain_label.clone(), g, cu.node_count));
            self.chains.insert(i, (g, cu));
            proof {
                assert(oldst.chains.take(i + 1).drop_last() =~= oldst.chains.take(i as int));
                assert(oldst.chains.take(i + 1).last() == oldst.chains[i as int]);
                assert(feed@ =~= chains_feed(oldst.chains.take(i + 1)));
                assert forall|j: int|
                    0 <= j < i + 1 implies self@.chains[j] == (
                    oldst.chains[j].0,
                    ChainUpdatesV { has_chain_label_changed: false, ..oldst.chains[j].1 },
                ) by {
                    if j < i {
                        assert(self@.chains[j] == chains_before[j]);
                    } else {
                        assert(self@.chains[j] =~= (
                            oldst.chains[j].0,
                            ChainUpdatesV {
                                has_chain_label_changed: false,
                                ..oldst.chains[j].1
                            },
                        ));
                    }
                }
            }
            i += 1;
        }
        proof {
            assert(oldst.chains.take(oldst.chains.len() as int) =~= oldst.chains);
        }
        let mut k: usize = 0;
        while k < self.removed_chains.len()
            invariant
                k <= self.removed_chains@.len(),
                self@.removed_chains == oldst.removed_chains,
                self@.chains.len() == oldst.chains.len(),
                forall|j: int|
                    0 <= j < oldst.chains.len() ==> self@.chains[j] == (
                        oldst.chains[j].0,
                        ChainUpdatesV { has_chain_label_changed: false, ..oldst.chains[j].1 },
                    ),
                self@ == (StateV { chains: self@.chains, ..oldst }),
                feed@ == chains_feed(oldst.chains) + removed_feed(
                    oldst.removed_chains.take(k as int),
                ),
            decreases self.removed_chains@.len() - k,
        {
            feed.push(FeedMessage::RemovedChain(self.removed_chains[k]));
            proof {
                assert(oldst.removed_chains.take(k + 1).drop_last() =~= oldst.removed_chains.take(
                    k as int,
                ));
                assert(feed@ =~= chains_feed(oldst.chains) + removed_feed(
                    oldst.removed_chains.take(k + 1),
                ));
            }
            k += 1;
        }
        proof {
            assert(oldst.removed_chains.take(oldst.removed_chains.len() as int)
                =~= oldst.removed_chains);
        }
        self.removed_chains = Vec::new();
        proof {
            assert(self@.removed_chains =~= Seq::<u64>::empty());
            assert(distinct_keys(self@.chains)) by {
                assert forall|a: int, b: int|
                    0 <= a < b < self@.chains.len() implies self@.chains[a].0
                    != self@.chains[b].0 by {
                    assert(self@.chains[a].0 == oldst.chains[a].0);
                    assert(self@.chains[b].0 == oldst.chains[b].0);
                }
            }
        }
        feed
    }

    /// Drains the per-chain diffs: synchronizes the mirror registry from the
    /// live one (a point-in-time copy, replacing the previous mirror
    /// wholesale), then hands out the pending messages of every chain with a
    /// nonzero tracked count, leaving those buffers empty. Chains with a
    /// zero count are skipped: they are announced through the
    /// removed-chains path, never drained as a diff.
    pub fn drain_chain_updates(&mut self) -> (r: Vec<(u64, FeedMessageSerializer)>)
        requires
            old(self).wf(),
        ensures
            final(self).wf(),
            final(self)@.prev == old(self)@.next,
            final(self)@.chains == drained_chains(old(self)@.chains),
            final(self)@ == (StateV {
                prev: old(self)@.next,
                chains: final(self)@.chains,
                ..old(self)@
            }),
            batches_view(r@) == drained_entries(old(self)@.chains),
            forall|i: int|
                0 <= i < r@.len() ==> lookup(old(self)@.chains, #[trigger] r@[i].0) is Some
                    && lookup(old(self)@.chains, r@[i].0)->Some_0.node_count != 0,
    {
        let ghost oldst = old(self)@;
        self.prev = self.next.duplicate();
        let mut out: Vec<(u64, FeedMessageSerializer)> = Vec::new();
        let mut i: usize = 0;
        proof {
            assert(batches_view(out@) =~= drained_entries(oldst.chains.take(0)));
        }
        while i < self.chains.len()
            invariant
                i <= self.chains@.len(),
                self@.chains.len() == oldst.chains.len(),
                self.chains@.len() == oldst.chains.len(),
                forall|j: int|
                    i <= j < oldst.chains.len() ==> self@.chains[j] == oldst.chains[j],
                forall|j: int|
                    0 <= j < i ==> self@.chains[j] == (
                    if oldst.chains[j].1.node_count != 0 {
                        (oldst.chains[j].0, ChainUpdatesV { msgs: Seq::empty(), ..oldst.chains[j].1 })
                    } else {
                        oldst.chains[j]
                    }),
                self@ == (StateV { prev: oldst.next, chains: self@.chains, ..oldst }),
                batches_view(out@) == drained_entries(oldst.chains.take(i as int)),
            decreases self.chains@.len() - i,
        {
            let ghost chains_before = self@.chains;
            proof {
                assert(oldst.chains.take(i + 1).drop_last() =~= oldst.chains.take(i as int));
                assert(oldst.chains.take(i + 1).last() == oldst.chains[i as int]);
            }
            if self.chains[i].1.node_count != 0 {
                let (g, mut cu) = self.chains.remove(i);
                proof {
                    assert((g, cu@) == oldst.chains[i as int]);
                }
                let taken = cu.feed;
                cu.feed = FeedMessageSerializer::new();
                self.chains.insert(i, (g, cu));
                out.push((g, taken));
                proof {
                    assert(batches_view(out@) =~= drained_entries(oldst.chains.take(i + 1)));
                    assert(self@.chains[i as int] =~= (
                        oldst.chains[i as int].0,
                        ChainUpdatesV { msgs: Seq::empty(), ..oldst.chains[i as int].1 },
                    ));
                    assert(self@.chains =~= chains_before.update(
                        i as int,
                        self@.chains[i as int],
                    ));
                }
            } else {
                proof {
                    assert(self@.chains[i as int] == oldst.chains[i as int]);
                    assert(batches_view(out@) =~= drained_entries(oldst.chains.take(i + 1)));
                }
            }
            i += 1;
        }
        proof {
            assert(oldst.chains.take(oldst.chains.len() as int) =~= oldst.chains);
            assert(self@.chains =~= drained_chains(oldst.chains));
            assert(distinct_keys(self@.chains)) by {
                assert forall|a: int, b: int|
                    0 <= a < b < self@.chains.len() implies self@.chains[a].0
                    != self@.chains[b].0 by {
                    assert(self@.chains[a].0 == oldst.chains[a].0);
                    assert(self@.chains[b].0 == oldst.chains[b].0);
                }
            }
            lemma_drained_nonzero(oldst.chains);
            assert forall|i: int|
                0 <= i < out@.len() implies lookup(oldst.chains, #[trigger] out@[i].0) is Some
                && lookup(oldst.chains, out@[i].0)->Some_0.node_count != 0 by {
                assert(batches_view(out@)[i] == drained_entries(oldst.chains)[i]);
                assert(out@[i].0 == drained_entries(oldst.chains)[i].0);
            }
        }
        out
    }

    /// Rebuilds the whole snapshot cache from the mirror registry: for every
    /// chain of the mirror, its slots are enumerated, cut into fixed-size
    /// chunks, encoded in parallel, and stored in slot order; the previous
    /// cache is replaced wholesale.
    pub fn update_added_nodes_messages(&mut self)
        requires
            old(self).wf(),
        ensures
            final(self).wf(),
            final(self)@.chain_nodes == snapshot_target(old(self)@.prev.chains),
            final(self)@ == (StateV { chain_nodes: final(self)@.chain_nodes, ..old(self)@ }),
    {
        let ghost oldst = old(self)@;
        let ghost target = snapshot_target(oldst.prev.chains);
        let mut out: Vec<(u64, Vec<Vec<FeedMessage>>)> = Vec::new();
        let mut i: usize = 0;
        proof {
            assert(cache_entries_view(out@) =~= target.take(0));
        }
        while i < self.prev.chains.len()
            invariant
                i <= self.prev.chains@.len(),
                *self == *old(self),
                oldst == old(self)@,
                target == snapshot_target(oldst.prev.chains),
                oldst.prev.chains.len() == self.prev.chains@.len(),
                cache_entries_view(out@) == target.take(i as int),
            decreases self.prev.chains@.len() - i,
        {
            let src = &self.prev.chains[i];
            let ghost out_before = out@;
            let chunks = build_chain_chunks(&src.nodes);
            proof {
                assert(chunks_view(chunks@) == chain_chunks(
                    crate::registry::nodes_view(src.nodes@),
                ));
                assert(src@ == oldst.prev.chains[i as int]);
                assert(crate::registry::nodes_view(src.nodes@) == oldst.prev.chains[
                    i as int
                ].nodes);
            }
            proof {
                assert(cache_entries_view(out_before).len() == i as int);
                assert(out_before.len() == i as int);
            }
            out.push((src.genesis_hash, chunks));
            proof {
                assert(out@.len() == i + 1);
                assert(target[i as int] == (
                    oldst.prev.chains[i as int].genesis_hash,
                    chain_chunks(oldst.prev.chains[i as int].nodes),
                ));
                assert(cache_entries_view(out@)[i as int] == target[i as int]);
                assert forall|k: int| 0 <= k < i implies cache_entries_view(out@)[k]
                    == target[k] by {
                    assert(out@[k] == out_before[k]);
                    assert(cache_entries_view(out_before)[k] == target.take(i as int)[k]);
                }
                assert(cache_entries_view(out@) =~= target.take(i + 1));
            }
            i += 1;
        }
        proof {
            assert(target.take(oldst.prev.chains.len() as int) =~= target);
        }
        self.chain_nodes = out;
        proof {
            assert(self@.chain_nodes == target);
            assert(distinct_keys(self@.chain_nodes)) by {
                assert forall|a: int, b: int|
                    0 <= a < b < self@.chain_nodes.len() implies self@.chain_nodes[a].0
                    != self@.chain_nodes[b].0 by {
                    assert(self@.chain_nodes[a].0 == oldst.prev.chains[a].genesis_hash);
                    assert(self@.chain_nodes[b].0 == oldst.prev.chains[b].genesis_hash);
                }
            }
            assert(self@ =~= StateV { chain_nodes: self@.chain_nodes, ..oldst });
        }
    }

    /// The cached catch-up chunks for one chain, for a scheduler that just
    /// subscribed a client and must send it full membership before switching
    /// it to diffs.
    pub fn added_nodes_messages(&self, genesis_hash: u64) -> (r: Option<&Vec<Vec<FeedMessage>>>)
        requires
            self.wf(),
        ensures
            match r {
                Option::Some(chunks) => lookup(self@.chain_nodes, genesis_hash) == Option::Some(
                    chunks_view(chunks@),
                ),
                Option::None => !has_key(self@.chain_nodes, genesis_hash),
            },
    {
        let ghost cv = self@.chain_nodes;
        let mut i: usize = 0;
        while i < self.chain_nodes.len()
            invariant
                cv == self@.chain_nodes,
                distinct_keys(cv),
                cv.len() == self.chain_nodes@.len(),
                i <= self.chain_nodes@.len(),
                forall|j: int| 0 <= j < i ==> cv[j].0 != genesis_hash,
            decreases self.chain_nodes@.len() - i,
        {
            if self.chain_nodes[i].0 == genesis_hash {
                proof {
                    assert(cv[i as int] == (
                        self.chain_nodes@[i as int].0,
                        chunks_view(self.chain_nodes@[i as int].1@),
                    ));
                    lemma_lookup_at(cv, i as int);
                }
                return Some(&self.chain_nodes[i].1);
            }
            proof {
                assert(cv[i as int].0 != genesis_hash);
            }
            i += 1;
        }
        proof {
            lemma_lookup_none(cv, genesis_hash);
        }
        None
    }

    /// The mirror's chain with this genesis hash, if it is known there.
    pub fn get_chain_by_genesis_hash(&self, genesis_hash: u64) -> (r: Option<&Chain>)
        requires
            self.wf(),
        ensures
            match r {
                Option::Some(c) => contains_chain(self@.prev, genesis_hash) && c@
                    == self@.prev.chains[chain_idx(self@.prev, genesis_hash)],
                Option::None => !contains_chain(self@.prev, genesis_hash),
            },
    {
        self.prev.get_chain_by_genesis_hash(genesis_hash)
    }

    /// All chains of the mirror, for read-only enumeration.
    pub fn iter_chains(&self) -> (r: &Vec<Chain>)
        ensures
            r@.map_values(|c: Chain| c@) == self@.prev.chains,
    {
        &self.prev.chains
    }
}


/// One RemovedNode message per removed node, carrying the slot index the
/// node had in `next`, in removal order.
pub open spec fn removed_node_messages(next: RegistryV, ids: Seq<u64>) -> Seq<FeedMessageV>
    decreases ids.len(),
{
    if ids.len() == 0 {
        seq![]
    } else {
        removed_node_messages(next, ids.drop_last()).push(
            FeedMessageV::RemovedNode(node_loc(next, ids.last()).1 as usize),
        )
    }
}

/// `next1` is `next0` with exactly the slots of the nodes named in `ids`
/// emptied: same chains, same labels, same slot counts, every other slot
/// untouched.
pub open spec fn slots_cleared(next0: RegistryV, next1: RegistryV, ids: Seq<u64>) -> bool {
    &&& next1.chains.len() == next0.chains.len()
    &&& next1.denylist == next0.denylist
    &&& next1.max_nodes_per_chain == next0.max_nodes_per_chain
    &&& next1.next_node_id == next0.next_node_id
    &&& forall|c: int|
        0 <= c < next0.chains.len() ==> (#[trigger] next1.chains[c]).genesis_hash
            == next0.chains[c].genesis_hash && next1.chains[c].label == next0.chains[c].label
            && next1.chains[c].nodes.len() == next0.chains[c].nodes.len()
    &&& forall|c: int, sl: int|
        0 <= c < next0.chains.len() && 0 <= sl < next0.chains[c].nodes.len() ==> (
        #[trigger] next1.chains[c].nodes[sl]) == (
        if next0.chains[c].nodes[sl] is Some && ids.contains(
            next0.chains[c].nodes[sl]->Some_0.node_id,
        ) {
            Option::None
        } else {
            next0.chains[c].nodes[sl]
        })
}

/// Removing distinct, present nodes of one chain one by one appends exactly
/// one RemovedNode message per node to that chain's accumulator — in order,
/// with each node's slot index as it stood before the bulk operation — and
/// clears exactly those nodes' slots in the live registry. Nothing else
/// moves: no chain is recorded as removed, the mirror and the snapshot
/// cache stay as they were.
pub proof fn lemma_remove_ids_for_chain_effect(s: StateV, g: u64, ids: Seq<u64>)
    requires
        distinct_keys(s.chains),
        reg_wf(s.next),
        has_key(s.chains, g),
        forall|a: int, b: int| 0 <= a < b < ids.len() ==> ids[a] != ids[b],
        forall|k: int| 0 <= k < ids.len() ==> contains_node(s.next, #[trigger] ids[k]),
    ensures
        ({
            let r = remove_ids_for_chain(s, g, ids);
            &&& distinct_keys(r.chains)
            &&& reg_wf(r.next)
            &&& has_key(r.chains, g)
            &&& lookup(r.chains, g)->Some_0.msgs == lookup(s.chains, g)->Some_0.msgs
                + removed_node_messages(s.next, ids)
            &&& r.removed_chains == s.removed_chains
            &&& r.prev == s.prev
            &&& r.chain_nodes == s.chain_nodes
            &&& slots_cleared(s.next, r.next, ids)
        }),
    decreases ids.len(),
{
    let r = remove_ids_for_chain(s, g, ids);
    if ids.len() == 0 {
        assert(lookup(s.chains, g)->Some_0.msgs + removed_node_messages(s.next, ids)
            =~= lookup(s.chains, g)->Some_0.msgs);
        assert forall|c: int, sl: int|
            0 <= c < s.next.chains.len() && 0 <= sl < s.next.chains[c].nodes.len() implies (
            #[trigger] s.next.chains[c].nodes[sl]) == (
        if s.next.chains[c].nodes[sl] is Some && ids.contains(
            s.next.chains[c].nodes[sl]->Some_0.node_id,
        ) {
            Option::<crate::registry::NodeRecordV>::None
        } else {
            s.next.chains[c].nodes[sl]
        }) by {
            if ids.contains(s.next.chains[c].nodes[sl]->Some_0.node_id) {
                let k = choose|k: int|
                    0 <= k < ids.len() && ids[k] == s.next.chains[c].nodes[sl]->Some_0.node_id;
                assert(false);
            }
        }
    } else {
        let pre = ids.drop_last();
        let last = ids.last();
        assert(forall|k: int| 0 <= k < pre.len() ==> ids[k] == #[trigger] pre[k]);
        lemma_remove_ids_for_chain_effect(s, g, pre);
        let rp = remove_ids_for_chain(s, g, pre);
        assert(contains_node(s.next, last)) by {
            assert(ids[ids.len() - 1] == last);
        }
        crate::registry::lemma_node_loc(s.next, last);
        let (c0, s0) = node_loc(s.next, last);
        assert(!pre.contains(last)) by {
            if pre.contains(last) {
                let k = choose|k: int| 0 <= k < pre.len() && pre[k] == last;
                assert(ids[k] == ids[ids.len() - 1]);
                assert(false);
            }
        }
        assert(rp.next.chains[c0].nodes[s0] == s.next.chains[c0].nodes[s0]);
        assert(crate::registry::node_loc_at(rp.next, last, c0, s0));
        crate::registry::lemma_node_loc(rp.next, last);
        assert(node_loc(rp.next, last) == (c0, s0));
        let cu = prior_or_default(lookup(rp.chains, g));
        let cu2 = ChainUpdatesV {
            msgs: cu.msgs.push(FeedMessageV::RemovedNode(s0 as usize)),
            node_count: (live_count(rp.next.chains[c0].nodes) - 1) as usize,
            has_chain_label_changed: cu.has_chain_label_changed,
            chain_label: rp.next.chains[c0].label,
        };
        assert(r == (StateV {
            next: crate::registry::reg_with_record(rp.next, c0, s0, Option::None),
            chains: upsert(rp.chains, g, cu2),
            ids: rp.ids.remove(last),
            ..rp
        }));
        lemma_upsert_distinct(rp.chains, g, cu2);
        assert(lookup(r.chains, g) == Option::Some(cu2));
        assert(cu2.msgs =~= lookup(s.chains, g)->Some_0.msgs + removed_node_messages(
            s.next,
            ids,
        )) by {
            assert(removed_node_messages(s.next, ids) == removed_node_messages(
                s.next,
                pre,
            ).push(FeedMessageV::RemovedNode(s0 as usize)));
        }
        crate::registry::lemma_wf_after_set(rp.next, c0, s0, Option::None);
        assert forall|c: int, sl: int|
            0 <= c < s.next.chains.len() && 0 <= sl < s.next.chains[c].nodes.len() implies (
            #[trigger] r.next.chains[c].nodes[sl]) == (
        if s.next.chains[c].nodes[sl] is Some && ids.contains(
            s.next.chains[c].nodes[sl]->Some_0.node_id,
        ) {
            Option::<crate::registry::NodeRecordV>::None
        } else {
            s.next.chains[c].nodes[sl]
        }) by {
            if c == c0 && sl == s0 {
                assert(ids.contains(last)) by {
                    assert(ids[ids.len() - 1] == last);
                }
                assert(r.next.chains[c].nodes[sl] is None);
            } else {
                assert(r.next.chains[c].nodes[sl] == rp.next.chains[c].nodes[sl]);
                if s.next.chains[c].nodes[sl] is Some {
                    let nid = s.next.chains[c].nodes[sl]->Some_0.node_id;
                    if nid == last {
                        assert(crate::registry::node_loc_at(s.next, last, c, sl));
                        crate::registry::lemma_node_loc(s.next, last);
                        assert(false);
                    }
                    assert(ids.contains(nid) <==> pre.contains(nid)) by {
                        if ids.contains(nid) {
                            let k = choose|k: int| 0 <= k < ids.len() && ids[k] == nid;
                            assert(k < pre.len());
                            assert(pre[k] == nid);
                        }
                        if pre.contains(nid) {
                            let k = choose|k: int| 0 <= k < pre.len() && pre[k] == nid;
                            assert(ids[k] == nid);
                        }
                    }
                }
            }
        }
    }
}

/// The bulk-removal dichotomy: a bulk operation naming exactly as many
/// distinct, present nodes of a chain as its accumulator counts drops the
/// accumulator in one stroke and records the chain as removed, appending no
/// RemovedNode message and leaving the registry and the Identity Index
/// untouched; naming any other number removes the nodes one by one, appends
/// exactly one RemovedNode per node in order, and records no chain removal.
pub proof fn lemma_bulk_removal_dichotomy(s: StateV, g: u64, ids: Seq<u64>)
    requires
        distinct_keys(s.chains),
        reg_wf(s.next),
        has_key(s.chains, g),
        forall|a: int, b: int| 0 <= a < b < ids.len() ==> ids[a] != ids[b],
        forall|k: int| 0 <= k < ids.len() ==> contains_node(s.next, #[trigger] ids[k]),
    ensures
        ({
            let r = remove_chain_group(s, g, ids);
            let cu = lookup(s.chains, g)->Some_0;
            &&& ids.len() == cu.node_count ==> {
                &&& !has_key(r.chains, g)
                &&& r.removed_chains.contains(g)
                &&& r.next == s.next
                &&& r.ids == s.ids
            }
            &&& ids.len() != cu.node_count ==> {
                &&& lookup(r.chains, g) is Some
                &&& lookup(r.chains, g)->Some_0.msgs == cu.msgs + removed_node_messages(
                    s.next,
                    ids,
                )
                &&& r.removed_chains == s.removed_chains
                &&& slots_cleared(s.next, r.next, ids)
            }
        }),
{
    let cu = lookup(s.chains, g)->Some_0;
    if ids.len() == cu.node_count {
        let r = remove_chain_group(s, g, ids);
        lemma_has_key_index(s.chains, g);
        let i = key_index(s.chains, g);
        assert(!has_key(r.chains, g)) by {
            let rem = s.chains.remove(i);
            assert forall|j: int| 0 <= j < rem.len() implies rem[j].0 != g by {
                let sj = if j < i {
                    j
                } else {
                    j + 1
                };
                assert(rem[j] == s.chains[sj]);
                if s.chains[sj].0 == g {
                    lemma_lookup_at(s.chains, sj);
                }
            }
            lemma_lookup_none(rem, g);
        }
        if !s.removed_chains.contains(g) {
            assert(r.removed_chains[r.removed_chains.len() - 1] == g);
        }
    } else {
        lemma_remove_ids_for_chain_effect(s, g, ids);
    }
}

/// The label-change announcement law: within one global drain, an
/// accumulator entry whose label changed contributes RemovedChain
/// immediately followed by AddedChain with the new label; an entry whose
/// label is unchanged contributes only AddedChain. Each entry's block stands
/// contiguously, in entry order, in the drained feed.
pub proof fn lemma_label_change_announcement(chains: Seq<(u64, ChainUpdatesV)>, removed: Seq<
    u64,
>, i: int)
    requires
        0 <= i < chains.len(),
    ensures
        chains[i].1.has_chain_label_changed ==> chain_block(chains[i]) == seq![
            FeedMessageV::RemovedChain(chains[i].0),
            FeedMessageV::AddedChain(
                chains[i].1.chain_label,
                chains[i].0,
                chains[i].1.node_count,
            ),
        ],
        !chains[i].1.has_chain_label_changed ==> chain_block(chains[i]) == seq![
            FeedMessageV::AddedChain(
                chains[i].1.chain_label,
                chains[i].0,
                chains[i].1.node_count,
            ),
        ],
        exists|off: int|
            0 <= off && off + chain_block(chains[i]).len() <= global_feed(chains, removed).len()
                && #[trigger] global_feed(chains, removed).subrange(
                off,
                off + chain_block(chains[i]).len(),
            ) == chain_block(chains[i]),
{
    lemma_chains_feed_block(chains, i);
    let block = chain_block(chains[i]);
    let off = choose|off: int|
        0 <= off && off + block.len() <= chains_feed(chains).len() && #[trigger] chains_feed(
            chains,
        ).subrange(off, off + block.len()) == block;
    assert(global_feed(chains, removed).subrange(off, off + block.len()) =~= chains_feed(
        chains,
    ).subrange(off, off + block.len()));
}

/// Every accumulator entry's block stands contiguously in the entry part of
/// the global feed.
proof fn lemma_chains_feed_block(chains: Seq<(u64, ChainUpdatesV)>, i: int)
    requires
        0 <= i < chains.len(),
    ensures
        exists|off: int|
            0 <= off && off + chain_block(chains[i]).len() <= chains_feed(chains).len()
                && #[trigger] chains_feed(chains).subrange(off, off + chain_block(chains[i]).len())
                == chain_block(chains[i]),
    decreases chains.len(),
{
    let block = chain_block(chains[i]);
    if i == chains.len() - 1 {
        let off = chains_feed(chains.drop_last()).len() as int;
        assert(chains_feed(chains).subrange(off, off + block.len()) =~= block);
    } else {
        lemma_chains_feed_block(chains.drop_last(), i);
        assert(chains.drop_last()[i] == chains[i]);
        let off = choose|off: int|
            0 <= off && off + block.len() <= chains_feed(chains.drop_last()).len()
                && #[trigger] chains_feed(chains.drop_last()).subrange(off, off + block.len())
                == block;
        assert(chains_feed(chains).subrange(off, off + block.len()) =~= chains_feed(
            chains.drop_last(),
        ).subrange(off, off + block.len()));
    }
}


/// The snapshot order law at the facade: right after a cache refresh, every
/// cache entry's chunks, concatenated, list exactly the mirror chain's
/// messages in slot index order — however chunk encoding was parallelized.
pub proof fn lemma_snapshot_cache_in_order(s: StateV, i: int)
    requires
        s.chain_nodes == snapshot_target(s.prev.chains),
        0 <= i < s.prev.chains.len(),
    ensures
        s.chain_nodes[i].0 == s.prev.chains[i].genesis_hash,
        s.chain_nodes[i].1.flatten() == crate::chunks::chunk_messages(
            crate::chunks::enumerate(s.prev.chains[i].nodes),
        ),
{
    crate::chunks::lemma_chunks_flatten_in_order(s.prev.chains[i].nodes);
}


/// Inserting a pair after clearing its right value keeps the map injective.
pub proof fn lemma_injective_insert(m: Map<u64, (u64, u64)>, l: u64, r: (u64, u64))
    requires
        injective(m),
    ensures
        injective(without_right(m, r).insert(l, r)),
{
    let m2 = without_right(m, r).insert(l, r);
    assert forall|l1: u64, l2: u64|
        m2.dom().contains(l1) && m2.dom().contains(l2) && l1 != l2 implies m2[l1] != m2[l2] by {
        if l1 != l && l2 != l {
            assert(m2[l1] == m[l1] && m2[l2] == m[l2]);
        }
    }
}

/// Upserting keeps keys distinct.
pub proof fn lemma_upsert_distinct<V>(s: Seq<(u64, V)>, k: u64, v: V)
    requires
        distinct_keys(s),
    ensures
        distinct_keys(upsert(s, k, v)),
        lookup(upsert(s, k, v), k) == Option::Some(v),
    decreases s.len(),
{
    if has_key(s, k) {
        lemma_has_key_index(s, k);
        let i = key_index(s, k);
        let s2 = s.update(i, (k, v));
        assert(distinct_keys(s2));
        lemma_lookup_at(s2, i);
    } else {
        let s2 = s.push((k, v));
        assert forall|i: int, j: int| 0 <= i < j < s2.len() implies s2[i].0 != s2[j].0 by {
            if j == s2.len() - 1 {
                if s2[i].0 == k {
                    lemma_lookup_at(s, i);
                }
            }
        }
        lemma_lookup_at(s2, s2.len() - 1);
    }
}

/// When a key is present, [`key_index`] really names its entry.
pub proof fn lemma_has_key_index<V>(s: Seq<(u64, V)>, k: u64)
    requires
        has_key(s, k),
    ensures
        0 <= key_index(s, k) < s.len(),
        s[key_index(s, k)].0 == k,
    decreases s.len(),
{
    if s.len() > 0 {
        if s.last().0 == k {
            assert(s[s.len() - 1].0 == k);
        } else {
            lemma_has_key_index(s.drop_last(), k);
            let i = key_index(s.drop_last(), k);
            assert(s[i].0 == k);
        }
    }
}

/// Removing one occurrence of `x` at index `i` from a duplicate-free
/// sequence yields [`seq_without`].
pub proof fn lemma_seq_without_removed(s: Seq<u64>, x: u64, i: int)
    requires
        0 <= i < s.len(),
        s[i] == x,
        forall|a: int, b: int| 0 <= a < b < s.len() ==> s[a] != s[b],
    ensures
        seq_without(s, x) == s.remove(i),
        forall|a: int, b: int| 0 <= a < b < s.remove(i).len() ==> s.remove(i)[a] != s.remove(i)[b],
        !s.remove(i).contains(x),
    decreases s.len(),
{
    let r = s.remove(i);
    if i == s.len() - 1 {
        assert(r =~= s.drop_last());
        lemma_seq_without_absent(s.drop_last(), x);
    } else {
        assert(s.last() != x);
        assert(s.drop_last()[i] == x);
        lemma_seq_without_removed(s.drop_last(), x, i);
        assert(r.drop_last() =~= s.drop_last().remove(i));
        assert(r.last() == s.last());
        assert(seq_without(s, x) == seq_without(s.drop_last(), x).push(s.last()));
        assert(seq_without(s, x) =~= r);
    }
    assert forall|a: int, b: int| 0 <= a < b < r.len() implies r[a] != r[b] by {
        let sa = if a < i {
            a
        } else {
            a + 1
        };
        let sb = if b < i {
            b
        } else {
            b + 1
        };
        assert(r[a] == s[sa] && r[b] == s[sb]);
    }
    if r.contains(x) {
        let j = choose|j: int| 0 <= j < r.len() && r[j] == x;
        let sj = if j < i {
            j
        } else {
            j + 1
        };
        assert(r[j] == s[sj]);
    }
}

/// Taking out an absent value changes nothing.
pub proof fn lemma_seq_without_absent(s: Seq<u64>, x: u64)
    requires
        !s.contains(x),
    ensures
        seq_without(s, x) == s,
    decreases s.len(),
{
    if s.len() > 0 {
        assert(s.last() != x);
        assert(forall|i: int| 0 <= i < s.drop_last().len() ==> s.drop_last()[i] == s[i]);
        if s.drop_last().contains(x) {
            let i = choose|i: int| 0 <= i < s.drop_last().len() && s.drop_last()[i] == x;
            assert(s[i] == x);
        }
        lemma_seq_without_absent(s.drop_last(), x);
        assert(seq_without(s, x) =~= s);
    } else {
        assert(seq_without(s, x) =~= s);
    }
}

} // verus!

