use telemetry_batch::feed::FeedMessage;
use telemetry_batch::feed::MuteReason;
use telemetry_batch::feed::NodeDetails;
use telemetry_batch::feed::NodeLocation;
use telemetry_batch::registry::Payload;
use telemetry_batch::state::State;

fn details(name: &str) -> NodeDetails {
    NodeDetails { name: name.to_string() }
}

fn fresh(max: usize) -> State {
    State::new(Vec::new(), max)
}

const X: u64 = 0xaaaa;
const Y: u64 = 0xbbbb;
const CONN: u64 = 7;

#[test]
fn add_two_remove_one_then_whole_chain_disappears() {
    // Add nodes A, B to chain X (count 2); remove A (count 1): the diff
    // drain yields the two AddedNode messages followed by one RemovedNode
    // for X. Then remove B (count 0): the bulk-removal short cut fires, X
    // leaves the accumulators and appears in removed-chains, and the next
    // global drain emits RemovedChain(X) with no further per-node messages.
    let mut st = fresh(10);
    let a = st.add_node(X, CONN, 1, details("alice")).unwrap();
    let _b = st.add_node(X, CONN, 2, details("bob")).unwrap();
    assert!(st.remove_node(CONN, 1));

    let drained = st.drain_chain_updates();
    assert_eq!(drained.len(), 1);
    assert_eq!(drained[0].0, X);
    let msgs = &drained[0].1.messages;
    assert_eq!(msgs.len(), 3);
    assert!(matches!(msgs[0], FeedMessage::AddedNode(0, ref info) if info.name == "alice"));
    assert!(matches!(msgs[1], FeedMessage::AddedNode(1, ref info) if info.name == "bob"));
    assert!(matches!(msgs[2], FeedMessage::RemovedNode(0)));
    let _ = a;

    // Remove B, the sole remaining counted node: short cut.
    assert!(st.remove_node(CONN, 2));
    let drained = st.drain_chain_updates();
    assert_eq!(drained.len(), 0);

    let global = st.drain_updates_for_all_feeds();
    let removed: Vec<&FeedMessage> = global
        .messages
        .iter()
        .filter(|m| matches!(m, FeedMessage::RemovedChain(g) if *g == X))
        .collect();
    assert_eq!(removed.len(), 1);
    let per_node = global
        .messages
        .iter()
        .any(|m| matches!(m, FeedMessage::RemovedNode(_)));
    assert!(!per_node);
}

#[test]
fn strict_subset_removal_emits_one_removed_node_per_node() {
    let mut st = fresh(10);
    st.add_node(X, CONN, 1, details("a")).unwrap();
    st.add_node(X, CONN, 2, details("b")).unwrap();
    st.add_node(X, CONN, 3, details("c")).unwrap();
    let _ = st.drain_chain_updates();
    // Clear the label-changed flag left by the adds.
    let _ = st.drain_updates_for_all_feeds();

    // Remove two of the three counted nodes in one bulk operation.
    assert!(st.remove_node(CONN, 1));
    assert!(st.remove_node(CONN, 3));
    let drained = st.drain_chain_updates();
    assert_eq!(drained.len(), 1);
    let msgs = &drained[0].1.messages;
    assert_eq!(msgs.len(), 2);
    assert!(matches!(msgs[0], FeedMessage::RemovedNode(0)));
    assert!(matches!(msgs[1], FeedMessage::RemovedNode(2)));
    // No chain-removed outcome.
    let global = st.drain_updates_for_all_feeds();
    assert!(!global
        .messages
        .iter()
        .any(|m| matches!(m, FeedMessage::RemovedChain(_))));
}

#[test]
fn disconnect_short_circuits_whole_chain() {
    // A shard holding a whole chain disconnects: one chain-removed outcome,
    // zero RemovedNode messages.
    let mut st = fresh(10);
    st.add_node(X, CONN, 1, details("a")).unwrap();
    st.add_node(X, CONN, 2, details("b")).unwrap();
    st.add_node(Y, 8, 1, details("other")).unwrap();
    let _ = st.drain_chain_updates();

    st.disconnect_node(CONN);
    let drained = st.drain_chain_updates();
    // Y still has its node and an empty buffer was drained for it.
    assert_eq!(drained.len(), 1);
    assert_eq!(drained[0].0, Y);
    assert_eq!(drained[0].1.messages.len(), 0);

    let global = st.drain_updates_for_all_feeds();
    let removed_x = global
        .messages
        .iter()
        .filter(|m| matches!(m, FeedMessage::RemovedChain(g) if *g == X))
        .count();
    assert_eq!(removed_x, 1);
}

#[test]
fn label_change_emits_removed_then_added_chain() {
    // The chain is labelled after its most recent node, so a second node
    // with a new name changes the label between two global drains.
    let mut st = fresh(10);
    st.add_node(X, CONN, 1, details("alice")).unwrap();
    let global = st.drain_updates_for_all_feeds();
    assert_eq!(global.messages.len(), 1);
    assert!(
        matches!(global.messages[0], FeedMessage::AddedChain(ref label, g, 1) if label == "alice" && g == X)
    );

    st.add_node(X, CONN, 2, details("bob")).unwrap();
    let global = st.drain_updates_for_all_feeds();
    assert_eq!(global.messages.len(), 2);
    assert!(matches!(global.messages[0], FeedMessage::RemovedChain(g) if g == X));
    assert!(
        matches!(global.messages[1], FeedMessage::AddedChain(ref label, g, 2) if label == "bob" && g == X)
    );

    // Unchanged label: only AddedChain.
    let global = st.drain_updates_for_all_feeds();
    assert_eq!(global.messages.len(), 1);
    assert!(
        matches!(global.messages[0], FeedMessage::AddedChain(ref label, g, 2) if label == "bob" && g == X)
    );
}

#[test]
fn readding_sole_member_clears_removed_chain() {
    // Re-adding a node right after it was the sole member removed from a
    // chain (same drain interval) must clear the chain from the
    // removed-chains set: no RemovedChain in the next global drain.
    let mut st = fresh(10);
    st.add_node(X, CONN, 1, details("a")).unwrap();
    assert!(st.remove_node(CONN, 1));
    st.add_node(X, CONN, 5, details("a")).unwrap();
    let global = st.drain_updates_for_all_feeds();
    assert!(!global
        .messages
        .iter()
        .any(|m| matches!(m, FeedMessage::RemovedChain(_))));
}

#[test]
fn deny_list_and_quota_reject_without_side_effects() {
    let mut st = State::new(vec!["banned".to_string()], 1);
    assert_eq!(
        st.add_node(X, CONN, 1, details("banned")),
        Err(MuteReason::ChainNotAllowed)
    );
    assert_eq!(st.add_node(X, CONN, 1, details("ok")), Ok(0));
    // The chain already holds its quota of one node.
    assert_eq!(
        st.add_node(X, CONN, 2, details("more")),
        Err(MuteReason::Overquota)
    );
    // Rejections accumulated nothing beyond the one successful add.
    let drained = st.drain_chain_updates();
    assert_eq!(drained.len(), 1);
    assert_eq!(drained[0].1.messages.len(), 1);
}

#[test]
fn update_node_routes_payload_into_chain_buffer() {
    let mut st = fresh(10);
    st.add_node(X, CONN, 1, details("a")).unwrap();
    let _ = st.drain_chain_updates();

    assert!(st.update_node(CONN, 1, Payload::Finalized(42, 0xfeed)));
    assert!(st.update_node(CONN, 1, Payload::WentStale));
    // A stale or duplicate reference is a silent no-op.
    assert!(!st.update_node(CONN, 99, Payload::Finalized(1, 2)));

    let drained = st.drain_chain_updates();
    let msgs = &drained[0].1.messages;
    assert_eq!(msgs.len(), 2);
    assert!(matches!(msgs[0], FeedMessage::FinalizedBlock(0, 42, 0xfeed)));
    assert!(matches!(msgs[1], FeedMessage::StaleNode(0)));
}

#[test]
fn update_node_location_announces_present_locations_only() {
    let mut st = fresh(10);
    let id = st.add_node(X, CONN, 1, details("a")).unwrap();
    let _ = st.drain_chain_updates();

    st.update_node_location(id, None);
    let drained = st.drain_chain_updates();
    assert_eq!(drained[0].1.messages.len(), 0);

    st.update_node_location(
        id,
        Some(NodeLocation {
            latitude_micro: 52_520_000,
            longitude_micro: 13_405_000,
            city: "Berlin".to_string(),
        }),
    );
    let drained = st.drain_chain_updates();
    let msgs = &drained[0].1.messages;
    assert_eq!(msgs.len(), 1);
    assert!(matches!(
        msgs[0],
        FeedMessage::LocatedNode(0, 52_520_000, 13_405_000, ref city) if city == "Berlin"
    ));
}

#[test]
fn removing_unknown_pair_is_a_no_op() {
    let mut st = fresh(10);
    st.add_node(X, CONN, 1, details("a")).unwrap();
    assert!(!st.remove_node(CONN, 2));
    assert!(!st.remove_node(99, 1));
    // The bound pair still resolves.
    assert!(st.update_node(CONN, 1, Payload::WentStale));
}

#[test]
fn identity_stays_bijective_across_rebinding() {
    // Rebinding the same external pair after a removal maps it to the new
    // node id only: updates land on the fresh node, never on the old one.
    let mut st = fresh(10);
    st.add_node(X, CONN, 1, details("a")).unwrap();
    assert!(st.remove_node(CONN, 1));
    st.add_node(X, CONN, 1, details("b")).unwrap();
    let _ = st.drain_chain_updates();
    assert!(st.update_node(CONN, 1, Payload::Finalized(5, 6)));
    let drained = st.drain_chain_updates();
    let msgs = &drained[0].1.messages;
    assert_eq!(msgs.len(), 1);
    // The fresh node took slot 1 (slot 0 belonged to the removed node).
    assert!(matches!(msgs[0], FeedMessage::FinalizedBlock(1, 5, 6)));
}
