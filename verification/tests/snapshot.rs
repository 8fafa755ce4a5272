use telemetry_batch::feed::FeedMessage;
use telemetry_batch::feed::FeedMessageSerializer;
use telemetry_batch::feed::NodeDetails;
use telemetry_batch::registry::Payload;
use telemetry_batch::state::State;

fn details(name: &str) -> NodeDetails {
    NodeDetails { name: name.to_string() }
}

const X: u64 = 0x1111;
const Y: u64 = 0x2222;
const CONN: u64 = 3;

#[test]
fn snapshot_lists_nodes_in_slot_order() {
    let mut st = State::new(Vec::new(), 100);
    st.add_node(X, CONN, 0, details("a")).unwrap();
    st.add_node(X, CONN, 1, details("b")).unwrap();
    st.add_node(X, CONN, 2, details("c")).unwrap();
    st.update_node(CONN, 1, Payload::Finalized(9, 77));
    st.update_node(CONN, 1, Payload::WentStale);
    // Remove the first node: its slot stays, empty, and is skipped.
    st.remove_node(CONN, 0);

    // The cache reads the mirror, which a diff drain refreshes.
    let _ = st.drain_chain_updates();
    st.update_added_nodes_messages();

    let chunks = st.added_nodes_messages(X).expect("chain snapshot");
    assert_eq!(chunks.len(), 1);
    let flat: Vec<&FeedMessage> = chunks.iter().flatten().collect();
    assert_eq!(flat.len(), 5);
    assert!(matches!(flat[0], FeedMessage::AddedNode(1, info) if info.name == "b" && info.stale));
    assert!(matches!(flat[1], FeedMessage::FinalizedBlock(1, 9, 77)));
    assert!(matches!(flat[2], FeedMessage::StaleNode(1)));
    assert!(matches!(flat[3], FeedMessage::AddedNode(2, info) if info.name == "c" && !info.stale));
    assert!(matches!(flat[4], FeedMessage::FinalizedBlock(2, 0, 0)));

    assert!(st.added_nodes_messages(Y).is_none());
}

#[test]
fn snapshot_reads_the_mirror_not_the_live_registry() {
    let mut st = State::new(Vec::new(), 100);
    st.add_node(X, CONN, 0, details("a")).unwrap();
    let _ = st.drain_chain_updates();
    // A write landing after the mirror copy is invisible to the snapshot.
    st.add_node(X, CONN, 1, details("late")).unwrap();
    st.update_added_nodes_messages();
    let chunks = st.added_nodes_messages(X).expect("chain snapshot");
    let flat: Vec<&FeedMessage> = chunks.iter().flatten().collect();
    assert_eq!(flat.len(), 2);
    assert!(matches!(flat[0], FeedMessage::AddedNode(0, info) if info.name == "a"));
}

#[test]
fn snapshot_cache_is_replaced_wholesale() {
    let mut st = State::new(Vec::new(), 100);
    st.add_node(X, CONN, 0, details("a")).unwrap();
    let _ = st.drain_chain_updates();
    st.update_added_nodes_messages();
    let flat: Vec<&FeedMessage> = st
        .added_nodes_messages(X)
        .expect("chain entry")
        .iter()
        .flatten()
        .collect();
    assert_eq!(flat.len(), 2);

    // A second node lands; the next refresh replaces the entry entirely
    // rather than appending to it.
    st.add_node(X, CONN, 1, details("b")).unwrap();
    let _ = st.drain_chain_updates();
    st.update_added_nodes_messages();
    let chunks = st.added_nodes_messages(X).expect("chain entry");
    assert_eq!(chunks.len(), 1);
    let flat: Vec<&FeedMessage> = chunks.iter().flatten().collect();
    assert_eq!(flat.len(), 4);
}

#[test]
fn large_chain_is_chunked_in_order() {
    let mut st = State::new(Vec::new(), 1000);
    for i in 0..130u64 {
        st.add_node(X, CONN, i, details(&format!("n{}", i))).unwrap();
    }
    let _ = st.drain_chain_updates();
    st.update_added_nodes_messages();
    let chunks = st.added_nodes_messages(X).expect("chain snapshot");
    // 130 nodes, 64 slots per chunk: three chunks.
    assert_eq!(chunks.len(), 3);
    let flat: Vec<&FeedMessage> = chunks.iter().flatten().collect();
    // Two messages per live node, and indices strictly in slot order.
    assert_eq!(flat.len(), 260);
    let mut last_index = None;
    for m in flat {
        if let FeedMessage::AddedNode(idx, _) = m {
            if let Some(prev) = last_index {
                assert!(*idx > prev);
            }
            last_index = Some(*idx);
        }
    }
}

#[test]
fn serializer_finalizes_to_none_when_empty() {
    let ser = FeedMessageSerializer::new();
    assert!(ser.into_finalized().is_none());
    let mut ser = FeedMessageSerializer::new();
    ser.push(FeedMessage::RemovedChain(X));
    let v = ser.into_finalized().expect("one message");
    assert_eq!(v.len(), 1);
}

#[test]
fn zero_count_chains_are_never_drained_as_diffs() {
    // A whole-chain disconnect leaves the live registry holding the nodes
    // while the accumulator entry is gone; a later update recreates the
    // entry with a zero count. Such an entry is skipped by the diff drain.
    let mut st = State::new(Vec::new(), 100);
    st.add_node(X, CONN, 0, details("a")).unwrap();
    st.disconnect_node(CONN);
    // The short cut left the binding in place, so the update still resolves
    // and accumulates into a zero-count entry.
    assert!(st.update_node(CONN, 0, Payload::WentStale));
    let drained = st.drain_chain_updates();
    assert_eq!(drained.len(), 0);
}

#[test]
fn mirror_accessors_reflect_the_last_drain() {
    let mut st = State::new(Vec::new(), 100);
    st.add_node(X, CONN, 0, details("a")).unwrap();
    // Before any diff drain the mirror is empty.
    assert!(st.get_chain_by_genesis_hash(X).is_none());
    assert_eq!(st.iter_chains().len(), 0);

    let _ = st.drain_chain_updates();
    let chain = st.get_chain_by_genesis_hash(X).expect("mirrored chain");
    assert_eq!(chain.genesis_hash, X);
    assert_eq!(chain.label, "a");
    assert_eq!(chain.nodes.len(), 1);
    assert_eq!(st.iter_chains().len(), 1);
}
