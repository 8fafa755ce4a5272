//! Chunked snapshot encoding.
//!
//! A chain's full membership is enumerated slot by slot, cut into fixed-size
//! chunks, and each chunk is turned into one catch-up message batch. Chunk
//! encoding is distributed over worker threads, but chunks are collected in
//! slot order, so the concatenation of all chunks lists the nodes exactly in
//! slot index order — [`lemma_chunks_flatten_in_order`] states that.

use vstd::prelude::*;

use crate::feed::msgs_view;
use crate::feed::FeedMessage;
use crate::feed::FeedMessageV;
use crate::registry::nodes_view;
use crate::registry::NodeRecord;
use crate::registry::NodeRecordV;
use rayon::iter::IndexedParallelIterator;
use rayon::iter::ParallelIterator;
use rayon::slice::ParallelSlice;

verus! {

/// Nodes per snapshot chunk: bounds the size of one catch-up message so
/// clients can react to smaller messages sooner.
pub const CHUNK_SIZE: usize = 64;

/// Model of one enumerated slot vector.
pub open spec fn pairs_view(s: Seq<(usize, Option<NodeRecord>)>) -> Seq<
    (usize, Option<NodeRecordV>),
> {
    s.map_values(
        |p: (usize, Option<NodeRecord>)|
            (
                p.0,
                match p.1 {
                    Option::Some(rec) => Option::Some(rec@),
                    Option::None => Option::<NodeRecordV>::None,
                },
            ),
    )
}

/// The slots of a chain, each paired with its index.
pub open spec fn enumerate(nodes: Seq<Option<NodeRecordV>>) -> Seq<(usize, Option<NodeRecordV>)> {
    Seq::new(nodes.len(), |i: int| (i as usize, nodes[i]))
}

/// The catch-up messages describing one enumerated slot: none for an empty
/// slot; for a live node its full view, its latest finalized block, and a
/// stale marker when it is flagged stale.
pub open spec fn slot_messages(idx: usize, slot: Option<NodeRecordV>) -> Seq<FeedMessageV> {
    match slot {
        Option::None => seq![],
        Option::Some(rec) => {
            let base = seq![
                FeedMessageV::AddedNode(idx, rec.info),
                FeedMessageV::FinalizedBlock(
                    idx,
                    rec.info.finalized_height,
                    rec.info.finalized_hash,
                ),
            ];
            if rec.info.stale {
                base.push(FeedMessageV::StaleNode(idx))
            } else {
                base
            }
        },
    }
}

/// The messages of a run of enumerated slots, in slot order.
pub open spec fn chunk_messages(items: Seq<(usize, Option<NodeRecordV>)>) -> Seq<FeedMessageV>
    decreases items.len(),
{
    if items.len() == 0 {
        seq![]
    } else {
        chunk_messages(items.drop_last()) + slot_messages(items.last().0, items.last().1)
    }
}

/// A sequence cut into consecutive chunks of `k` elements (the last one may
/// be shorter).
pub open spec fn seq_chunks<A>(s: Seq<A>, k: int) -> Seq<Seq<A>>
    decreases s.len() when k >= 1
{
    if s.len() == 0 {
        seq![]
    } else if s.len() <= k {
        seq![s]
    } else {
        seq![s.take(k)] + seq_chunks(s.skip(k), k)
    }
}

/// The chunks with no message dropped, order kept.
pub open spec fn nonempty_chunks(chunks: Seq<Seq<FeedMessageV>>) -> Seq<Seq<FeedMessageV>>
    decreases chunks.len(),
{
    if chunks.len() == 0 {
        seq![]
    } else {
        let rest = nonempty_chunks(chunks.drop_last());
        if chunks.last().len() == 0 {
            rest
        } else {
            rest.push(chunks.last())
        }
    }
}

/// The whole catch-up chunk list of one chain: its slots enumerated, cut
/// into chunks, encoded, the empty batches dropped.
pub open spec fn chain_chunks(nodes: Seq<Option<NodeRecordV>>) -> Seq<Seq<FeedMessageV>> {
    nonempty_chunks(
        seq_chunks(enumerate(nodes), CHUNK_SIZE as int).map_values(
            |c: Seq<(usize, Option<NodeRecordV>)>| chunk_messages(c),
        ),
    )
}

/// Model of a chunk list as built in executable code.
pub open spec fn chunks_view(v: Seq<Vec<FeedMessage>>) -> Seq<Seq<FeedMessageV>> {
    v.map_values(|c: Vec<FeedMessage>| msgs_view(c@))
}

proof fn lemma_chunk_messages_concat(a: Seq<(usize, Option<NodeRecordV>)>, b: Seq<
    (usize, Option<NodeRecordV>)>)
    ensures
        chunk_messages(a + b) == chunk_messages(a) + chunk_messages(b),
    decreases b.len(),
{
    if b.len() == 0 {
        assert(a + b =~= a);
        assert(chunk_messages(a) + chunk_messages(b) =~= chunk_messages(a));
    } else {
        lemma_chunk_messages_concat(a, b.drop_last());
        assert((a + b).drop_last() =~= a + b.drop_last());
        assert(chunk_messages(a) + (chunk_messages(b.drop_last()) + slot_messages(
            b.last().0,
            b.last().1,
        )) =~= (chunk_messages(a) + chunk_messages(b.drop_last())) + slot_messages(
            b.last().0,
            b.last().1,
        ));
    }
}

proof fn lemma_chunks_cover<A>(s: Seq<A>, k: int)
    requires
        k >= 1,
    ensures
        seq_chunks(s, k).flatten() == s,
    decreases s.len(),
{
    if s.len() == 0 {
        assert(seq_chunks(s, k).flatten() =~= s);
    } else if s.len() <= k {
        assert(seq_chunks(s, k) =~= seq![s]);
        seq![s].lemma_flatten_one_element();
    } else {
        lemma_chunks_cover(s.skip(k), k);
        let all = seq![s.take(k)] + seq_chunks(s.skip(k), k);
        assert(all.drop_first() =~= seq_chunks(s.skip(k), k));
        assert(all.first() == s.take(k));
        assert(s.take(k) + s.skip(k) =~= s);
    }
}

proof fn lemma_flatten_map_chunk_messages(chunks: Seq<Seq<(usize, Option<NodeRecordV>)>>)
    ensures
        chunks.map_values(
            |c: Seq<(usize, Option<NodeRecordV>)>| chunk_messages(c),
        ).flatten() == chunk_messages(chunks.flatten()),
    decreases chunks.len(),
{
    let f = |c: Seq<(usize, Option<NodeRecordV>)>| chunk_messages(c);
    if chunks.len() == 0 {
        assert(chunks.map_values(f).flatten() =~= chunk_messages(chunks.flatten()));
        assert(chunks.flatten() =~= Seq::<(usize, Option<NodeRecordV>)>::empty());
    } else {
        lemma_flatten_map_chunk_messages(chunks.drop_first());
        assert(chunks.map_values(f).drop_first() =~= chunks.drop_first().map_values(f));
        lemma_chunk_messages_concat(chunks.first(), chunks.drop_first().flatten());
    }
}

proof fn lemma_nonempty_chunks_flatten(chunks: Seq<Seq<FeedMessageV>>)
    ensures
        nonempty_chunks(chunks).flatten() == chunks.flatten(),
    decreases chunks.len(),
{
    if chunks.len() == 0 {
    } else {
        lemma_nonempty_chunks_flatten(chunks.drop_last());
        assert(chunks.drop_last().push(chunks.last()) =~= chunks);
        chunks.drop_last().lemma_flatten_push(chunks.last());
        if chunks.last().len() == 0 {
            assert(chunks.flatten() =~= chunks.drop_last().flatten());
        } else {
            nonempty_chunks(chunks.drop_last()).lemma_flatten_push(chunks.last());
        }
    }
}

/// The snapshot order law: per chain, the concatenation of all catch-up
/// chunks lists exactly the slot-order messages of the chain — chunking,
/// parallel encoding and the dropping of empty batches reorder nothing.
pub proof fn lemma_chunks_flatten_in_order(nodes: Seq<Option<NodeRecordV>>)
    ensures
        chain_chunks(nodes).flatten() == chunk_messages(enumerate(nodes)),
{
    let enumerated = enumerate(nodes);
    let raw = seq_chunks(enumerated, CHUNK_SIZE as int).map_values(
        |c: Seq<(usize, Option<NodeRecordV>)>| chunk_messages(c),
    );
    lemma_nonempty_chunks_flatten(raw);
    lemma_flatten_map_chunk_messages(seq_chunks(enumerated, CHUNK_SIZE as int));
    lemma_chunks_cover(enumerated, CHUNK_SIZE as int);
}

/// Encodes one chunk of enumerated slots into its catch-up messages.
fn encode_chunk(items: &[(usize, Option<NodeRecord>)]) -> (r: Vec<FeedMessage>)
    ensures
        msgs_view(r@) == chunk_messages(pairs_view(items@)),
{
    let ghost iv = pairs_view(items@);
    let mut out: Vec<FeedMessage> = Vec::new();
    let mut i: usize = 0;
    proof {
        assert(msgs_view(out@) =~= chunk_messages(iv.take(0)));
    }
    while i < items.len()
        invariant
            i <= items@.len(),
            iv == pairs_view(items@),
            iv.len() == items@.len(),
            msgs_view(out@) == chunk_messages(iv.take(i as int)),
        decreases items@.len() - i,
    {
        let (idx, slot) = &items[i];
        proof {
            assert(iv[i as int] == (
                *idx,
                match items@[i as int].1 {
                    Option::Some(rec) => Option::Some(rec@),
                    Option::None => Option::<NodeRecordV>::None,
                },
            ));
        }
        let ghost before = msgs_view(out@);
        match slot {
            Option::Some(rec) => {
                out.push(FeedMessage::AddedNode(*idx, rec.info.duplicate()));
                out.push(
                    FeedMessage::FinalizedBlock(
                        *idx,
                        rec.info.finalized_height,
                        rec.info.finalized_hash,
                    ),
                );
                if rec.info.stale {
                    out.push(FeedMessage::StaleNode(*idx));
                }
            },
            Option::None => {},
        }
        proof {
            assert(msgs_view(out@) =~= before + slot_messages(iv[i as int].0, iv[i as int].1));
            assert(iv.take(i + 1).drop_last() =~= iv.take(i as int));
            assert(msgs_view(out@) =~= chunk_messages(iv.take(i + 1)));
        }
        i += 1;
    }
    proof {
        assert(iv.take(items@.len() as int) =~= iv);
    }
    out
}

/// Relies on rayon's `par_chunks`, `map` and order-preserving `collect` on
/// an indexed parallel iterator: the slots are cut into consecutive chunks
/// of `CHUNK_SIZE`, each chunk is encoded by [`encode_chunk`], and the
/// results are collected in chunk order.
#[verifier::external_body]
fn par_encode_chunks(items: &Vec<(usize, Option<NodeRecord>)>) -> (r: Vec<Vec<FeedMessage>>)
    ensures
        r@.len() == seq_chunks(pairs_view(items@), CHUNK_SIZE as int).len(),
        forall|i: int|
            0 <= i < r@.len() ==> msgs_view(r@[i]@) == chunk_messages(
                #[trigger] seq_chunks(pairs_view(items@), CHUNK_SIZE as int)[i],
            ),
{
    items.par_chunks(CHUNK_SIZE).map(|c| encode_chunk(c)).collect()
}

/// Builds the catch-up chunk list for one chain's slot vector.
pub fn build_chain_chunks(nodes: &Vec<Option<NodeRecord>>) -> (r: Vec<Vec<FeedMessage>>)
    ensures
        chunks_view(r@) == chain_chunks(nodes_view(nodes@)),
{
    let ghost nview = nodes_view(nodes@);
    let mut items: Vec<(usize, Option<NodeRecord>)> = Vec::new();
    let mut i: usize = 0;
    while i < nodes.len()
        invariant
            i <= nodes@.len(),
            nview == nodes_view(nodes@),
            nview.len() == nodes@.len(),
            pairs_view(items@) == enumerate(nview).take(i as int),
        decreases nodes@.len() - i,
    {
        let ghost old_items = items@;
        let slot = match &nodes[i] {
            Option::Some(rec) => Option::Some(rec.duplicate()),
            Option::None => Option::None,
        };
        items.push((i, slot));
        proof {
            assert(old_items.len() == pairs_view(old_items).len());
            assert(old_items.len() == i as int);
            assert(items@ == old_items.push(items@[i as int]));
            assert(pairs_view(items@).len() == i + 1);
            assert(pairs_view(items@)[i as int] == (i as usize, nview[i as int]));
            assert forall|k: int| 0 <= k < i implies pairs_view(items@)[k] == enumerate(
                nview,
            ).take(i + 1)[k] by {
                assert(items@[k] == old_items[k]);
            }
            assert(pairs_view(items@) =~= enumerate(nview).take(i + 1));
        }
        i += 1;
    }
    proof {
        assert(enumerate(nview).take(nodes@.len() as int) =~= enumerate(nview));
    }
    let raw = par_encode_chunks(&items);
    let raw_len = raw.len();
    let ghost rawv = seq_chunks(enumerate(nview), CHUNK_SIZE as int).map_values(
        |c: Seq<(usize, Option<NodeRecordV>)>| chunk_messages(c),
    );
    proof {
        assert(chunks_view(raw@) =~= rawv);
        assert(rawv.len() == raw_len as int);
    }
    let mut kept: Vec<Vec<FeedMessage>> = Vec::new();
    let mut rest = raw;
    let mut j: usize = 0;
    proof {
        assert(chunks_view(kept@) =~= nonempty_chunks(rawv.take(0)));
        assert(chunks_view(rest@) =~= rawv.skip(0));
    }
    while rest.len() > 0
        invariant
            rawv.len() <= usize::MAX,
            j + rest@.len() == rawv.len(),
            chunks_view(rest@) == rawv.skip(j as int),
            chunks_view(kept@) == nonempty_chunks(rawv.take(j as int)),
        decreases rest@.len(),
    {
        let ghost before_rest = rest@;
        let chunk = rest.remove(0);
        proof {
            assert(msgs_view(chunk@) == chunks_view(before_rest)[0]);
            assert(rawv.skip(j as int)[0] == rawv[j as int]);
            assert(chunks_view(rest@) =~= chunks_view(before_rest).drop_first());
            assert(chunks_view(rest@) =~= rawv.skip(j + 1));
            assert(rawv.take(j + 1).drop_last() =~= rawv.take(j as int));
        }
        let ghost before = chunks_view(kept@);
        if chunk.len() > 0 {
            kept.push(chunk);
            proof {
                assert(chunks_view(kept@) =~= before.push(rawv[j as int]));
            }
        }
        j += 1;
    }
    proof {
        assert(rawv.take(rawv.len() as int) =~= rawv);
    }
    kept
}

} // verus!
