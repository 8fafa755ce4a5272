//! The Identity Index: a bidirectional, unique mapping between an internal
//! node identifier and an external (connection id, shard-local id) pair.
//!
//! The mapping itself is `bimap::BiHashMap`, kept behind trusted wrappers.
//! Its contents are modelled as a `Map` from node id to external pair, named
//! by [`bimap_pairs`]; every wrapper's contract speaks over that model, and
//! the facade proves on top of them that the mapping stays a bijection.

use vstd::prelude::*;

verus! {

/// `bimap::BiHashMap`, the bidirectional map this index is built on.
#[verifier::external_type_specification]
#[verifier::external_body]
#[verifier::reject_recursive_types(L)]
#[verifier::reject_recursive_types(R)]
#[verifier::reject_recursive_types(LS)]
#[verifier::reject_recursive_types(RS)]
pub struct ExBiHashMap<L, R, LS, RS>(bimap::BiHashMap<L, R, LS, RS>);

/// The concrete bidirectional map the Identity Index is built on: node id on
/// the left, (connection id, shard-local id) on the right.
pub type NodeIdMap = bimap::BiMap<u64, (u64, u64)>;

/// The contents of the bidirectional map, as the mapping from left value
/// (node id) to right value (connection id, shard-local id).
pub uninterp spec fn bimap_pairs(m: NodeIdMap) -> Map<u64, (u64, u64)>;

/// `m` without every entry whose value is `right`.
pub open spec fn without_right(m: Map<u64, (u64, u64)>, right: (u64, u64)) -> Map<
    u64,
    (u64, u64),
> {
    Map::new(|l: u64| m.dom().contains(l) && m[l] != right, |l: u64| m[l])
}

/// No two left values map to the same right value.
pub open spec fn injective(m: Map<u64, (u64, u64)>) -> bool {
    forall|l1: u64, l2: u64|
        m.dom().contains(l1) && m.dom().contains(l2) && l1 != l2 ==> m[l1] != m[l2]
}

/// Relies on `BiHashMap::new`: a freshly created bimap is empty.
#[verifier::external_body]
pub(crate) fn bimap_new() -> (r: NodeIdMap)
    ensures
        bimap_pairs(r).dom().finite(),
        bimap_pairs(r).dom().len() == 0,
{
    bimap::BiMap::new()
}

/// Relies on `BiHashMap::insert`: any pair holding either side is removed,
/// then the new pair is inserted.
#[verifier::external_body]
pub(crate) fn bimap_insert(m: &mut NodeIdMap, left: u64, right: (u64, u64))
    ensures
        bimap_pairs(*final(m)) == without_right(bimap_pairs(*old(m)), right).insert(left, right),
{
    m.insert(left, right);
}

/// Relies on `BiHashMap::get_by_right`: returns the left value paired with
/// `right`, if the map holds that right value.
#[verifier::external_body]
pub(crate) fn bimap_get_by_right(m: &NodeIdMap, right: (u64, u64)) -> (r:
    Option<u64>)
    ensures
        match r {
            Option::Some(l) => bimap_pairs(*m).contains_pair(l, right),
            Option::None => forall|l: u64|
                bimap_pairs(*m).dom().contains(l) ==> bimap_pairs(*m)[l] != right,
        },
{
    m.get_by_right(&right).copied()
}

/// Relies on `BiHashMap::remove_by_right`: removes and returns the pair
/// holding `right`, if any. The map keeps one pair per right value, so
/// removing that pair's left key removes everything paired with `right`.
#[verifier::external_body]
pub(crate) fn bimap_remove_by_right(m: &mut NodeIdMap, right: (u64, u64)) -> (r:
    Option<(u64, (u64, u64))>)
    ensures
        match r {
            Option::Some(pair) => pair.1 == right && bimap_pairs(*old(m)).contains_pair(
                pair.0,
                right,
            ) && bimap_pairs(*final(m)) == bimap_pairs(*old(m)).remove(pair.0),
            Option::None => bimap_pairs(*final(m)) == bimap_pairs(*old(m)) && forall|l: u64|
                bimap_pairs(*old(m)).dom().contains(l) ==> bimap_pairs(*old(m))[l] != right,
        },
{
    m.remove_by_right(&right)
}

/// Relies on `BiHashMap::remove_by_left`: removes and returns the pair whose
/// left value is `left`, if any.
#[verifier::external_body]
pub(crate) fn bimap_remove_by_left(m: &mut NodeIdMap, left: u64) -> (r: Option<
    (u64, (u64, u64)),
>)
    ensures
        match r {
            Option::Some(pair) => pair.0 == left && bimap_pairs(*old(m)).contains_pair(
                left,
                pair.1,
            ) && bimap_pairs(*final(m)) == bimap_pairs(*old(m)).remove(left),
            Option::None => bimap_pairs(*final(m)) == bimap_pairs(*old(m)) && !bimap_pairs(
                *old(m),
            ).dom().contains(left),
        },
{
    m.remove_by_left(&left)
}

/// Relies on `BiHashMap::iter`: yields every left-right pair exactly once,
/// in no promised order.
#[verifier::external_body]
pub(crate) fn bimap_pairs_vec(m: &NodeIdMap) -> (r: Vec<(u64, (u64, u64))>)
    ensures
        forall|i: int|
            0 <= i < r@.len() ==> bimap_pairs(*m).contains_pair(#[trigger] r@[i].0, r@[i].1),
        forall|l: u64|
            #[trigger] bimap_pairs(*m).dom().contains(l) ==> exists|i: int|
                0 <= i < r@.len() && r@[i] == (l, bimap_pairs(*m)[l]),
        forall|i: int, j: int| 0 <= i < j < r@.len() ==> r@[i].0 != r@[j].0,
{
    m.iter().map(|(l, r)| (*l, *r)).collect()
}

/// The sequence is in strictly increasing order (hence duplicate-free).
pub open spec fn strictly_sorted(s: Seq<u64>) -> bool {
    forall|i: int, j: int| 0 <= i < j < s.len() ==> s[i] < s[j]
}

/// Inserts `x` at its place in a strictly sorted vector of values it is not
/// yet part of.
fn insert_sorted(v: &mut Vec<u64>, x: u64)
    requires
        strictly_sorted(old(v)@),
        !old(v)@.contains(x),
    ensures
        strictly_sorted(final(v)@),
        final(v)@.len() == old(v)@.len() + 1,
        forall|y: u64| final(v)@.contains(y) <==> (old(v)@.contains(y) || y == x),
{
    let mut i: usize = 0;
    while i < v.len() && v[i] < x
        invariant
            i <= v@.len(),
            strictly_sorted(v@),
            v == old(v),
            forall|j: int| 0 <= j < i ==> v@[j] < x,
        decreases v@.len() - i,
    {
        i += 1;
    }
    proof {
        if i < v@.len() {
            assert(v@[i as int] != x) by {
                assert(v@.contains(x) == false);
                assert(v@[i as int] == v@[i as int]);
            }
            assert(v@[i as int] > x);
        }
    }
    v.insert(i, x);
    proof {
        let s = v@;
        let olds = old(v)@;
        assert forall|a: int, b: int| 0 <= a < b < s.len() implies s[a] < s[b] by {
            if b < i {
                assert(s[a] == olds[a] && s[b] == olds[b]);
            } else if a > i {
                assert(s[a] == olds[a - 1] && s[b] == olds[b - 1]);
            }
        }
        assert forall|y: u64| s.contains(y) implies (olds.contains(y) || y == x) by {
            let k = choose|k: int| 0 <= k < s.len() && s[k] == y;
            if k < i {
                assert(olds[k] == y);
            } else if k > i {
                assert(olds[k - 1] == y);
            }
        }
        assert forall|y: u64| (olds.contains(y) || y == x) implies s.contains(y) by {
            if y == x {
                assert(s[i as int] == y);
            } else {
                let k = choose|k: int| 0 <= k < olds.len() && olds[k] == y;
                if k < i {
                    assert(s[k] == y);
                } else {
                    assert(s[k + 1] == y);
                }
            }
        }
    }
}

/// All node ids the index currently binds to connection `conn`, in
/// increasing order.
pub(crate) fn all_matching_connection(m: &NodeIdMap, conn: u64) -> (r: Vec<u64>)
    ensures
        strictly_sorted(r@),
        forall|id: u64|
            r@.contains(id) <==> (bimap_pairs(*m).dom().contains(id) && bimap_pairs(*m)[id].0
                == conn),
{
    let pairs = bimap_pairs_vec(m);
    let mut out: Vec<u64> = Vec::new();
    let mut i: usize = 0;
    while i < pairs.len()
        invariant
            i <= pairs@.len(),
            strictly_sorted(out@),
            forall|k: int|
                0 <= k < pairs@.len() ==> bimap_pairs(*m).contains_pair(
                    #[trigger] pairs@[k].0,
                    pairs@[k].1,
                ),
            forall|l: u64|
                #[trigger] bimap_pairs(*m).dom().contains(l) ==> exists|k: int|
                    0 <= k < pairs@.len() && pairs@[k] == (l, bimap_pairs(*m)[l]),
            forall|k: int, j: int| 0 <= k < j < pairs@.len() ==> pairs@[k].0 != pairs@[j].0,
            forall|id: u64|
                out@.contains(id) <==> exists|k: int|
                    0 <= k < i && #[trigger] pairs@[k].0 == id && pairs@[k].1.0 == conn,
        decreases pairs@.len() - i,
    {
        let p = pairs[i];
        if p.1.0 == conn {
            proof {
                assert(!out@.contains(p.0)) by {
                    if out@.contains(p.0) {
                        let k = choose|k: int|
                            0 <= k < i && #[trigger] pairs@[k].0 == p.0 && pairs@[k].1.0 == conn;
                        assert(pairs@[k].0 != pairs@[i as int].0);
                    }
                }
            }
            insert_sorted(&mut out, p.0);
            proof {
                assert forall|id: u64| out@.contains(id) implies exists|k: int|
                    0 <= k < i + 1 && #[trigger] pairs@[k].0 == id && pairs@[k].1.0 == conn by {
                    if id == p.0 {
                        assert(pairs@[i as int].0 == id && pairs@[i as int].1.0 == conn);
                    }
                }
            }
        }
        i += 1;
    }
    proof {
        assert forall|id: u64| out@.contains(id) implies (bimap_pairs(*m).dom().contains(id)
            && bimap_pairs(*m)[id].0 == conn) by {
            let k = choose|k: int|
                0 <= k < pairs@.len() && #[trigger] pairs@[k].0 == id && pairs@[k].1.0 == conn;
            assert(bimap_pairs(*m).contains_pair(pairs@[k].0, pairs@[k].1));
        }
        assert forall|id: u64| (bimap_pairs(*m).dom().contains(id) && bimap_pairs(*m)[id].0
            == conn) implies out@.contains(id) by {
            let k = choose|k: int|
                0 <= k < pairs@.len() && pairs@[k] == (id, bimap_pairs(*m)[id]);
            assert(pairs@[k].0 == id && pairs@[k].1.0 == conn);
        }
    }
    out
}

} // verus!
