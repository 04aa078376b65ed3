//! Preparation of the fan-out node set.
//!
//! The node directory's snapshot is deduplicated by network address, so no
//! node is queried twice, ordered by node id for a reproducible dispatch
//! order, and restricted to querier nodes other than the local one — the
//! local node answers through the in-process path instead.

use vstd::prelude::*;
use crate::model::{ClusterNode, NodeView};

verus! {

/// The views of a sequence of cluster nodes.
pub open spec fn node_views(s: Seq<ClusterNode>) -> Seq<NodeView> {
    s.map_values(|n: ClusterNode| n@)
}

/// Whether an earlier node of the sequence serves the same address as the
/// node at `i`.
pub open spec fn addr_seen_before(s: Seq<NodeView>, i: int) -> bool {
    exists|k: int| 0 <= k < i && (#[trigger] s[k]).grpc_addr == s[i].grpc_addr
}

/// The nodes with every repeated address dropped: of the nodes sharing one
/// address, the first stays.
pub open spec fn dedup_by_addr(s: Seq<NodeView>) -> Seq<NodeView>
    decreases s.len(),
{
    if s.len() == 0 {
        Seq::empty()
    } else {
        let rest = dedup_by_addr(s.drop_last());
        if addr_seen_before(s, s.len() - 1) {
            rest
        } else {
            rest.push(s.last())
        }
    }
}

/// An address appears among the deduplicated nodes exactly when it appears in
/// the sequence.
proof fn lemma_dedup_addr_membership(s: Seq<NodeView>, addr: Seq<char>)
    ensures
        (exists|k: int|
            0 <= k < dedup_by_addr(s).len() && (#[trigger] dedup_by_addr(s)[k]).grpc_addr
                == addr) <==> (exists|k: int|
            0 <= k < s.len() && (#[trigger] s[k]).grpc_addr == addr),
    decreases s.len(),
{
    if s.len() != 0 {
        let prefix = s.drop_last();
        lemma_dedup_addr_membership(prefix, addr);
        let d = dedup_by_addr(s);
        let dp = dedup_by_addr(prefix);
        if exists|k: int| 0 <= k < d.len() && (#[trigger] d[k]).grpc_addr == addr {
            let k = choose|k: int| 0 <= k < d.len() && (#[trigger] d[k]).grpc_addr == addr;
            if k < dp.len() {
                assert(dp[k].grpc_addr == addr);
                let m = choose|m: int|
                    0 <= m < prefix.len() && (#[trigger] prefix[m]).grpc_addr == addr;
                assert(s[m].grpc_addr == addr);
            } else {
                assert(d[k] == s.last());
                assert(s[s.len() - 1].grpc_addr == addr);
            }
        }
        if exists|k: int| 0 <= k < s.len() && (#[trigger] s[k]).grpc_addr == addr {
            let k = choose|k: int| 0 <= k < s.len() && (#[trigger] s[k]).grpc_addr == addr;
            if k < s.len() - 1 {
                assert(prefix[k].grpc_addr == addr);
                let m = choose|m: int|
                    0 <= m < dp.len() && (#[trigger] dp[m]).grpc_addr == addr;
                assert(d[m] == dp[m]);
                assert(d[m].grpc_addr == addr);
            } else {
                if addr_seen_before(s, s.len() - 1) {
                    let m0 = choose|m0: int|
                        0 <= m0 < s.len() - 1 && (#[trigger] s[m0]).grpc_addr == s[s.len()
                            - 1].grpc_addr;
                    assert(prefix[m0].grpc_addr == addr);
                    let m = choose|m: int|
                        0 <= m < dp.len() && (#[trigger] dp[m]).grpc_addr == addr;
                    assert(d[m] == dp[m]);
                    assert(d[m].grpc_addr == addr);
                } else {
                    assert(d[d.len() - 1] == s.last());
                    assert(d[d.len() - 1].grpc_addr == addr);
                }
            }
        }
    }
}

/// A node inserted into an id-sorted sequence, after any nodes with the same
/// id.
pub open spec fn insert_by_id(n: NodeView, s: Seq<NodeView>) -> Seq<NodeView>
    decreases s.len(),
{
    if s.len() == 0 {
        seq![n]
    } else if n.id < s[0].id {
        seq![n] + s
    } else {
        seq![s[0]] + insert_by_id(n, s.drop_first())
    }
}

/// The nodes ordered by id, ascending; equal ids keep their relative order.
pub open spec fn sort_by_id(s: Seq<NodeView>) -> Seq<NodeView>
    decreases s.len(),
{
    if s.len() == 0 {
        Seq::empty()
    } else {
        insert_by_id(s.last(), sort_by_id(s.drop_last()))
    }
}

/// Inserting before the first node with a strictly larger id is what
/// `insert_by_id` does.
proof fn lemma_insert_by_id_at(n: NodeView, s: Seq<NodeView>, pos: int)
    requires
        0 <= pos <= s.len(),
        forall|k: int| 0 <= k < pos ==> (#[trigger] s[k]).id <= n.id,
        pos == s.len() || s[pos].id > n.id,
    ensures
        insert_by_id(n, s) == s.insert(pos, n),
    decreases s.len(),
{
    if s.len() == 0 {
        assert(insert_by_id(n, s) =~= s.insert(0, n));
    } else if n.id < s[0].id {
        assert(pos == 0);
        assert(seq![n] + s =~= s.insert(0, n));
    } else {
        assert(pos >= 1) by {
            if pos == 0 {
                assert(s[0].id > n.id);
            }
        }
        let tail = s.drop_first();
        assert forall|k: int| 0 <= k < pos - 1 implies (#[trigger] tail[k]).id <= n.id by {
            assert(tail[k] == s[k + 1]);
        }
        lemma_insert_by_id_at(n, tail, pos - 1);
        assert(seq![s[0]] + tail.insert(pos - 1, n) =~= s.insert(pos, n));
    }
}

/// The predicate keeping a node in the remote fan-out set: a querier other
/// than the local node.
pub open spec fn remote_querier_pred(local_uuid: Seq<char>) -> spec_fn(NodeView) -> bool {
    |n: NodeView| n.is_querier && n.uuid != local_uuid
}

/// The node set one request fans out to: deduplicated by address (the first
/// node serving an address stays), ordered by node id, and restricted to
/// queriers other than the local node.
pub open spec fn prepared_nodes(nodes: Seq<NodeView>, local_uuid: Seq<char>) -> Seq<NodeView> {
    sort_by_id(dedup_by_addr(nodes)).filter(remote_querier_pred(local_uuid))
}

/// Whether any node of the list serves the given address.
fn contains_addr(nodes: &Vec<ClusterNode>, addr: &String) -> (r: bool)
    ensures
        r == exists|k: int|
            0 <= k < nodes@.len() && (#[trigger] node_views(nodes@)[k]).grpc_addr == addr@,
{
    let mut i: usize = 0;
    while i < nodes.len()
        invariant
            i <= nodes@.len(),
            forall|k: int| 0 <= k < i ==> (#[trigger] node_views(nodes@)[k]).grpc_addr != addr@,
        decreases nodes@.len() - i,
    {
        if nodes[i].grpc_addr == *addr {
            proof {
                assert(node_views(nodes@)[i as int].grpc_addr == addr@);
            }
            return true;
        }
        i += 1;
    }
    false
}

/// The nodes with every repeated address dropped, keeping the first node of
/// each address.
fn dedup_nodes_by_addr(nodes: Vec<ClusterNode>) -> (out: Vec<ClusterNode>)
    ensures
        node_views(out@) == dedup_by_addr(node_views(nodes@)),
{
    let ghost orig = nodes@;
    let mut rest = nodes;
    let mut out: Vec<ClusterNode> = Vec::new();
    while rest.len() > 0
        invariant
            rest@.len() <= orig.len(),
            rest@ == orig.subrange(orig.len() - rest@.len(), orig.len() as int),
            node_views(out@) == dedup_by_addr(node_views(orig.subrange(0, orig.len() - rest@.len()))),
        decreases rest@.len(),
    {
        let ghost done = orig.len() - rest@.len();
        let n = rest.remove(0);
        proof {
            assert(n == orig[done]);
            assert(rest@ =~= orig.subrange(orig.len() - rest@.len(), orig.len() as int));
            let prev = node_views(orig.subrange(0, done));
            let cur = node_views(orig.subrange(0, done + 1));
            assert(cur.drop_last() =~= prev);
            assert(cur.last() == orig[done]@);
        }
        let ghost prev = node_views(orig.subrange(0, done));
        let ghost cur = node_views(orig.subrange(0, done + 1));
        let dup = contains_addr(&out, &n.grpc_addr);
        proof {
            lemma_dedup_addr_membership(prev, n@.grpc_addr);
            assert forall|k: int| 0 <= k < prev.len() implies prev[k] == cur[k] by {}
            assert(dup == addr_seen_before(cur, cur.len() - 1)) by {
                if dup {
                    let m = choose|m: int|
                        0 <= m < prev.len() && (#[trigger] prev[m]).grpc_addr == n@.grpc_addr;
                    assert(cur[m].grpc_addr == cur[cur.len() - 1].grpc_addr);
                } else {
                    if addr_seen_before(cur, cur.len() - 1) {
                        let m = choose|m: int|
                            0 <= m < cur.len() - 1 && (#[trigger] cur[m]).grpc_addr == cur[cur.len()
                                - 1].grpc_addr;
                        assert(prev[m].grpc_addr == n@.grpc_addr);
                    }
                }
            }
        }
        let ghost old_out = out@;
        if !dup {
            out.push(n);
            proof {
                assert(node_views(out@) =~= node_views(old_out).push(orig[done]@));
            }
        }
    }
    proof {
        assert(orig.subrange(0, orig.len() as int) =~= orig);
    }
    out
}

/// The nodes ordered by id, ascending; equal ids keep their relative order.
fn sort_nodes_by_id(nodes: Vec<ClusterNode>) -> (out: Vec<ClusterNode>)
    ensures
        node_views(out@) == sort_by_id(node_views(nodes@)),
{
    let ghost orig = nodes@;
    let mut rest = nodes;
    let mut out: Vec<ClusterNode> = Vec::new();
    while rest.len() > 0
        invariant
            rest@.len() <= orig.len(),
            rest@ == orig.subrange(orig.len() - rest@.len(), orig.len() as int),
            node_views(out@) == sort_by_id(node_views(orig.subrange(0, orig.len() - rest@.len()))),
        decreases rest@.len(),
    {
        let ghost done = orig.len() - rest@.len();
        let x = rest.remove(0);
        proof {
            assert(x == orig[done]);
            assert(rest@ =~= orig.subrange(orig.len() - rest@.len(), orig.len() as int));
        }
        let mut pos: usize = 0;
        while pos < out.len() && out[pos].id <= x.id
            invariant
                pos <= out@.len(),
                forall|k: int| 0 <= k < pos ==> (#[trigger] out@[k]).id <= x.id,
            decreases out@.len() - pos,
        {
            pos += 1;
        }
        let ghost old_out = out@;
        out.insert(pos, x);
        proof {
            let sv = node_views(old_out);
            assert forall|k: int| 0 <= k < pos implies (#[trigger] sv[k]).id <= x@.id by {
                assert(old_out[k].id <= x.id);
            }
            lemma_insert_by_id_at(x@, sv, pos as int);
            assert(node_views(out@) =~= sv.insert(pos as int, x@));
            let prefix = node_views(orig.subrange(0, done));
            let cur = node_views(orig.subrange(0, done + 1));
            assert(cur.drop_last() =~= prefix);
            assert(cur.last() == orig[done]@);
            assert(node_views(out@) == sort_by_id(cur));
        }
    }
    proof {
        assert(orig.subrange(0, orig.len() as int) =~= orig);
    }
    out
}

/// The querier nodes other than the local one, in order.
fn filter_remote_queriers(nodes: Vec<ClusterNode>, local_uuid: &String) -> (out: Vec<ClusterNode>)
    ensures
        node_views(out@) == node_views(nodes@).filter(remote_querier_pred(local_uuid@)),
{
    let ghost orig = nodes@;
    let mut rest = nodes;
    let mut out: Vec<ClusterNode> = Vec::new();
    proof {
        reveal(Seq::filter);
    }
    while rest.len() > 0
        invariant
            rest@.len() <= orig.len(),
            rest@ == orig.subrange(orig.len() - rest@.len(), orig.len() as int),
            node_views(out@) == node_views(orig.subrange(0, orig.len() - rest@.len())).filter(
                remote_querier_pred(local_uuid@),
            ),
        decreases rest@.len(),
    {
        let ghost done = orig.len() - rest@.len();
        let n = rest.remove(0);
        proof {
            assert(n == orig[done]);
            assert(rest@ =~= orig.subrange(orig.len() - rest@.len(), orig.len() as int));
            let prev = node_views(orig.subrange(0, done));
            let cur = node_views(orig.subrange(0, done + 1));
            assert(cur.drop_last() =~= prev);
            assert(cur.last() == orig[done]@);
        }
        let ghost prev = node_views(orig.subrange(0, done));
        let ghost cur = node_views(orig.subrange(0, done + 1));
        let ghost old_out = out@;
        if n.is_querier && !(n.uuid == *local_uuid) {
            out.push(n);
            proof {
                reveal(Seq::filter);
                assert(node_views(out@) =~= node_views(old_out).push(orig[done]@));
                assert(remote_querier_pred(local_uuid@)(cur.last()));
                assert(cur.filter(remote_querier_pred(local_uuid@)) == prev.filter(
                    remote_querier_pred(local_uuid@),
                ).push(cur.last()));
            }
        } else {
            proof {
                reveal(Seq::filter);
                assert(!remote_querier_pred(local_uuid@)(cur.last()));
                assert(cur.filter(remote_querier_pred(local_uuid@)) == prev.filter(
                    remote_querier_pred(local_uuid@),
                ));
            }
        }
    }
    proof {
        assert(orig.subrange(0, orig.len() as int) =~= orig);
    }
    out
}

/// The node set for one request's fan-out, as `prepared_nodes` states:
/// deduplicated by network address, ordered by node id, and restricted to
/// querier nodes other than the one whose identity is given.
pub fn prepare_query_nodes(nodes: Vec<ClusterNode>, local_node_uuid: &String) -> (out: Vec<
    ClusterNode,
>)
    ensures
        node_views(out@) == prepared_nodes(node_views(nodes@), local_node_uuid@),
{
    let deduped = dedup_nodes_by_addr(nodes);
    let sorted = sort_nodes_by_id(deduped);
    filter_remote_queriers(sorted, local_node_uuid)
}

} // verus!
