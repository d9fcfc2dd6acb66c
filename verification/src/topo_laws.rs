//! What every generated graph satisfies.
use vstd::prelude::*;

use crate::clos::{
    built_from, cable_count, host_ends, lemma_shape_facts, link_ends, mk_link, spec_shape,
    spec_valid, TopoSpec,
};
use crate::topo::{
    first_link_where, graph_wf, host_up_pred, is_host_up, lemma_first_found,
    lemma_first_link_where_step, spec_leaf_index, spec_leaf_of, spec_num_groups, Graph, Link,
};
use crate::types::{Endpoint, GpuId, LeafId, LinkId, NicId};

verus! {

proof fn lemma_leaf_index_below(c_r: nat, ng: nat, d: nat, n: nat, ni: nat, ri: nat)
    requires
        ri < c_r,
        ni < n,
        d >= 1,
        ng == ((n + d - 1) as nat) / d,
    ensures
        ni / d < ng,
        ri * ng + ni / d < c_r * ng,
{
    let q = ng;
    assert(q * d + ((n + d - 1) as nat) % d == n + d - 1) by (nonlinear_arith)
        requires
            d >= 1,
            q == ((n + d - 1) as nat) / d,
    ;
    assert((ni / d) * d <= ni) by (nonlinear_arith)
        requires
            d >= 1,
    ;
    assert(((n + d - 1) as nat) % d < d) by (nonlinear_arith)
        requires
            d >= 1,
    ;
    assert(ni / d < q) by (nonlinear_arith)
        requires
            q * d >= n,
            (ni / d) * d <= ni,
            ni < n,
            d >= 1,
    ;
    let x = ni / d;
    assert((ri + 1) * ng <= c_r * ng) by (nonlinear_arith)
        requires
            ri + 1 <= c_r,
    ;
    assert(ri * ng + x < c_r * ng) by (nonlinear_arith)
        requires
            (ri + 1) * ng <= c_r * ng,
            x < ng,
    ;
}

/// A generated graph keeps the bookkeeping every lookup relies on: links sit at
/// their id and every GPU's leaf index is a valid leaf number.
pub proof fn law_generated_graph_wf(g: Graph, t: TopoSpec)
    requires
        spec_valid(t),
        built_from(g, t),
    ensures
        graph_wf(&g),
        forall|gi: int|
            0 <= gi < g.gpus@.len() ==> spec_leaf_index(
                g.params,
                (#[trigger] g.gpus@[gi]).node.0 as nat,
                g.gpus@[gi].rail.0 as nat,
            ) < g.leaves@.len(),
{
    lemma_shape_facts(t);
    let c = spec_shape(t);
    assert(spec_num_groups(g.params) == c.ng);
    assert forall|gi: int| 0 <= gi < g.gpus@.len() implies spec_leaf_index(
        g.params,
        (#[trigger] g.gpus@[gi]).node.0 as nat,
        g.gpus@[gi].rail.0 as nat,
    ) < g.leaves@.len() by {
        let ni = gi / (c.r as int);
        let ri = gi % (c.r as int);
        assert(ni < c.n) by (nonlinear_arith)
            requires
                0 <= gi < c.n * c.r,
                ni == gi / (c.r as int),
                c.r >= 1,
        ;
        assert(0 <= ri < c.r);
        lemma_leaf_index_below(c.r as nat, c.ng as nat, c.d as nat, c.n as nat, ni as nat, ri as nat);
    }
}

/// One NIC per GPU: GPU `i` owns NIC `i`, and its id is `node * rails + rail`;
/// there are as many GPUs as host cables.
pub proof fn law_one_nic_per_gpu(g: Graph, t: TopoSpec)
    requires
        spec_valid(t),
        built_from(g, t),
    ensures
        g.gpus@.len() == g.params.nodes * g.params.rails,
        forall|gi: int|
            0 <= gi < g.gpus@.len() ==> {
                &&& (#[trigger] g.gpus@[gi]).nic == NicId(gi as u32)
                &&& g.gpus@[gi].id == GpuId(gi as u32)
                &&& gi == g.gpus@[gi].node.0 * g.params.rails + g.gpus@[gi].rail.0
            },
{
    lemma_shape_facts(t);
    let c = spec_shape(t);
    assert forall|gi: int| 0 <= gi < g.gpus@.len() implies {
        &&& (#[trigger] g.gpus@[gi]).nic == NicId(gi as u32)
        &&& g.gpus@[gi].id == GpuId(gi as u32)
        &&& gi == g.gpus@[gi].node.0 * g.params.rails + g.gpus@[gi].rail.0
    } by {
        let r = c.r as int;
        assert(gi == (gi / r) * r + gi % r) by (nonlinear_arith)
            requires
                r >= 1,
        ;
        assert(gi / r <= gi) by (nonlinear_arith)
            requires
                r >= 1,
                gi >= 0,
        ;
        assert(gi % r < 255);
    }
}

/// Host cabling: link `2i` runs from NIC `i` up to the GPU's leaf and link
/// `2i + 1` back down, and the GPU's uplink is link `2i`.
pub proof fn law_host_links(g: Graph, t: TopoSpec, gi: int)
    requires
        spec_valid(t),
        built_from(g, t),
        0 <= gi < g.gpus@.len(),
    ensures
        spec_leaf_of(&g, GpuId(gi as u32)) is Some,
        g.links@[2 * gi].src == Endpoint::Nic(NicId(gi as u32)),
        g.links@[2 * gi].dst == Endpoint::Leaf(spec_leaf_of(&g, GpuId(gi as u32))->0),
        g.links@[2 * gi + 1].src == Endpoint::Leaf(spec_leaf_of(&g, GpuId(gi as u32))->0),
        g.links@[2 * gi + 1].dst == Endpoint::Nic(NicId(gi as u32)),
        first_link_where(g.links@, host_up_pred(NicId(gi as u32))) == Some(2 * gi),
        g.links@[2 * gi].id == LinkId((2 * gi) as u32),
{
    lemma_shape_facts(t);
    law_generated_graph_wf(g, t);
    let c = spec_shape(t);
    let nic = NicId(gi as u32);
    let pred = host_up_pred(nic);
    assert(2 * c.n * c.r == 2 * t.gpus) by (nonlinear_arith)
        requires
            c.n * c.r == t.gpus,
    ;
    assert(g.gpus@[gi].id == GpuId(gi as u32));
    assert(link_ends(c, (2 * gi) as nat) == host_ends(c, (2 * gi) as nat));
    assert(link_ends(c, (2 * gi + 1) as nat) == host_ends(c, (2 * gi + 1) as nat));
    assert(g.links@[2 * gi] == mk_link(t, (2 * gi) as nat, link_ends(c, (2 * gi) as nat)));
    assert(g.links@[2 * gi + 1] == mk_link(t, (2 * gi + 1) as nat, link_ends(c, (2 * gi + 1) as nat)));
    assert forall|k: int| 0 <= k < 2 * gi implies !pred(#[trigger] g.links@[k]) by {
        assert(g.links@[k] == mk_link(t, k as nat, link_ends(c, k as nat)));
        assert(link_ends(c, k as nat) == host_ends(c, k as nat));
    }
    lemma_first_link_where_step(g.links@, pred, 2 * gi);
    lemma_first_found(g.links@, pred, 2 * gi, g.links@.len() as int);
    assert(g.links@.take(g.links@.len() as int) =~= g.links@);
}

/// Rail-optimized, not top-of-rack: the GPUs of one node reach distinct leaves,
/// each a leaf of the GPU's own rail.
pub proof fn law_rail_not_tor(g: Graph, t: TopoSpec, a: int, b: int)
    requires
        spec_valid(t),
        built_from(g, t),
        0 <= a < g.gpus@.len(),
        0 <= b < g.gpus@.len(),
        a != b,
        g.gpus@[a].node == g.gpus@[b].node,
    ensures
        spec_leaf_of(&g, GpuId(a as u32)) != spec_leaf_of(&g, GpuId(b as u32)),
        g.leaves@[(spec_leaf_of(&g, GpuId(a as u32))->0).0 as int].rail == g.gpus@[a].rail,
{
    lemma_shape_facts(t);
    law_generated_graph_wf(g, t);
    law_one_nic_per_gpu(g, t);
    let c = spec_shape(t);
    let r = c.r as int;
    let ng = c.ng as int;
    let na = g.gpus@[a].node.0 as int;
    let ra = g.gpus@[a].rail.0 as int;
    let rb = g.gpus@[b].rail.0 as int;
    assert(ra != rb);
    assert(na < c.n) by (nonlinear_arith)
        requires
            a == na * r + ra,
            0 <= a < c.n * c.r,
            r == c.r,
            ra >= 0,
    ;
    assert(ra < r && rb < r);
    lemma_leaf_index_below(c.r as nat, c.ng as nat, c.d as nat, c.n as nat, na as nat, ra as nat);
    lemma_leaf_index_below(c.r as nat, c.ng as nat, c.d as nat, c.n as nat, na as nat, rb as nat);
    let q = na / (c.d as int);
    let la = ra * ng + q;
    let lb = rb * ng + q;
    assert(la != lb) by (nonlinear_arith)
        requires
            ra != rb,
            la == ra * ng + q,
            lb == rb * ng + q,
            ng >= 1,
    ;
    assert(la / ng == ra) by (nonlinear_arith)
        requires
            la == ra * ng + q,
            0 <= q < ng,
            ra >= 0,
    ;
}

/// In a full bipartite fabric every leaf has a cable to every spine.
pub proof fn law_full_mesh(t: TopoSpec, leaf: nat, spine: nat)
    requires
        spec_valid(t),
        spec_shape(t).full,
        leaf < spec_shape(t).l,
        spine < spec_shape(t).s,
    ensures
        cable_count(spec_shape(t), leaf, spine) >= 1,
{
    lemma_shape_facts(t);
    let c = spec_shape(t);
    assert(c.u / c.s >= 1) by (nonlinear_arith)
        requires
            c.s >= 1,
            c.s <= c.u,
    ;
}

} // verus!
