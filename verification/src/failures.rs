//! What a failure does to the graph: dead links carry nothing and have no
//! capacity; a failed leaf takes its GPUs' NICs with it.
use vstd::prelude::*;

use crate::topo::{graph_wf, spec_leaf_of, Graph, Gpu, Leaf, Link, Spine};
use crate::types::{
    Endpoint, EventPayload, GpuAvail, GpuId, LeafId, LinkId, NicId, RailId, SpineId, UnavailReason,
};

verus! {

/// The link as a failure leaves it: failed, no capacity, nothing carried.
pub open spec fn dead(l: Link) -> Link {
    Link { failed: true, capacity_Bps: 0, bytes_this_epoch: 0, ..l }
}

/// The GPU with its NIC failed.
pub open spec fn nic_down(g: Gpu) -> Gpu {
    Gpu { avail: GpuAvail::Unavailable(UnavailReason::FailedNic), ..g }
}

/// The link has `e` at one end.
pub open spec fn touches(l: Link, e: Endpoint) -> bool {
    l.src == e || l.dst == e
}

/// The NIC at one end of a host link (the source's first).
pub open spec fn spec_nic_of(l: Link) -> Option<NicId> {
    match l.src {
        Endpoint::Nic(n) => Some(n),
        _ => match l.dst {
            Endpoint::Nic(n) => Some(n),
            _ => None,
        },
    }
}

/// Some leaf of the list rides `rail` and has id `leaf`.
pub open spec fn rail_has_leaf(g: &Graph, rail: RailId, leaf: LeafId) -> bool {
    exists|j: int| 0 <= j < g.leaves@.len() && (#[trigger] g.leaves@[j]).rail == rail && g.leaves@[j].id == leaf
}

/// The failure takes down leaf `leaf`.
pub open spec fn leaf_down_by(g: &Graph, p: EventPayload, leaf: LeafId) -> bool {
    match p {
        EventPayload::LeafFail { leaf: l } => l == leaf,
        EventPayload::RailFail { rail } => rail_has_leaf(g, rail, leaf),
        _ => false,
    }
}

/// The failure kills link `i`.
pub open spec fn link_hit(g: &Graph, p: EventPayload, i: int) -> bool {
    let l = g.links@[i];
    match p {
        EventPayload::SpineFail { spine } => touches(l, Endpoint::Spine(spine)),
        EventPayload::LeafFail { .. } | EventPayload::RailFail { .. } => {
            (l.src matches Endpoint::Leaf(a) && leaf_down_by(g, p, a)) || (l.dst matches Endpoint::Leaf(b)
                && leaf_down_by(g, p, b))
        },
        EventPayload::LinkFail { link } => i == link.0 && l.id == link,
        _ => false,
    }
}

/// The failure takes down the NIC of GPU `i`.
pub open spec fn gpu_hit(g: &Graph, p: EventPayload, i: int) -> bool {
    &&& g.gpus@[i].id == GpuId(i as u32)
    &&& match p {
        EventPayload::LeafFail { .. } | EventPayload::RailFail { .. } => {
            spec_leaf_of(g, GpuId(i as u32)) matches Some(l) && leaf_down_by(g, p, l)
        },
        EventPayload::LinkFail { link } => {
            &&& (link.0 as int) < g.links@.len()
            &&& g.links@[link.0 as int].id == link
            &&& spec_nic_of(g.links@[link.0 as int]) == Some(NicId(i as u32))
        },
        _ => false,
    }
}

/// The failure marks spine `j` failed.
pub open spec fn spine_hit(p: EventPayload, j: int) -> bool {
    p matches EventPayload::SpineFail { spine } && spine.0 == j
}

/// The failure marks leaf `j` failed.
pub open spec fn leaf_hit(g: &Graph, p: EventPayload, j: int) -> bool {
    leaf_down_by(g, p, LeafId(j as u32))
}

/// `new` is `old` after the failure `p`.
pub open spec fn failed_by(old: &Graph, new: &Graph, p: EventPayload) -> bool {
    &&& new.epoch == old.epoch
    &&& new.params == old.params
    &&& new.links@.len() == old.links@.len()
    &&& forall|i: int|
        0 <= i < old.links@.len() ==> #[trigger] new.links@[i] == if link_hit(old, p, i) {
            dead(old.links@[i])
        } else {
            old.links@[i]
        }
    &&& new.gpus@.len() == old.gpus@.len()
    &&& forall|i: int|
        0 <= i < old.gpus@.len() ==> #[trigger] new.gpus@[i] == if gpu_hit(old, p, i) {
            nic_down(old.gpus@[i])
        } else {
            old.gpus@[i]
        }
    &&& new.leaves@.len() == old.leaves@.len()
    &&& forall|j: int|
        0 <= j < old.leaves@.len() ==> #[trigger] new.leaves@[j] == Leaf {
            failed: old.leaves@[j].failed || leaf_hit(old, p, j),
            ..old.leaves@[j]
        }
    &&& new.spines@.len() == old.spines@.len()
    &&& forall|j: int|
        0 <= j < old.spines@.len() ==> #[trigger] new.spines@[j] == Spine {
            failed: old.spines@[j].failed || spine_hit(p, j),
            ..old.spines@[j]
        }
}

fn kill_link(graph: &mut Graph, i: usize)
    requires
        i < old(graph).links@.len(),
    ensures
        final(graph).links@ == old(graph).links@.update(i as int, dead(old(graph).links@[i as int])),
        final(graph).gpus == old(graph).gpus,
        final(graph).leaves == old(graph).leaves,
        final(graph).spines == old(graph).spines,
        final(graph).nodes == old(graph).nodes,
        final(graph).params == old(graph).params,
        final(graph).epoch == old(graph).epoch,
{
    let l = graph.links[i];
    graph.links.set(i, Link { failed: true, capacity_Bps: 0, bytes_this_epoch: 0, ..l });
}

/// Take the NIC of GPU `g` down, if the GPU sits at its own index.
fn fail_gpu_nic(graph: &mut Graph, g: GpuId)
    ensures
        (g.0 as int) < old(graph).gpus@.len() && old(graph).gpus@[g.0 as int].id == g ==> final(graph).gpus@
            == old(graph).gpus@.update(g.0 as int, nic_down(old(graph).gpus@[g.0 as int])),
        !((g.0 as int) < old(graph).gpus@.len() && old(graph).gpus@[g.0 as int].id == g) ==> final(graph).gpus
            == old(graph).gpus,
        final(graph).links == old(graph).links,
        final(graph).leaves == old(graph).leaves,
        final(graph).spines == old(graph).spines,
        final(graph).nodes == old(graph).nodes,
        final(graph).params == old(graph).params,
        final(graph).epoch == old(graph).epoch,
{
    let i = g.0 as usize;
    if i < graph.gpus.len() && graph.gpus[i].id.0 == g.0 {
        let x = graph.gpus[i];
        graph.gpus.set(i, Gpu { avail: GpuAvail::Unavailable(UnavailReason::FailedNic), ..x });
    }
}

/// One end of the link is a leaf in `down`.
pub open spec fn leaf_end_down(l: Link, down: spec_fn(LeafId) -> bool) -> bool {
    (l.src matches Endpoint::Leaf(a) && down(a)) || (l.dst matches Endpoint::Leaf(b) && down(b))
}

/// GPU `i` sits at its index and hangs off a leaf in `down`.
pub open spec fn gpu_under(g: &Graph, i: int, down: spec_fn(LeafId) -> bool) -> bool {
    g.gpus@[i].id == GpuId(i as u32) && (spec_leaf_of(g, GpuId(i as u32)) matches Some(l) && down(l))
}

/// `new` is `old` with every leaf in `down` failed.
pub open spec fn leaves_down(old: &Graph, new: &Graph, down: spec_fn(LeafId) -> bool) -> bool {
    &&& new.epoch == old.epoch
    &&& new.params == old.params
    &&& new.spines == old.spines
    &&& new.links@.len() == old.links@.len()
    &&& forall|i: int|
        0 <= i < old.links@.len() ==> #[trigger] new.links@[i] == if leaf_end_down(old.links@[i], down) {
            dead(old.links@[i])
        } else {
            old.links@[i]
        }
    &&& new.gpus@.len() == old.gpus@.len()
    &&& forall|i: int|
        0 <= i < old.gpus@.len() ==> #[trigger] new.gpus@[i] == if gpu_under(old, i, down) {
            nic_down(old.gpus@[i])
        } else {
            old.gpus@[i]
        }
    &&& new.leaves@.len() == old.leaves@.len()
    &&& forall|j: int|
        0 <= j < old.leaves@.len() ==> #[trigger] new.leaves@[j] == Leaf {
            failed: old.leaves@[j].failed || down(LeafId(j as u32)),
            ..old.leaves@[j]
        }
}

/// `down` with `leaf` added.
pub open spec fn with_leaf(down: spec_fn(LeafId) -> bool, leaf: LeafId) -> spec_fn(LeafId) -> bool {
    |x: LeafId| down(x) || x == leaf
}

/// No leaf.
pub open spec fn no_leaf() -> spec_fn(LeafId) -> bool {
    |x: LeafId| false
}

proof fn lemma_leaf_of_kept(old: &Graph, new: &Graph, i: int)
    requires
        old.params == new.params,
        old.gpus@.len() == new.gpus@.len(),
        forall|k: int|
            0 <= k < old.gpus@.len() ==> (#[trigger] new.gpus@[k]).id == old.gpus@[k].id && new.gpus@[k].node
                == old.gpus@[k].node && new.gpus@[k].rail == old.gpus@[k].rail,
    ensures
        spec_leaf_of(new, GpuId(i as u32)) == spec_leaf_of(old, GpuId(i as u32)),
{
    let k = (GpuId(i as u32)).0 as int;
    if 0 <= k < old.gpus@.len() {
        assert(new.gpus@[k].id == old.gpus@[k].id);
    }
}

/// Fail one more leaf on top of the leaves already down.
fn fail_one_leaf(graph: &mut Graph, leaf: LeafId, Ghost(base): Ghost<Graph>, Ghost(down): Ghost<spec_fn(LeafId) -> bool>)
    requires
        graph_wf(&base),
        base.leaves@.len() <= u32::MAX,
        base.gpus@.len() <= u32::MAX,
        leaves_down(&base, old(graph), down),
    ensures
        leaves_down(&base, final(graph), with_leaf(down, leaf)),
{
    let ghost g0 = *graph;
    if (leaf.0 as usize) < graph.leaves.len() {
        let l = graph.leaves[leaf.0 as usize];
        graph.leaves.set(leaf.0 as usize, Leaf { failed: true, ..l });
    }
    let ghost g1 = *graph;
    let mut i: usize = 0;
    while i < graph.links.len()
        invariant
            leaves_down(&base, &g0, down),
            g1.links == g0.links,
            graph.links@.len() == base.links@.len(),
            graph.gpus == g1.gpus,
            graph.leaves == g1.leaves,
            graph.spines == g1.spines,
            graph.nodes == g1.nodes,
            graph.params == g1.params,
            graph.epoch == g1.epoch,
            i <= graph.links@.len(),
            forall|k: int|
                0 <= k < base.links@.len() ==> #[trigger] graph.links@[k] == if k < i && touches(
                    g0.links@[k],
                    Endpoint::Leaf(leaf),
                ) {
                    dead(g0.links@[k])
                } else {
                    g0.links@[k]
                },
        decreases graph.links@.len() - i,
    {
        let l = graph.links[i];
        let hit = match (l.src, l.dst) {
            (Endpoint::Leaf(a), _) if a.0 == leaf.0 => true,
            (_, Endpoint::Leaf(b)) => b.0 == leaf.0,
            _ => false,
        };
        assert(hit == touches(g0.links@[i as int], Endpoint::Leaf(leaf)));
        if hit {
            kill_link(graph, i);
        }
        i = i + 1;
    }
    let ghost g2 = *graph;
    assert forall|k: int| 0 <= k < base.links@.len() implies (#[trigger] g2.links@[k]).id == base.links@[k].id by {
        assert(g0.links@[k] == if leaf_end_down(base.links@[k], down) {
            dead(base.links@[k])
        } else {
            base.links@[k]
        });
    }
    let mut m: usize = 0;
    while m < graph.gpus.len()
        invariant
            graph_wf(&base),
            leaves_down(&base, &g0, down),
            graph.links == g2.links,
            graph.leaves == g2.leaves,
            graph.spines == g2.spines,
            graph.nodes == g2.nodes,
            graph.params == g2.params,
            graph.epoch == g2.epoch,
            g2.gpus == g0.gpus,
            g2.params == base.params,
            base.gpus@.len() <= u32::MAX,
            g2.links@.len() == base.links@.len(),
            forall|k: int| 0 <= k < base.links@.len() ==> (#[trigger] g2.links@[k]).id == base.links@[k].id,
            graph.gpus@.len() == base.gpus@.len(),
            m <= graph.gpus@.len(),
            forall|k: int|
                0 <= k < base.gpus@.len() ==> #[trigger] graph.gpus@[k] == if k < m && g0.gpus@[k].id == GpuId(
                    k as u32,
                ) && spec_leaf_of(&base, GpuId(k as u32)) == Some(leaf) {
                    nic_down(g0.gpus@[k])
                } else {
                    g0.gpus@[k]
                },
        decreases graph.gpus@.len() - m,
    {
        proof {
            assert forall|k: int| 0 <= k < base.gpus@.len() implies (#[trigger] graph.gpus@[k]).id == base.gpus@[k].id
                && graph.gpus@[k].node == base.gpus@[k].node && graph.gpus@[k].rail == base.gpus@[k].rail by {}
            lemma_leaf_of_kept(&base, graph, m as int);
            assert(graph_wf(graph)) by {
                assert forall|k: int| 0 <= k < graph.links@.len() implies (#[trigger] graph.links@[k]).id.0 == k by {
                    assert(g2.links@[k].id == base.links@[k].id);
                    assert(base.links@[k].id.0 == k);
                }
                assert forall|k: int| 0 <= k < graph.gpus@.len() implies crate::topo::spec_leaf_index(
                    graph.params,
                    (#[trigger] graph.gpus@[k]).node.0 as nat,
                    graph.gpus@[k].rail.0 as nat,
                ) <= u32::MAX by {
                    assert(graph.gpus@[k].node == base.gpus@[k].node);
                }
            }
        }
        let here = graph.gpus[m].id.0 as usize == m && match graph.leaf_of(GpuId(m as u32)) {
            Some(l) => l.0 == leaf.0,
            None => false,
        };
        if here {
            let x = graph.gpus[m];
            graph.gpus.set(m, Gpu { avail: GpuAvail::Unavailable(UnavailReason::FailedNic), ..x });
        }
        m = m + 1;
    }
    proof {
        let nd = with_leaf(down, leaf);
        assert forall|k: int| 0 <= k < base.links@.len() implies #[trigger] graph.links@[k] == if leaf_end_down(
            base.links@[k],
            nd,
        ) {
            dead(base.links@[k])
        } else {
            base.links@[k]
        } by {
            assert(g0.links@[k] == if leaf_end_down(base.links@[k], down) {
                dead(base.links@[k])
            } else {
                base.links@[k]
            });
        }
        assert forall|k: int| 0 <= k < base.gpus@.len() implies #[trigger] graph.gpus@[k] == if gpu_under(&base, k, nd) {
            nic_down(base.gpus@[k])
        } else {
            base.gpus@[k]
        } by {
            assert(g0.gpus@[k] == if gpu_under(&base, k, down) {
                nic_down(base.gpus@[k])
            } else {
                base.gpus@[k]
            });
        }
        assert forall|j: int| 0 <= j < base.leaves@.len() implies #[trigger] graph.leaves@[j] == Leaf {
            failed: base.leaves@[j].failed || nd(LeafId(j as u32)),
            ..base.leaves@[j]
        } by {
            assert(g0.leaves@[j] == Leaf { failed: base.leaves@[j].failed || down(LeafId(j as u32)), ..base.leaves@[j] });
            if j == leaf.0 {
                assert(LeafId(j as u32) == leaf);
            } else {
                assert(LeafId(j as u32) != leaf);
                assert(graph.leaves@[j] == g0.leaves@[j]);
            }
        }
    }
}

proof fn lemma_leaves_to_failed(old: &Graph, new: &Graph, p: EventPayload, down: spec_fn(LeafId) -> bool)
    requires
        p is LeafFail || p is RailFail,
        leaves_down(old, new, down),
        forall|x: LeafId| #[trigger] down(x) == leaf_down_by(old, p, x),
    ensures
        failed_by(old, new, p),
{
    assert forall|i: int| 0 <= i < old.links@.len() implies #[trigger] new.links@[i] == if link_hit(old, p, i) {
        dead(old.links@[i])
    } else {
        old.links@[i]
    } by {
        let l = old.links@[i];
        if let Endpoint::Leaf(a) = l.src {
            assert(down(a) == leaf_down_by(old, p, a));
        }
        if let Endpoint::Leaf(b) = l.dst {
            assert(down(b) == leaf_down_by(old, p, b));
        }
    }
    assert forall|i: int| 0 <= i < old.gpus@.len() implies #[trigger] new.gpus@[i] == if gpu_hit(old, p, i) {
        nic_down(old.gpus@[i])
    } else {
        old.gpus@[i]
    } by {
        if let Some(l) = spec_leaf_of(old, GpuId(i as u32)) {
            assert(down(l) == leaf_down_by(old, p, l));
        }
    }
    assert forall|j: int| 0 <= j < old.leaves@.len() implies #[trigger] new.leaves@[j] == Leaf {
        failed: old.leaves@[j].failed || leaf_hit(old, p, j),
        ..old.leaves@[j]
    } by {
        assert(down(LeafId(j as u32)) == leaf_down_by(old, p, LeafId(j as u32)));
    }
    assert forall|j: int| 0 <= j < old.spines@.len() implies #[trigger] new.spines@[j] == Spine {
        failed: old.spines@[j].failed || spine_hit(p, j),
        ..old.spines@[j]
    } by {}
}

proof fn lemma_nothing_down(g: &Graph)
    ensures
        leaves_down(g, g, no_leaf()),
{
    assert forall|j: int| 0 <= j < g.leaves@.len() implies #[trigger] g.leaves@[j] == Leaf {
        failed: g.leaves@[j].failed || no_leaf()(LeafId(j as u32)),
        ..g.leaves@[j]
    } by {}
}

/// Fail a leaf: it, every link at it, and the NIC of every GPU under it.
pub fn fail_leaf(graph: &mut Graph, leaf: LeafId)
    requires
        graph_wf(old(graph)),
        old(graph).leaves@.len() <= u32::MAX,
        old(graph).gpus@.len() <= u32::MAX,
    ensures
        failed_by(old(graph), final(graph), EventPayload::LeafFail { leaf }),
{
    let ghost base = *graph;
    proof {
        lemma_nothing_down(graph);
    }
    fail_one_leaf(graph, leaf, Ghost(base), Ghost(no_leaf()));
    proof {
        let d = with_leaf(no_leaf(), leaf);
        assert forall|x: LeafId| #[trigger] d(x) == leaf_down_by(&base, EventPayload::LeafFail { leaf }, x) by {}
        lemma_leaves_to_failed(&base, graph, EventPayload::LeafFail { leaf }, d);
    }
}

/// Fail every leaf of a rail.
pub fn fail_rail(graph: &mut Graph, rail: RailId)
    requires
        graph_wf(old(graph)),
        old(graph).leaves@.len() <= u32::MAX,
        old(graph).gpus@.len() <= u32::MAX,
    ensures
        failed_by(old(graph), final(graph), EventPayload::RailFail { rail }),
{
    let ghost base = *graph;
    let ghost mut down = no_leaf();
    proof {
        lemma_nothing_down(graph);
    }
    let n = graph.leaves.len();
    let mut k: usize = 0;
    while k < n
        invariant
            graph_wf(&base),
            base.leaves@.len() <= u32::MAX,
            base.gpus@.len() <= u32::MAX,
            n == base.leaves@.len(),
            k <= n,
            leaves_down(&base, graph, down),
            forall|x: LeafId|
                #[trigger] down(x) == exists|j: int|
                    0 <= j < k && (#[trigger] base.leaves@[j]).rail == rail && base.leaves@[j].id == x,
        decreases n - k,
    {
        let l = graph.leaves[k];
        assert(l.rail == base.leaves@[k as int].rail && l.id == base.leaves@[k as int].id);
        if l.rail.0 == rail.0 {
            fail_one_leaf(graph, l.id, Ghost(base), Ghost(down));
            proof {
                down = with_leaf(down, l.id);
            }
        }
        proof {
            assert forall|x: LeafId| #[trigger] down(x) == exists|j: int|
                0 <= j < k + 1 && (#[trigger] base.leaves@[j]).rail == rail && base.leaves@[j].id == x by {
                if (exists|j: int| 0 <= j < k + 1 && (#[trigger] base.leaves@[j]).rail == rail && base.leaves@[j].id == x) {
                    let j = choose|j: int| 0 <= j < k + 1 && (#[trigger] base.leaves@[j]).rail == rail && base.leaves@[j].id == x;
                    if j < k {
                        assert(exists|j2: int| 0 <= j2 < k && (#[trigger] base.leaves@[j2]).rail == rail && base.leaves@[j2].id == x);
                    }
                }
            }
        }
        k = k + 1;
    }
    proof {
        assert forall|x: LeafId| #[trigger] down(x) == leaf_down_by(&base, EventPayload::RailFail { rail }, x) by {
            if down(x) {
                let j = choose|j: int| 0 <= j < n && (#[trigger] base.leaves@[j]).rail == rail && base.leaves@[j].id == x;
                assert(rail_has_leaf(&base, rail, x));
            }
            if rail_has_leaf(&base, rail, x) {
                let j = choose|j: int| 0 <= j < base.leaves@.len() && (#[trigger] base.leaves@[j]).rail == rail && base.leaves@[j].id == x;
                assert(exists|j2: int| 0 <= j2 < n && (#[trigger] base.leaves@[j2]).rail == rail && base.leaves@[j2].id == x);
            }
        }
        lemma_leaves_to_failed(&base, graph, EventPayload::RailFail { rail }, down);
    }
}

/// Fail a spine: it and every link at it.
pub fn fail_spine(graph: &mut Graph, spine: SpineId)
    ensures
        failed_by(old(graph), final(graph), EventPayload::SpineFail { spine }),
{
    let ghost g0 = *graph;
    if (spine.0 as usize) < graph.spines.len() {
        let s = graph.spines[spine.0 as usize];
        graph.spines.set(spine.0 as usize, Spine { failed: true, ..s });
    }
    let ghost g1 = *graph;
    let mut i: usize = 0;
    while i < graph.links.len()
        invariant
            graph.links@.len() == g0.links@.len(),
            graph.gpus == g1.gpus,
            graph.leaves == g1.leaves,
            graph.spines == g1.spines,
            graph.nodes == g1.nodes,
            graph.params == g1.params,
            graph.epoch == g1.epoch,
            i <= graph.links@.len(),
            forall|k: int|
                0 <= k < g0.links@.len() ==> #[trigger] graph.links@[k] == if k < i && touches(
                    g0.links@[k],
                    Endpoint::Spine(spine),
                ) {
                    dead(g0.links@[k])
                } else {
                    g0.links@[k]
                },
        decreases graph.links@.len() - i,
    {
        let l = graph.links[i];
        let hit = match (l.src, l.dst) {
            (Endpoint::Spine(a), _) if a.0 == spine.0 => true,
            (_, Endpoint::Spine(b)) => b.0 == spine.0,
            _ => false,
        };
        assert(hit == touches(g0.links@[i as int], Endpoint::Spine(spine)));
        if hit {
            kill_link(graph, i);
        }
        i = i + 1;
    }
    proof {
        assert forall|i: int| 0 <= i < g0.gpus@.len() implies #[trigger] graph.gpus@[i] == if gpu_hit(
            &g0,
            EventPayload::SpineFail { spine },
            i,
        ) {
            nic_down(g0.gpus@[i])
        } else {
            g0.gpus@[i]
        } by {}
        assert forall|j: int| 0 <= j < g0.leaves@.len() implies #[trigger] graph.leaves@[j] == Leaf {
            failed: g0.leaves@[j].failed || leaf_hit(&g0, EventPayload::SpineFail { spine }, j),
            ..g0.leaves@[j]
        } by {}
        assert forall|j: int| 0 <= j < g0.spines@.len() implies #[trigger] graph.spines@[j] == Spine {
            failed: g0.spines@[j].failed || spine_hit(EventPayload::SpineFail { spine }, j),
            ..g0.spines@[j]
        } by {
            if j == spine.0 {
            } else {
                assert(graph.spines@[j] == g0.spines@[j]);
            }
        }
    }
}

/// Fail one link; a failed host link takes its NIC down.
pub fn fail_link(graph: &mut Graph, id: LinkId)
    requires
        old(graph).gpus@.len() <= u32::MAX,
    ensures
        failed_by(old(graph), final(graph), EventPayload::LinkFail { link: id }),
{
    let ghost g0 = *graph;
    let i = id.0 as usize;
    if i >= graph.links.len() || graph.links[i].id.0 != id.0 {
        proof {
            assert forall|k: int| 0 <= k < g0.leaves@.len() implies #[trigger] graph.leaves@[k] == Leaf {
                failed: g0.leaves@[k].failed || leaf_hit(&g0, EventPayload::LinkFail { link: id }, k),
                ..g0.leaves@[k]
            } by {}
            assert forall|k: int| 0 <= k < g0.spines@.len() implies #[trigger] graph.spines@[k] == Spine {
                failed: g0.spines@[k].failed || spine_hit(EventPayload::LinkFail { link: id }, k),
                ..g0.spines@[k]
            } by {}
        }
        return;
    }
    let l = graph.links[i];
    kill_link(graph, i);
    let nic = match l.src {
        Endpoint::Nic(n) => Some(n),
        _ => match l.dst {
            Endpoint::Nic(n) => Some(n),
            _ => None,
        },
    };
    assert(nic == spec_nic_of(g0.links@[i as int]));
    if let Some(n) = nic {
        fail_gpu_nic(graph, GpuId(n.0));
    }
    proof {
        assert forall|k: int| 0 <= k < g0.gpus@.len() implies #[trigger] graph.gpus@[k] == if gpu_hit(
            &g0,
            EventPayload::LinkFail { link: id },
            k,
        ) {
            nic_down(g0.gpus@[k])
        } else {
            g0.gpus@[k]
        } by {
            if let Some(n) = nic {
                if k == n.0 {
                    assert(NicId(k as u32) == n);
                } else {
                    assert(NicId(k as u32) != n);
                }
            }
        }
        assert forall|k: int| 0 <= k < g0.leaves@.len() implies #[trigger] graph.leaves@[k] == Leaf {
            failed: g0.leaves@[k].failed || leaf_hit(&g0, EventPayload::LinkFail { link: id }, k),
            ..g0.leaves@[k]
        } by {}
        assert forall|k: int| 0 <= k < g0.spines@.len() implies #[trigger] graph.spines@[k] == Spine {
            failed: g0.spines@[k].failed || spine_hit(EventPayload::LinkFail { link: id }, k),
            ..g0.spines@[k]
        } by {}
    }
}

/// Apply a failure event to the graph; other events change nothing.
pub fn apply_fail(graph: &mut Graph, p: &EventPayload)
    requires
        graph_wf(old(graph)),
        old(graph).leaves@.len() <= u32::MAX,
        old(graph).gpus@.len() <= u32::MAX,
    ensures
        failed_by(old(graph), final(graph), *p),
{
    match *p {
        EventPayload::SpineFail { spine } => fail_spine(graph, spine),
        EventPayload::LeafFail { leaf } => fail_leaf(graph, leaf),
        EventPayload::RailFail { rail } => fail_rail(graph, rail),
        EventPayload::LinkFail { link } => fail_link(graph, link),
        _ => {
            proof {
                assert forall|k: int| 0 <= k < graph.leaves@.len() implies #[trigger] graph.leaves@[k] == Leaf {
                    failed: graph.leaves@[k].failed || leaf_hit(graph, *p, k),
                    ..graph.leaves@[k]
                } by {}
                assert forall|k: int| 0 <= k < graph.spines@.len() implies #[trigger] graph.spines@[k] == Spine {
                    failed: graph.spines@[k].failed || spine_hit(*p, k),
                    ..graph.spines@[k]
                } by {}
            }
        },
    }
}

/// A failure keeps the graph's bookkeeping: links stay at their ids and GPUs
/// keep their nodes and rails.
pub proof fn law_failure_keeps_wf(old: &Graph, new: &Graph, p: EventPayload)
    requires
        graph_wf(old),
        failed_by(old, new, p),
    ensures
        graph_wf(new),
        new.leaves@.len() == old.leaves@.len(),
        new.gpus@.len() == old.gpus@.len(),
        new.links@.len() == old.links@.len(),
{
    assert forall|k: int| 0 <= k < new.links@.len() implies (#[trigger] new.links@[k]).id.0 == k by {
        assert(old.links@[k].id.0 == k);
    }
    assert forall|k: int| 0 <= k < new.gpus@.len() implies crate::topo::spec_leaf_index(
        new.params,
        (#[trigger] new.gpus@[k]).node.0 as nat,
        new.gpus@[k].rail.0 as nat,
    ) <= u32::MAX by {
        assert(new.gpus@[k].node == old.gpus@[k].node && new.gpus@[k].rail == old.gpus@[k].rail);
    }
}

/// Failing twice is failing once: a failed link, NIC, leaf or spine stays as
/// the first failure left it.
pub proof fn law_failure_idempotent(g0: &Graph, g1: &Graph, g2: &Graph, p: EventPayload)
    requires
        failed_by(g0, g1, p),
        failed_by(g1, g2, p),
        p is SpineFail || p is LinkFail,
    ensures
        g2.links@ == g1.links@,
        g2.gpus@ == g1.gpus@,
        g2.leaves@ == g1.leaves@,
        g2.spines@ == g1.spines@,
{
    assert forall|i: int| 0 <= i < g1.links@.len() implies g2.links@[i] == g1.links@[i] by {
        if link_hit(g1, p, i) {
            assert(link_hit(g0, p, i));
        }
    }
    assert forall|i: int| 0 <= i < g1.gpus@.len() implies g2.gpus@[i] == g1.gpus@[i] by {
        if gpu_hit(g1, p, i) {
            if let EventPayload::LinkFail { link } = p {
                assert(g1.links@[link.0 as int] == dead(g0.links@[link.0 as int]) || g1.links@[link.0 as int]
                    == g0.links@[link.0 as int]);
                assert(gpu_hit(g0, p, i));
            }
        }
    }
    assert(g2.links@ =~= g1.links@);
    assert(g2.gpus@ =~= g1.gpus@);
    assert(g2.leaves@ =~= g1.leaves@);
    assert(g2.spines@ =~= g1.spines@);
}

} // verus!
