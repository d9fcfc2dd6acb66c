//! The run's invariants I1 to I10, each a check that returns whether it holds.
use vstd::prelude::*;

use crate::arith::{clamp_i128, sat_mul_i128};
use crate::cli_text::{chars_of, is_word};
use crate::epoch::{i2_holds, i3_holds, spec_i2_broken, spec_i3_broken, spec_link_broken, spec_path_hits_failed};
use crate::model::{
    round_half_even, pairwise_alltoall_ps, phase_duration_ps, ring_allreduce_ps, spec_closed_form_ps,
    spec_phase_duration_ps,
};
use crate::paths::{spec_host_up, Path};
use crate::prepare::live_in;
use crate::residual::{cir_at, spec_admissible, Residual};
use crate::table::{map_keys, JobTable};
use crate::topo::{spec_gpu, spec_link, Graph, Node};
use crate::trace::TraceRollup;
use crate::types::{CollectiveKind, Endpoint, GpuId, JobId, JobState, LeafId, LinkId, Policy};

verus! {

broadcast use vstd::std_specs::btree::group_btree_axioms, vstd::laws_cmp::group_laws_cmp;

/// What the mutate-time checks look at.
pub struct Ctx<'a> {
    pub graph: &'a Graph,
    pub residual: &'a Residual,
    pub table: &'a JobTable,
    pub policy: Policy,
    pub inflight_load: &'a [u64],
    pub bytes_epoch: &'a [u64],
    pub inflight_paths: &'a [Path],
}

/// The run's own counters of job outcomes.
#[derive(Clone, Debug, Default, PartialEq, Eq, Structural)]
pub struct LiveCounters {
    pub arrivals: u64,
    pub admits: u64,
    pub rejects: u64,
    pub kills: u64,
    pub completes: u64,
}

/// Entry `i` of a table, zero past the end.
pub open spec fn at_or_zero(s: Seq<u64>, i: int) -> u64 {
    cir_at(s, i)
}

/// I9: under the joint policy no link's committed rate exceeds its
/// admissible rate.
pub open spec fn spec_i9(g: &Graph, res: &Residual, policy: Policy) -> bool {
    policy == Policy::Joint ==> forall|i: int|
        0 <= i < g.links@.len() ==> cir_at(res.cir@, (#[trigger] g.links@[i]).id.0 as int) <= spec_admissible(
            g,
            g.links@[i].id,
        )
}

/// I1: no link carries more than its capacity in flight, and I9.
pub open spec fn spec_i1(ctx: &Ctx) -> bool {
    &&& forall|i: int|
        0 <= i < ctx.graph.links@.len() ==> at_or_zero(ctx.inflight_load@, i) <= (#[trigger] ctx.graph.links@[
            i
        ]).capacity_Bps
    &&& spec_i9(ctx.graph, ctx.residual, ctx.policy)
}

/// I9: under the joint policy no link's committed rate exceeds its admissible
/// rate.
pub fn i9_holds(graph: &Graph, residual: &Residual, policy: Policy) -> (r: bool)
    ensures
        r == spec_i9(graph, residual, policy),
{
    match policy {
        Policy::Naive => true,
        Policy::Joint => {
            let mut i: usize = 0;
            while i < graph.links.len()
                invariant
                    policy == Policy::Joint,
                    i <= graph.links@.len(),
                    forall|k: int|
                        0 <= k < i ==> cir_at(residual.cir@, (#[trigger] graph.links@[k]).id.0 as int)
                            <= spec_admissible(graph, graph.links@[k].id),
                decreases graph.links@.len() - i,
            {
                let link = graph.links[i];
                let e = link.id.0 as usize;
                let cir = if e < residual.cir.len() {
                    residual.cir[e]
                } else {
                    0
                };
                if cir > Residual::admissible(graph, link.id) {
                    return false;
                }
                i = i + 1;
            }
            true
        },
    }
}

/// I1: no link carries more than its capacity in flight; under the joint
/// policy also I9.
pub fn i1_holds(ctx: &Ctx) -> (r: bool)
    ensures
        r == spec_i1(ctx),
{
    let mut i: usize = 0;
    while i < ctx.graph.links.len()
        invariant
            i <= ctx.graph.links@.len(),
            forall|k: int|
                0 <= k < i ==> at_or_zero(ctx.inflight_load@, k) <= (#[trigger] ctx.graph.links@[k]).capacity_Bps,
        decreases ctx.graph.links@.len() - i,
    {
        let load = if i < ctx.inflight_load.len() {
            ctx.inflight_load[i]
        } else {
            0
        };
        if load > ctx.graph.links[i].capacity_Bps {
            return false;
        }
        i = i + 1;
    }
    i9_holds(ctx.graph, ctx.residual, ctx.policy)
}

/// I2 on the context.
pub fn i2_ok(ctx: &Ctx) -> (r: bool)
    ensures
        r == (!spec_i2_broken(ctx.graph, ctx.bytes_epoch@) && forall|i: int|
            0 <= i < ctx.graph.links@.len() && (#[trigger] ctx.graph.links@[i]).failed ==> ctx.graph.links@[i].capacity_Bps
                == 0),
{
    i2_holds(ctx.graph, ctx.bytes_epoch)
}

/// Whether a list of links runs over a broken one.
pub fn path_hits_failed(graph: &Graph, links: &[LinkId]) -> (r: bool)
    ensures
        r == spec_path_hits_failed(graph, links@),
{
    let mut i: usize = 0;
    while i < links.len()
        invariant
            i <= links@.len(),
            forall|k: int| 0 <= k < i ==> !spec_link_broken(graph, #[trigger] links@[k]),
        decreases links@.len() - i,
    {
        let e = links[i];
        let broken = match graph.link(e) {
            None => true,
            Some(l) => l.failed || endpoint_failed(graph, l.src) || endpoint_failed(graph, l.dst),
        };
        if broken {
            return true;
        }
        i = i + 1;
    }
    false
}

fn endpoint_failed(graph: &Graph, ep: Endpoint) -> (r: bool)
    ensures
        r == crate::epoch::spec_endpoint_failed(graph, ep),
{
    match ep {
        Endpoint::Spine(s) => if (s.0 as usize) < graph.spines.len() {
            graph.spines[s.0 as usize].failed
        } else {
            true
        },
        Endpoint::Leaf(l) => if (l.0 as usize) < graph.leaves.len() {
            graph.leaves[l.0 as usize].failed
        } else {
            true
        },
        Endpoint::Nic(n) => match graph.gpu(GpuId(n.0)) {
            Some(x) => match x.avail {
                crate::types::GpuAvail::Present => false,
                _ => true,
            },
            None => true,
        },
    }
}

/// I3 on the context: I3, and no flow in flight runs over a broken link.
pub open spec fn spec_i3_ok(ctx: &Ctx) -> bool {
    &&& !spec_i3_broken(ctx.graph, ctx.table)
    &&& forall|k: int|
        0 <= k < ctx.inflight_paths@.len() ==> !spec_path_hits_failed(ctx.graph, (#[trigger] ctx.inflight_paths@[k]).links@)
}

pub fn i3_ok(ctx: &Ctx) -> (r: bool)
    ensures
        r == spec_i3_ok(ctx),
{
    if !i3_holds(ctx.graph, ctx.table) {
        return false;
    }
    let mut k: usize = 0;
    while k < ctx.inflight_paths.len()
        invariant
            k <= ctx.inflight_paths@.len(),
            forall|j: int|
                0 <= j < k ==> !spec_path_hits_failed(ctx.graph, (#[trigger] ctx.inflight_paths@[j]).links@),
        decreases ctx.inflight_paths@.len() - k,
    {
        if path_hits_failed(ctx.graph, ctx.inflight_paths[k].links.as_slice()) {
            return false;
        }
        k = k + 1;
    }
    true
}

/// I4: every occupied GPU exists, and every bound job binds exactly its GPU
/// count of existing GPUs.
pub open spec fn spec_i4(g: &Graph, table: &JobTable) -> bool {
    &&& forall|x: u32| #[trigger] table.occ.by_gpu@.contains_key(x) ==> spec_gpu(g, GpuId(x)) is Some
    &&& forall|id: u32|
        #[trigger] table.by_id@.contains_key(id) && table.by_id@[id].binding is Some ==> {
            let m = table.by_id@[id].binding->0.map@;
            &&& m.len() == table.by_id@[id].spec.gpu_count
            &&& forall|k: int| 0 <= k < m.len() ==> spec_gpu(g, (#[trigger] m[k]).1) is Some
        }
}

pub fn i4_holds(graph: &Graph, table: &JobTable) -> (r: bool)
    ensures
        r == spec_i4(graph, table),
{
    let gs = map_keys(&table.occ.by_gpu);
    let mut i: usize = 0;
    while i < gs.len()
        invariant
            i <= gs@.len(),
            gs@.to_set() == table.occ.by_gpu@.dom(),
            forall|j: int| 0 <= j < i ==> spec_gpu(graph, GpuId(#[trigger] gs@[j])) is Some,
        decreases gs@.len() - i,
    {
        if graph.gpu(GpuId(gs[i])).is_none() {
            assert(gs@.to_set().contains(gs@[i as int]));
            return false;
        }
        i = i + 1;
    }
    assert forall|x: u32| #[trigger] table.occ.by_gpu@.contains_key(x) implies spec_gpu(graph, GpuId(x)) is Some by {
        assert(gs@.to_set().contains(x));
        let j = choose|j: int| 0 <= j < gs@.len() && gs@[j] == x;
        assert(spec_gpu(graph, GpuId(gs@[j])) is Some);
    }
    let ids = map_keys(&table.by_id);
    let mut i: usize = 0;
    while i < ids.len()
        invariant
            i <= ids@.len(),
            ids@.to_set() == table.by_id@.dom(),
            forall|j: int|
                0 <= j < i && table.by_id@[#[trigger] ids@[j]].binding is Some ==> {
                    let m = table.by_id@[ids@[j]].binding->0.map@;
                    &&& m.len() == table.by_id@[ids@[j]].spec.gpu_count
                    &&& forall|k: int| 0 <= k < m.len() ==> spec_gpu(graph, (#[trigger] m[k]).1) is Some
                },
        decreases ids@.len() - i,
    {
        let id = ids[i];
        assert(ids@.to_set().contains(id));
        assert(table.by_id@.contains_key(id));
        match table.by_id.get(&id) {
            Some(rec) => match &rec.binding {
                Some(b) => {
                    assert(table.by_id@[id].binding->0.map@ == b.map@);
                    if b.map.len() != rec.spec.gpu_count as usize {
                        return false;
                    }
                    let mut k: usize = 0;
                    while k < b.map.len()
                        invariant
                            k <= b.map@.len(),
                            table.by_id@.contains_key(id),
                            table.by_id@[id].binding is Some,
                            table.by_id@[id].binding->0.map@ == b.map@,
                            forall|q: int| 0 <= q < k ==> spec_gpu(graph, (#[trigger] b.map@[q]).1) is Some,
                        decreases b.map@.len() - k,
                    {
                        if graph.gpu(b.map[k].1).is_none() {
                            assert(spec_gpu(graph, table.by_id@[id].binding->0.map@[k as int].1) is None);
                            return false;
                        }
                        k = k + 1;
                    }
                },
                None => {},
            },
            None => {},
        }
        i = i + 1;
    }
    assert forall|id: u32| #[trigger] table.by_id@.contains_key(id) && table.by_id@[id].binding is Some implies {
        let m = table.by_id@[id].binding->0.map@;
        &&& m.len() == table.by_id@[id].spec.gpu_count
        &&& forall|k: int| 0 <= k < m.len() ==> spec_gpu(graph, (#[trigger] m[k]).1) is Some
    } by {
        assert(ids@.to_set().contains(id));
        let j = choose|j: int| 0 <= j < ids@.len() && ids@[j] == id;
        assert(table.by_id@[ids@[j]].binding is Some);
    }
    true
}

/// Rank `k` of live job `id` is bound.
pub open spec fn holds_at(table: &JobTable, id: u32, k: int) -> bool {
    &&& live_in(table, id)
    &&& table.by_id@[id].binding is Some
    &&& 0 <= k < table.by_id@[id].binding->0.map@.len()
}

/// The GPU of rank `k` of job `id`.
pub open spec fn gpu_at(table: &JobTable, id: u32, k: int) -> GpuId {
    table.by_id@[id].binding->0.map@[k].1
}

/// I5: no GPU is bound twice among the live jobs, and each bound GPU is
/// occupied by its job.
pub open spec fn spec_i5(table: &JobTable) -> bool {
    &&& forall|a: u32, ka: int, b: u32, kb: int|
        holds_at(table, a, ka) && holds_at(table, b, kb) && (a != b || ka != kb) ==> #[trigger] gpu_at(table, a, ka)
            != #[trigger] gpu_at(table, b, kb)
    &&& forall|a: u32, ka: int|
        holds_at(table, a, ka) ==> table.occ.by_gpu@.get(#[trigger] gpu_at(table, a, ka).0) == Some(JobId(a))
}

pub fn i5_holds(table: &JobTable) -> (r: bool)
    ensures
        r == spec_i5(table),
{
    let ids = map_keys(&table.by_id);
    let mut seen: Vec<u32> = Vec::new();
    let ghost mut origin: Seq<(u32, int)> = Seq::empty();
    let mut i: usize = 0;
    while i < ids.len()
        invariant
            i <= ids@.len(),
            ids@.to_set() == table.by_id@.dom(),
            ids@.no_duplicates(),
            seen@.len() == origin.len(),
            forall|t: int|
                0 <= t < origin.len() ==> holds_at(table, (#[trigger] origin[t]).0, origin[t].1) && seen@[t]
                    == gpu_at(table, origin[t].0, origin[t].1).0 && ids@.take(i as int).contains(origin[t].0),
            forall|t: int, u: int| 0 <= t < u < origin.len() ==> #[trigger] seen@[t] != #[trigger] seen@[u],
            forall|a: u32, ka: int|
                #[trigger] holds_at(table, a, ka) && ids@.take(i as int).contains(a) ==> exists|t: int|
                    0 <= t < origin.len() && origin[t] == (a, ka),
            forall|a: u32, ka: int|
                #[trigger] holds_at(table, a, ka) && ids@.take(i as int).contains(a) ==> table.occ.by_gpu@.get(
                    gpu_at(table, a, ka).0,
                ) == Some(JobId(a)),
        decreases ids@.len() - i,
    {
        let id = ids[i];
        assert(ids@.to_set().contains(id));
        assert(!ids@.take(i as int).contains(id)) by {
            if ids@.take(i as int).contains(id) {
                let j = choose|j: int| 0 <= j < i && #[trigger] ids@.take(i as int)[j] == id;
                assert(ids@[j] == ids@[i as int]);
            }
        }
        assert forall|x: u32| ids@.take(i + 1).contains(x) <==> ids@.take(i as int).contains(x) || x == id by {
            if ids@.take(i as int).contains(x) {
                let j = choose|j: int| 0 <= j < i && #[trigger] ids@.take(i as int)[j] == x;
                assert(ids@.take(i + 1)[j] == x);
            }
            if x == id {
                assert(ids@.take(i + 1)[i as int] == x);
            }
            if ids@.take(i + 1).contains(x) {
                let j = choose|j: int| 0 <= j <= i && #[trigger] ids@.take(i + 1)[j] == x;
                if j < i {
                    assert(ids@.take(i as int)[j] == x);
                }
            }
        }
        let ghost base = origin.len();
        match table.by_id.get(&id) {
            Some(rec) => {
                let live = match rec.state {
                    JobState::Computing | JobState::Collecting => true,
                    _ => false,
                };
                if live {
                    match &rec.binding {
                        Some(b) => {
                            let mut k: usize = 0;
                            while k < b.map.len()
                                invariant
                                    rec == table.by_id@[id],
                                    rec.binding == Some(*b),
                                    live_in(table, id),
                                    k <= b.map@.len(),
                                    base <= origin.len(),
                                    origin.len() == base + k,
                                    seen@.len() == origin.len(),
                                    !ids@.take(i as int).contains(id),
                                    forall|x: u32| ids@.take(i + 1).contains(x) <==> ids@.take(i as int).contains(x) || x == id,
                                    forall|t: int|
                                        0 <= t < origin.len() ==> holds_at(table, (#[trigger] origin[t]).0, origin[t].1)
                                            && seen@[t] == gpu_at(table, origin[t].0, origin[t].1).0 && ids@.take(
                                            i + 1,
                                        ).contains(origin[t].0),
                                    forall|t: int| 0 <= t < base ==> (#[trigger] origin[t]).0 != id,
                                    forall|t: int| base <= t < origin.len() ==> (#[trigger] origin[t]) == (id, t - base),
                                    forall|t: int, u: int| 0 <= t < u < origin.len() ==> #[trigger] seen@[t] != #[trigger] seen@[u],
                                    forall|a: u32, ka: int|
                                        #[trigger] holds_at(table, a, ka) && ids@.take(i as int).contains(a) ==> exists|t: int|
                                            0 <= t < base && origin[t] == (a, ka),
                                    forall|a: u32, ka: int|
                                        #[trigger] holds_at(table, a, ka) && ids@.take(i as int).contains(a)
                                            ==> table.occ.by_gpu@.get(gpu_at(table, a, ka).0) == Some(JobId(a)),
                                    forall|q: int|
                                        0 <= q < k ==> table.occ.by_gpu@.get(gpu_at(table, id, q).0) == Some(JobId(id)),
                                decreases b.map@.len() - k,
                            {
                                let g = b.map[k].1;
                                assert(gpu_at(table, id, k as int) == g);
                                match index_of_u32(&seen, g.0) {
                                    Some(t) => {
                                        proof {
                                            let o = origin[t as int];
                                            assert(holds_at(table, o.0, o.1));
                                            assert(holds_at(table, id, k as int));
                                            assert(o != (id, k as int));
                                            assert(gpu_at(table, o.0, o.1) == gpu_at(table, id, k as int));
                                        }
                                        return false;
                                    },
                                    None => {},
                                }
                                match table.occ.by_gpu.get(&g.0) {
                                    Some(j) => {
                                        if j.0 != id {
                                            return false;
                                        }
                                    },
                                    None => {
                                        return false;
                                    },
                                }
                                let ghost o_origin = origin;
                                seen.push(g.0);
                                proof {
                                    origin = origin.push((id, k as int));
                                    assert forall|a: u32, ka: int| #[trigger] holds_at(table, a, ka) && ids@.take(
                                        i as int,
                                    ).contains(a) implies exists|t: int| 0 <= t < base && origin[t] == (a, ka) by {
                                        let t = choose|t: int| 0 <= t < base && o_origin[t] == (a, ka);
                                        assert(origin[t] == o_origin[t]);
                                    }
                                }
                                k = k + 1;
                            }
                            proof {
                                assert forall|a: u32, ka: int| #[trigger] holds_at(table, a, ka) && ids@.take(
                                    i + 1,
                                ).contains(a) implies exists|t: int| 0 <= t < origin.len() && origin[t] == (a, ka) by {
                                    if a == id {
                                        assert(origin[base + ka] == (a, ka));
                                    } else {
                                        let t = choose|t: int| 0 <= t < base && origin[t] == (a, ka);
                                    }
                                }
                            }
                        },
                        None => {},
                    }
                }
            },
            None => {},
        }
        i = i + 1;
    }
    assert(ids@.take(ids@.len() as int) =~= ids@);
    proof {
        assert forall|a: u32, ka: int, b: u32, kb: int|
            holds_at(table, a, ka) && holds_at(table, b, kb) && (a != b || ka != kb) implies #[trigger] gpu_at(table, a, ka)
            != #[trigger] gpu_at(table, b, kb) by {
            assert(ids@.to_set().contains(a));
            assert(ids@.to_set().contains(b));
            let ta = choose|t: int| 0 <= t < origin.len() && origin[t] == (a, ka);
            let tb = choose|t: int| 0 <= t < origin.len() && origin[t] == (b, kb);
            if ta < tb {
                assert(seen@[ta] != seen@[tb]);
            } else if tb < ta {
                assert(seen@[tb] != seen@[ta]);
            }
        }
        assert forall|a: u32, ka: int| holds_at(table, a, ka) implies table.occ.by_gpu@.get(
            #[trigger] gpu_at(table, a, ka).0,
        ) == Some(JobId(a)) by {
            assert(ids@.to_set().contains(a));
        }
    }
    true
}

/// Position of the first `x` in `v`.
fn index_of_u32(v: &Vec<u32>, x: u32) -> (r: Option<usize>)
    ensures
        r matches Some(t) ==> t < v@.len() && v@[t as int] == x,
        r is None ==> forall|u: int| 0 <= u < v@.len() ==> v@[u] != x,
{
    let mut t: usize = 0;
    while t < v.len()
        invariant
            t <= v@.len(),
            forall|u: int| 0 <= u < t ==> v@[u] != x,
        decreases v@.len() - t,
    {
        if v[t] == x {
            return Some(t);
        }
        t = t + 1;
    }
    None
}

/// I6: the live counters equal the rolled-up traces.
pub fn i6_holds(live: &LiveCounters, log: &TraceRollup) -> (r: bool)
    ensures
        r == (live.arrivals == log.arrivals && live.admits == log.admits && live.rejects == log.rejects
            && live.kills == log.kills && live.completes == log.completes),
{
    live.arrivals == log.arrivals && live.admits == log.admits && live.rejects == log.rejects && live.kills
        == log.kills && live.completes == log.completes
}

/// Phases of a collective of `p` ranks.
pub open spec fn spec_phases_of(kind: CollectiveKind, p: nat) -> nat {
    match kind {
        CollectiveKind::RingAllReduce => if p >= 1 {
            (2 * (p - 1)) as nat
        } else {
            0
        },
        CollectiveKind::PairwiseAllToAll => if p >= 1 {
            (p - 1) as nat
        } else {
            0
        },
    }
}

/// One I7 case: summing equal-bandwidth phases agrees with the closed form
/// within 1 ps.
pub open spec fn spec_i7_case(p: nat, m: nat, b: nat, kind: CollectiveKind) -> bool {
    let sum = clamp_i128(
        spec_phases_of(kind, p) * spec_phase_duration_ps(
            m / if p >= 1 {
                p
            } else {
                1
            },
            b,
        ),
    );
    let closed = spec_closed_form_ps(kind, p, m, b);
    -1 <= sum - closed <= 1
}

fn i7_case(p: u32, payload: u64, b_eff: u64, kind: CollectiveKind) -> (r: bool)
    requires
        b_eff > 0,
        p <= 1_000_000,
    ensures
        r == spec_i7_case(p as nat, payload as nat, b_eff as nat, kind),
{
    let closed = match kind {
        CollectiveKind::RingAllReduce => ring_allreduce_ps(p, payload, b_eff),
        CollectiveKind::PairwiseAllToAll => pairwise_alltoall_ps(p, payload, b_eff),
    };
    let n_phases: i128 = match kind {
        CollectiveKind::RingAllReduce => if p >= 1 {
            2 * (p as i128 - 1)
        } else {
            0
        },
        CollectiveKind::PairwiseAllToAll => if p >= 1 {
            p as i128 - 1
        } else {
            0
        },
    };
    let chunk = payload / (if p >= 1 {
        p as u64
    } else {
        1
    });
    let d = phase_duration_ps(chunk, b_eff);
    let sum = sat_mul_i128(n_phases, d);
    if sum >= closed {
        sum - closed <= 1
    } else {
        closed - sum <= 1
    }
}

/// I7: for 8 ranks, 64 MiB and 50 GB/s, summing the equal-bandwidth phases of
/// each collective agrees with its closed form within 1 ps.
pub fn i7_holds() -> (r: bool)
    ensures
        r == (spec_i7_case(8, 67_108_864, 50_000_000_000, CollectiveKind::RingAllReduce) && spec_i7_case(
            8,
            67_108_864,
            50_000_000_000,
            CollectiveKind::PairwiseAllToAll,
        )),
{
    i7_case(8, 67_108_864, 50_000_000_000, CollectiveKind::RingAllReduce) && i7_case(
        8,
        67_108_864,
        50_000_000_000,
        CollectiveKind::PairwiseAllToAll,
    )
}

/// I8: event times strictly increase in `(ps, seq)`.
pub fn i8_holds(prev: Option<(i128, u64)>, cur: (i128, u64)) -> (r: bool)
    ensures
        r == match prev {
            None => true,
            Some((pps, pseq)) => cur.0 > pps || (cur.0 == pps && cur.1 > pseq),
        },
{
    match prev {
        None => true,
        Some((pps, pseq)) => cur.0 > pps || (cur.0 == pps && cur.1 > pseq),
    }
}

/// The leaf a GPU's uplink lands on.
pub open spec fn up_leaf(g: &Graph, gid: GpuId) -> Option<LeafId> {
    match spec_host_up(g, gid) {
        Some(e) => match spec_link(g, e) {
            Some(l) => match l.dst {
                Endpoint::Leaf(x) => Some(x),
                _ => None,
            },
            None => None,
        },
        None => None,
    }
}

/// A node carries one GPU per rail, each on its own rail and its own leaf.
pub open spec fn node_ok(g: &Graph, n: Node) -> bool {
    let s = n.gpus@;
    &&& s.len() == g.params.rails
    &&& forall|j: int| 0 <= j < s.len() ==> spec_gpu(g, #[trigger] s[j]) is Some && up_leaf(g, s[j]) is Some
    &&& forall|a: int, b: int|
        0 <= a < b < s.len() ==> spec_gpu(g, #[trigger] s[a])->0.rail != spec_gpu(g, #[trigger] s[b])->0.rail
            && up_leaf(g, s[a]) != up_leaf(g, s[b])
}

/// I10: every node's NICs sit on distinct rails and distinct leaves.
pub open spec fn spec_i10(g: &Graph) -> bool {
    forall|i: int| 0 <= i < g.nodes@.len() ==> node_ok(g, #[trigger] g.nodes@[i])
}

fn node_holds(graph: &Graph, n: &Node) -> (r: bool)
    ensures
        r == node_ok(graph, *n),
{
    if n.gpus.len() as u64 != graph.params.rails as u64 {
        return false;
    }
    let mut rails: Vec<u8> = Vec::new();
    let mut leaves: Vec<u32> = Vec::new();
    let mut j: usize = 0;
    while j < n.gpus.len()
        invariant
            j <= n.gpus@.len(),
            rails@.len() == j,
            leaves@.len() == j,
            forall|q: int|
                0 <= q < j ==> spec_gpu(graph, #[trigger] n.gpus@[q]) is Some && up_leaf(graph, n.gpus@[q]) is Some
                    && rails@[q] == spec_gpu(graph, n.gpus@[q])->0.rail.0 && up_leaf(graph, n.gpus@[q]) == Some(
                    LeafId(leaves@[q]),
                ),
        decreases n.gpus@.len() - j,
    {
        let gid = n.gpus[j];
        let gpu = match graph.gpu(gid) {
            Some(x) => x,
            None => return false,
        };
        let up = match graph.host_up(gid) {
            Some(e) => e,
            None => {
                assert(up_leaf(graph, n.gpus@[j as int]) is None);
                return false;
            },
        };
        let link = match graph.link(up) {
            Some(l) => l,
            None => {
                assert(up_leaf(graph, n.gpus@[j as int]) is None);
                return false;
            },
        };
        match link.dst {
            Endpoint::Leaf(l) => {
                rails.push(gpu.rail.0);
                leaves.push(l.0);
            },
            _ => {
                assert(up_leaf(graph, n.gpus@[j as int]) is None);
                return false;
            },
        }
        j = j + 1;
    }
    let mut a: usize = 0;
    while a < rails.len()
        invariant
            a <= rails@.len(),
            rails@.len() == n.gpus@.len(),
            leaves@.len() == n.gpus@.len(),
            forall|q: int|
                0 <= q < n.gpus@.len() ==> spec_gpu(graph, #[trigger] n.gpus@[q]) is Some && up_leaf(graph, n.gpus@[q]) is Some
                    && rails@[q] == spec_gpu(graph, n.gpus@[q])->0.rail.0 && up_leaf(graph, n.gpus@[q]) == Some(
                    LeafId(leaves@[q]),
                ),
            forall|x: int, y: int| 0 <= x < a && x < y < rails@.len() ==> rails@[x] != rails@[y] && leaves@[x] != leaves@[y],
        decreases rails@.len() - a,
    {
        let mut b: usize = a + 1;
        while b < rails.len()
            invariant
                a < rails@.len(),
                a + 1 <= b <= rails@.len(),
                rails@.len() == leaves@.len(),
                rails@.len() == n.gpus@.len(),
                forall|q: int|
                    0 <= q < n.gpus@.len() ==> spec_gpu(graph, #[trigger] n.gpus@[q]) is Some && up_leaf(graph, n.gpus@[q]) is Some
                        && rails@[q] == spec_gpu(graph, n.gpus@[q])->0.rail.0 && up_leaf(graph, n.gpus@[q]) == Some(
                        LeafId(leaves@[q]),
                    ),
                forall|y: int| a < y < b ==> rails@[a as int] != rails@[y] && leaves@[a as int] != leaves@[y],
            decreases rails@.len() - b,
        {
            if rails[a] == rails[b] || leaves[a] == leaves[b] {
                proof {
                    let s = n.gpus@;
                    assert(spec_gpu(graph, s[a as int]) is Some && spec_gpu(graph, s[b as int]) is Some);
                    if rails@[a as int] == rails@[b as int] {
                        assert(spec_gpu(graph, s[a as int])->0.rail == spec_gpu(graph, s[b as int])->0.rail);
                    } else {
                        assert(up_leaf(graph, s[a as int]) == up_leaf(graph, s[b as int]));
                    }
                }
                return false;
            }
            b = b + 1;
        }
        a = a + 1;
    }
    proof {
        let s = n.gpus@;
        assert forall|x: int, y: int| 0 <= x < y < s.len() implies spec_gpu(graph, #[trigger] s[x])->0.rail
            != spec_gpu(graph, #[trigger] s[y])->0.rail && up_leaf(graph, s[x]) != up_leaf(graph, s[y]) by {
            assert(rails@[x] != rails@[y] && leaves@[x] != leaves@[y]);
        }
    }
    true
}

/// I10: every node carries one GPU per rail, each on its own rail and leaf.
pub fn i10_holds(graph: &Graph) -> (r: bool)
    ensures
        r == spec_i10(graph),
{
    let mut i: usize = 0;
    while i < graph.nodes.len()
        invariant
            i <= graph.nodes@.len(),
            forall|k: int| 0 <= k < i ==> node_ok(graph, #[trigger] graph.nodes@[k]),
        decreases graph.nodes@.len() - i,
    {
        if !node_holds(graph, &graph.nodes[i]) {
            return false;
        }
        i = i + 1;
    }
    true
}

/// Whether the named mutate-time invariant is broken; I6, I8 and unknown names
/// never are.
pub fn named_broken(ctx: &Ctx, id: &str) -> (r: bool)
    ensures
        r == if id@ == "I1"@ {
            !spec_i1(ctx)
        } else if id@ == "I2"@ {
            !(!spec_i2_broken(ctx.graph, ctx.bytes_epoch@) && forall|i: int|
                0 <= i < ctx.graph.links@.len() && (#[trigger] ctx.graph.links@[i]).failed
                    ==> ctx.graph.links@[i].capacity_Bps == 0)
        } else if id@ == "I3"@ {
            !spec_i3_ok(ctx)
        } else if id@ == "I4"@ {
            !spec_i4(ctx.graph, ctx.table)
        } else if id@ == "I5"@ {
            !spec_i5(ctx.table)
        } else if id@ == "I7"@ {
            !(spec_i7_case(8, 67_108_864, 50_000_000_000, CollectiveKind::RingAllReduce) && spec_i7_case(
                8,
                67_108_864,
                50_000_000_000,
                CollectiveKind::PairwiseAllToAll,
            ))
        } else if id@ == "I9"@ {
            !spec_i9(ctx.graph, ctx.residual, ctx.policy)
        } else if id@ == "I10"@ {
            !spec_i10(ctx.graph)
        } else {
            false
        },
{
    let c = chars_of(id);
    if is_word(&c, "I1") {
        !i1_holds(ctx)
    } else if is_word(&c, "I2") {
        !i2_ok(ctx)
    } else if is_word(&c, "I3") {
        !i3_ok(ctx)
    } else if is_word(&c, "I4") {
        !i4_holds(ctx.graph, ctx.table)
    } else if is_word(&c, "I5") {
        !i5_holds(ctx.table)
    } else if is_word(&c, "I7") {
        !i7_holds()
    } else if is_word(&c, "I9") {
        !i9_holds(ctx.graph, ctx.residual, ctx.policy)
    } else if is_word(&c, "I10") {
        !i10_holds(ctx.graph)
    } else {
        false
    }
}

/// The first broken mutate-time invariant in order I1, I2, I3, I4, I5, I7,
/// I9, I10 (I6 and I8 are checked elsewhere).
pub fn first_mutate_broken(ctx: &Ctx) -> (r: Option<&'static str>)
    ensures
        r is None <==> (named_ok_all(ctx)),
        r matches Some(s) ==> named_first(ctx, s@),
{
    if !i1_holds(ctx) {
        return Some("I1");
    }
    if !i2_ok(ctx) {
        return Some("I2");
    }
    if !i3_ok(ctx) {
        return Some("I3");
    }
    if !i4_holds(ctx.graph, ctx.table) {
        return Some("I4");
    }
    if !i5_holds(ctx.table) {
        return Some("I5");
    }
    if !i7_holds() {
        return Some("I7");
    }
    if !i9_holds(ctx.graph, ctx.residual, ctx.policy) {
        return Some("I9");
    }
    if !i10_holds(ctx.graph) {
        return Some("I10");
    }
    None
}

/// I2 as the context sees it.
pub open spec fn spec_i2_ok(ctx: &Ctx) -> bool {
    !spec_i2_broken(ctx.graph, ctx.bytes_epoch@) && forall|i: int|
        0 <= i < ctx.graph.links@.len() && (#[trigger] ctx.graph.links@[i]).failed ==> ctx.graph.links@[i].capacity_Bps
            == 0
}

/// I7 on its fixed cases.
pub open spec fn spec_i7() -> bool {
    spec_i7_case(8, 67_108_864, 50_000_000_000, CollectiveKind::RingAllReduce) && spec_i7_case(
        8,
        67_108_864,
        50_000_000_000,
        CollectiveKind::PairwiseAllToAll,
    )
}

/// Every mutate-time invariant holds.
pub open spec fn named_ok_all(ctx: &Ctx) -> bool {
    &&& spec_i1(ctx)
    &&& spec_i2_ok(ctx)
    &&& spec_i3_ok(ctx)
    &&& spec_i4(ctx.graph, ctx.table)
    &&& spec_i5(ctx.table)
    &&& spec_i7()
    &&& spec_i9(ctx.graph, ctx.residual, ctx.policy)
    &&& spec_i10(ctx.graph)
}

/// `name` is the first broken invariant in check order.
pub open spec fn named_first(ctx: &Ctx, name: Seq<char>) -> bool {
    if !spec_i1(ctx) {
        name == "I1"@
    } else if !spec_i2_ok(ctx) {
        name == "I2"@
    } else if !spec_i3_ok(ctx) {
        name == "I3"@
    } else if !spec_i4(ctx.graph, ctx.table) {
        name == "I4"@
    } else if !spec_i5(ctx.table) {
        name == "I5"@
    } else if !spec_i7() {
        name == "I7"@
    } else if !spec_i9(ctx.graph, ctx.residual, ctx.policy) {
        name == "I9"@
    } else {
        name == "I10"@
    }
}

/// On its fixed cases the phase sum equals the closed form exactly, so I7
/// always holds.
pub proof fn law_i7_holds()
    ensures
        spec_i7(),
{
    let m: nat = 67_108_864;
    let b: nat = 50_000_000_000;
    assert(round_half_even(8_388_608 * 1_000_000_000_000, b) == 167_772_160) by {
        assert(8_388_608nat * 1_000_000_000_000nat == 167_772_160nat * b);
    }
    assert(round_half_even(14 * m * 1_000_000_000_000, 8 * b) == 2_348_810_240) by {
        assert(14 * m * 1_000_000_000_000nat == 2_348_810_240nat * (8 * b));
    }
    assert(round_half_even(7 * m * 1_000_000_000_000, 8 * b) == 1_174_405_120) by {
        assert(7 * m * 1_000_000_000_000nat == 1_174_405_120nat * (8 * b));
    }
    assert(m / 8 == 8_388_608);
}

} // verus!
