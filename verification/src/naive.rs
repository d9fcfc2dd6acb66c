//! First-fit placement with ECMP routes: the naive admission policy.
use vstd::prelude::*;
use std::collections::BTreeMap;

use crate::arith::{clamp_i128, sat_add_i128};
use crate::fel::{events_sorted, Event, Fel};
use crate::mix::JobSpec;
use crate::model::{phase_duration_ps, spec_phase_duration_ps};
use crate::paths::{copy_path, k_shortest, paths_view, spec_candidates, Path, PathMode};
use crate::residual::{cir_at, sat_add, spec_physical, Residual};
use crate::table::{
    communicators, rank_map, rank_order, node_rail_before, spec_is_free, spec_n_phases, existing_count, Binding, Flow, JobRec, JobTable,
    Occupancy,
};
use crate::topo::{graph_wf, spec_gpu, Graph};
use crate::types::{
    AdmitSeq, BindingKind, EventKind, EventPayload, FlowId, GpuId, JobId, JobState, LinkId, Rank,
    RejectCode, SimTime,
};
use crate::waterfill::{feasible, load_on, lo_at, water_fill};

verus! {

broadcast use vstd::std_specs::btree::group_btree_axioms, vstd::laws_cmp::group_laws_cmp;

/// Node-major, then local rank: `GpuId(node * r + rank)`, which is every id
/// below `n * r` in order.
pub fn gpu_scan_order(n: u32, r: u32) -> (s: Vec<GpuId>)
    requires
        n * r <= u32::MAX + 1,
    ensures
        s@ == Seq::new((n * r) as nat, |k: int| GpuId(k as u32)),
{
    let mut out: Vec<GpuId> = Vec::new();
    let mut ni: u32 = 0;
    while ni < n
        invariant
            n * r <= u32::MAX + 1,
            ni <= n,
            out@ == Seq::new((ni * r) as nat, |k: int| GpuId(k as u32)),
        decreases n - ni,
    {
        assert(ni * r + r <= n * r) by (nonlinear_arith)
            requires
                ni < n,
        ;
        let mut ri: u32 = 0;
        while ri < r
            invariant
                ni < n,
                ni * r + r <= u32::MAX + 1,
                ri <= r,
                out@ == Seq::new((ni * r + ri) as nat, |k: int| GpuId(k as u32)),
            decreases r - ri,
        {
            out.push(GpuId(ni * r + ri));
            ri = ri + 1;
            assert(out@ =~= Seq::new((ni * r + ri) as nat, |k: int| GpuId(k as u32)));
        }
        assert((ni + 1) * r == ni * r + r) by (nonlinear_arith);
        ni = ni + 1;
    }
    out
}

/// The free GPUs in scan order, up to `count` of them.
pub open spec fn spec_first_fit(occ: Map<u32, JobId>, graph: &Graph, count: nat) -> Seq<GpuId> {
    let free = Seq::new(
        (graph.params.nodes * graph.params.gpus_per_node) as nat,
        |k: int| GpuId(k as u32),
    ).filter(|g: GpuId| spec_is_free(occ, graph, g));
    if free.len() <= count {
        free
    } else {
        free.take(count as int)
    }
}

/// The first `count` free GPUs in scan order (fewer when fewer are free).
pub fn first_fit(occ: &Occupancy, graph: &Graph, gpu_count: u32) -> (r: Vec<GpuId>)
    requires
        graph.params.nodes * graph.params.gpus_per_node <= u32::MAX + 1,
    ensures
        r@ == spec_first_fit(occ.by_gpu@, graph, gpu_count as nat),
{
    let scan = gpu_scan_order(graph.params.nodes, graph.params.gpus_per_node);
    let ghost pred = |g: GpuId| spec_is_free(occ.by_gpu@, graph, g);
    let mut out: Vec<GpuId> = Vec::new();
    let mut i: usize = 0;
    while i < scan.len() && out.len() < gpu_count as usize
        invariant
            pred == (|g: GpuId| spec_is_free(occ.by_gpu@, graph, g)),
            i <= scan@.len(),
            out@ == scan@.take(i as int).filter(pred),
            out@.len() <= gpu_count,
        decreases scan@.len() - i,
    {
        proof {
            assert(scan@.take(i + 1).drop_last() =~= scan@.take(i as int));
            reveal_with_fuel(Seq::filter, 1);
        }
        if occ.is_free(scan[i], graph) {
            out.push(scan[i]);
        }
        assert(scan@.take(i + 1).last() == scan@[i as int]);
        i = i + 1;
    }
    proof {
        let free = scan@.filter(pred);
        if i == scan@.len() {
            assert(scan@.take(i as int) =~= scan@);
        } else {
            // Enough found: the rest only adds later GPUs.
            lemma_filter_prefix(scan@, pred, i as int);
            assert(free.take(out@.len() as int) =~= out@);
        }
    }
    out
}

pub(crate) proof fn lemma_filter_prefix(s: Seq<GpuId>, pred: spec_fn(GpuId) -> bool, i: int)
    requires
        0 <= i <= s.len(),
    ensures
        s.take(i).filter(pred).len() <= s.filter(pred).len(),
        forall|k: int|
            0 <= k < s.take(i).filter(pred).len() ==> #[trigger] s.filter(pred)[k] == s.take(i).filter(pred)[k],
    decreases s.len() - i,
{
    if i < s.len() {
        lemma_filter_prefix(s, pred, i + 1);
        assert(s.take(i + 1).drop_last() =~= s.take(i));
        reveal_with_fuel(Seq::filter, 1);
        assert(s.take(i + 1).last() == s[i]);
    } else {
        assert(s.take(i) =~= s);
    }
}

/// Whether two GPUs share a node (false when either is unknown).
pub(crate) fn same_node(graph: &Graph, src: GpuId, dst: GpuId) -> (r: bool)
    ensures
        r == (spec_gpu(graph, src) is Some && spec_gpu(graph, dst) is Some && spec_gpu(graph, src)->0.node
            == spec_gpu(graph, dst)->0.node),
{
    match (graph.gpu(src), graph.gpu(dst)) {
        (Some(s), Some(d)) => s.node.0 == d.node.0,
        _ => false,
    }
}

/// The GPUs a binding claims for `job`.
pub open spec fn claimed(map: Seq<(crate::types::Rank, GpuId)>, job: JobId) -> Map<u32, JobId>
    decreases map.len(),
{
    if map.len() == 0 {
        Map::empty()
    } else {
        claimed(map.drop_last(), job).insert(map.last().1.0, job)
    }
}

/// The rate a job commits on each link: the nonzero entries of `dense`.
pub open spec fn committed(dense: Seq<u64>) -> Map<u32, u64> {
    Map::new(|e: u32| (e as int) < dense.len() && dense[e as int] > 0, |e: u32| dense[e as int])
}

/// The route naive admission gives a transfer: the first equal-cost
/// candidate, or the empty route when there is none.
pub open spec fn naive_route(graph: &Graph, residual: &Residual, src: GpuId, dst: GpuId) -> Seq<LinkId> {
    let c = spec_candidates(graph, residual, src, dst, PathMode::Ecmp);
    if c.len() > 0 {
        c[0]
    } else {
        Seq::empty()
    }
}

/// A planned flow of `job` on its naive route.
pub open spec fn naive_flow(graph: &Graph, residual: &Residual, job: JobId, f: Flow) -> bool {
    f.job == job && f.path.links@ == naive_route(graph, residual, f.src, f.dst)
}

/// What is physically left on each link, in graph order: capacity less the
/// committed rate, nothing on a failed link.
pub open spec fn phys_left(graph: &Graph, residual: &Residual) -> Seq<u64> {
    Seq::new(
        graph.links@.len(),
        |i: int| spec_physical(graph.links@[i], cir_at(residual.cir@, graph.links@[i].id.0 as int)),
    )
}

/// A flow's rate fits in what is left on every link of its route.
pub open spec fn within_leftover(left: Seq<u64>, f: Flow) -> bool {
    forall|j: int| 0 <= j < f.path.links@.len() ==> f.rate_Bps <= lo_at(left, (#[trigger] f.path.links@[j]).0 as int)
}

/// A flow's rate counts in the load of every link of its route.
proof fn lemma_load_covers(fl: Seq<Seq<LinkId>>, rate: Seq<u64>, e: LinkId, k: int, f: int)
    requires
        0 <= f < k <= fl.len(),
        k <= rate.len(),
        fl[f].contains(e),
    ensures
        load_on(fl, rate, e, k) >= rate[f],
    decreases k,
{
    if f < k - 1 {
        lemma_load_covers(fl, rate, e, k - 1, f);
    }
}

/// Under a feasible fill no flow gets more than any link of its route has left.
pub(crate) proof fn lemma_feasible_bounds(fl: Seq<Seq<LinkId>>, rate: Seq<u64>, left: Seq<u64>, f: int, j: int)
    requires
        feasible(fl, rate, left),
        rate.len() == fl.len(),
        0 <= f < fl.len(),
        0 <= j < fl[f].len(),
    ensures
        rate[f] <= lo_at(left, fl[f][j].0 as int),
{
    let e = fl[f][j];
    assert(fl[f].contains(e));
    lemma_load_covers(fl, rate, e, fl.len() as int, f);
    assert(load_on(fl, rate, e, fl.len() as int) <= lo_at(left, e.0 as int));
}

/// The first equal-cost candidate route, or the empty path when there is none.
fn first_route(src: GpuId, dst: GpuId, graph: &Graph, residual: &Residual) -> (p: Path)
    requires
        graph_wf(graph),
    ensures
        spec_candidates(graph, residual, src, dst, PathMode::Ecmp).len() > 0 ==> p.links@
            == spec_candidates(graph, residual, src, dst, PathMode::Ecmp)[0],
        spec_candidates(graph, residual, src, dst, PathMode::Ecmp).len() == 0 ==> p.links@.len() == 0,
{
    let cands = k_shortest(src, dst, graph, residual, 8, PathMode::Ecmp);
    proof {
        let c = spec_candidates(graph, residual, src, dst, PathMode::Ecmp);
        assert(paths_view(cands@).len() == cands@.len());
        if c.len() > 0 {
            assert(paths_view(cands@)[0] == c[0]);
        }
    }
    if cands.len() > 0 {
        assert(cands@[0].links@ == paths_view(cands@)[0]);
        copy_path(&cands[0])
    } else {
        Path::empty()
    }
}

/// The first equal-cost candidate route, if there is one.
pub(crate) fn some_route(src: GpuId, dst: GpuId, graph: &Graph, residual: &Residual) -> (p: Option<Path>)
    requires
        graph_wf(graph),
    ensures
        spec_candidates(graph, residual, src, dst, PathMode::Ecmp).len() > 0 ==> (p matches Some(x) && x.links@
            == spec_candidates(graph, residual, src, dst, PathMode::Ecmp)[0]),
        spec_candidates(graph, residual, src, dst, PathMode::Ecmp).len() == 0 ==> p is None,
{
    let cands = k_shortest(src, dst, graph, residual, 8, PathMode::Ecmp);
    proof {
        let c = spec_candidates(graph, residual, src, dst, PathMode::Ecmp);
        assert(paths_view(cands@).len() == cands@.len());
        if c.len() > 0 {
            assert(paths_view(cands@)[0] == c[0]);
        }
    }
    if cands.len() > 0 {
        assert(cands@[0].links@ == paths_view(cands@)[0]);
        Some(copy_path(&cands[0]))
    } else {
        None
    }
}

/// What admission computes for a placed job.
struct AdmitPlan {
    paths: Vec<Path>,
    planned: Vec<Flow>,
    cir: Vec<u64>,
    t_pred: i128,
}

/// The flow moves data in phase `phi` of communicator `c`.
pub open spec fn in_phase(f: Flow, c: u32, phi: u32) -> bool {
    f.comm == c && f.phase == phi
}

/// Phase `phi` of communicator `c` has a transfer over the fabric.
pub open spec fn phase_has_flow(planned: Seq<Flow>, c: u32, phi: u32) -> bool {
    exists|q: int| 0 <= q < planned.len() && in_phase(#[trigger] planned[q], c, phi)
}

/// `m` is the smallest rate among the transfers of phase `phi` of
/// communicator `c`.
pub open spec fn is_phase_min(planned: Seq<Flow>, c: u32, phi: u32, m: u64) -> bool {
    &&& forall|q: int| 0 <= q < planned.len() && in_phase(#[trigger] planned[q], c, phi) ==> m <= planned[q].rate_Bps
    &&& exists|q: int| 0 <= q < planned.len() && in_phase(#[trigger] planned[q], c, phi) && planned[q].rate_Bps == m
}

/// The smallest rate among the transfers of phase `phi` of communicator `c`.
pub open spec fn phase_min_rate(planned: Seq<Flow>, c: u32, phi: u32) -> u64 {
    choose|m: u64| is_phase_min(planned, c, phi, m)
}

/// One phase of communicator `c`: `phase_duration_ps(chunk, b)` for the smallest
/// rate `b` of its transfers; no time when it has none.
pub open spec fn phase_time_ps(planned: Seq<Flow>, c: u32, phi: u32, chunk: nat) -> int {
    if phase_has_flow(planned, c, phi) {
        spec_phase_duration_ps(chunk, phase_min_rate(planned, c, phi) as nat)
    } else {
        0
    }
}

/// Phases `0..n` of communicator `c` one after another, saturating at
/// `i128::MAX`.
pub open spec fn comm_time_ps(planned: Seq<Flow>, c: u32, chunk: nat, n: nat) -> int
    decreases n,
{
    if n == 0 {
        0
    } else {
        clamp_i128(comm_time_ps(planned, c, chunk, (n - 1) as nat) + phase_time_ps(planned, c, (n - 1) as u32, chunk)) as int
    }
}

/// Communicator `c` has a transfer over the fabric.
pub open spec fn comm_has_flow(planned: Seq<Flow>, c: u32) -> bool {
    exists|q: int| 0 <= q < planned.len() && (#[trigger] planned[q]).comm == c
}

/// `t` is the time of the slowest communicator with a transfer over the
/// fabric (each taking `n` phases of `chunk` bytes), or zero when there is none.
pub open spec fn is_slowest_comm(planned: Seq<Flow>, chunk: nat, n: nat, t: int) -> bool {
    &&& forall|c: u32| #[trigger] comm_has_flow(planned, c) ==> comm_time_ps(planned, c, chunk, n) <= t
    &&& (exists|c: u32| #[trigger] comm_has_flow(planned, c) && t == comm_time_ps(planned, c, chunk, n)) || (t == 0
        && forall|c: u32| !#[trigger] comm_has_flow(planned, c))
}

/// How many times the route crosses link `e`.
pub open spec fn crossings(links: Seq<LinkId>, e: int) -> nat
    decreases links.len(),
{
    if links.len() == 0 {
        0
    } else {
        crossings(links.drop_last(), e) + if links.last().0 == e {
            1nat
        } else {
            0nat
        }
    }
}

/// `x`, or `u64::MAX` when it is larger.
pub open spec fn capped(x: nat) -> nat {
    if x > u64::MAX {
        u64::MAX as nat
    } else {
        x
    }
}

/// The rate the transfers of phase `phi` of communicator `c` put on link `e`,
/// each counted once per crossing.
pub open spec fn phase_load(planned: Seq<Flow>, c: u32, phi: u32, e: int) -> nat
    decreases planned.len(),
{
    if planned.len() == 0 {
        0
    } else {
        phase_load(planned.drop_last(), c, phi, e) + if in_phase(planned.last(), c, phi) {
            crossings(planned.last().path.links@, e) * (planned.last().rate_Bps as nat)
        } else {
            0nat
        }
    }
}

/// `v` is the largest load any one phase puts on link `e` (each capped at
/// `u64::MAX`), or zero when no phase crosses it.
pub open spec fn is_peak_load(planned: Seq<Flow>, e: int, v: nat) -> bool {
    &&& forall|c: u32, phi: u32| capped(#[trigger] phase_load(planned, c, phi, e)) <= v
    &&& v == 0 || exists|c: u32, phi: u32| v == capped(#[trigger] phase_load(planned, c, phi, e))
}

/// The rate the first `k` routes put on link `e`, each counted once per crossing.
pub open spec fn batch_load(fl: Seq<Seq<LinkId>>, rates: Seq<u64>, e: int, k: int) -> nat
    decreases k,
{
    if k <= 0 {
        0
    } else {
        batch_load(fl, rates, e, k - 1) + crossings(fl[k - 1], e) * (rates[k - 1] as nat)
    }
}

proof fn lemma_capped_add(x: nat, y: nat)
    ensures
        capped(capped(x) + y) == capped(x + y),
{
}

proof fn lemma_crossings_take(links: Seq<LinkId>, j: int, e: int)
    requires
        0 <= j < links.len(),
    ensures
        crossings(links.take(j + 1), e) == crossings(links.take(j), e) + if links[j].0 == e {
            1nat
        } else {
            0nat
        },
{
    assert(links.take(j + 1).drop_last() =~= links.take(j));
    assert(links.take(j + 1).last() == links[j]);
}

proof fn lemma_add_one_crossing(b: nat, c: nat, r: nat)
    ensures
        b + c * r + r == b + (c + 1) * r,
{
    assert((c + 1) * r == c * r + r) by (nonlinear_arith);
}

/// A list without transfers in phase `phi` of `c` puts no load there.
proof fn lemma_phase_load_none(planned: Seq<Flow>, c: u32, phi: u32, e: int)
    requires
        forall|q: int| 0 <= q < planned.len() ==> !in_phase(#[trigger] planned[q], c, phi),
    ensures
        phase_load(planned, c, phi, e) == 0,
    decreases planned.len(),
{
    if planned.len() > 0 {
        assert forall|q: int| 0 <= q < planned.drop_last().len() implies !in_phase(#[trigger] planned.drop_last()[q], c, phi) by {
            assert(planned.drop_last()[q] == planned[q]);
        }
        lemma_phase_load_none(planned.drop_last(), c, phi, e);
        assert(!in_phase(planned[planned.len() - 1], c, phi));
    }
}

/// Adding phase `phi` of `ci`, with load `x` on link `e`, raises the peak to
/// `x` when it is larger.
proof fn lemma_peak_step(pb: Seq<Flow>, pl: Seq<Flow>, ci: u32, phi: u32, e: int, v: nat, x: nat)
    requires
        is_peak_load(pb, e, v),
        phase_load(pb, ci, phi, e) == 0,
        phase_load(pl, ci, phi, e) == x,
        forall|c: u32, p: u32| !(c == ci && p == phi) ==> #[trigger] phase_load(pl, c, p, e) == phase_load(pb, c, p, e),
    ensures
        is_peak_load(pl, e, if capped(x) > v { capped(x) } else { v }),
{
    let w = if capped(x) > v {
        capped(x)
    } else {
        v
    };
    assert forall|c: u32, p: u32| capped(#[trigger] phase_load(pl, c, p, e)) <= w by {
        if !(c == ci && p == phi) {
            assert(capped(phase_load(pb, c, p, e)) <= v);
        }
    }
    if capped(x) > v {
        assert(w == capped(phase_load(pl, ci, phi, e)));
    } else if v != 0 {
        let (c, p) = choose|c: u32, p: u32| v == capped(#[trigger] phase_load(pb, c, p, e));
        if c == ci && p == phi {
            assert(v == 0);
        }
        assert(v == capped(phase_load(pl, c, p, e)));
    }
}

/// A link's committed rate is the load of its busiest phase: no phase puts
/// more on it, and it is the load of one phase (or zero), never a sum over
/// phases; at most one value fits.
pub proof fn law_peak_load_is_one_phase(planned: Seq<Flow>, e: int, v: nat, w: nat, c: u32, phi: u32)
    requires
        is_peak_load(planned, e, v),
        is_peak_load(planned, e, w),
    ensures
        capped(phase_load(planned, c, phi, e)) <= v,
        v == 0 || exists|d: u32, p: u32| v == capped(#[trigger] phase_load(planned, d, p, e)),
        v == w,
{
    if v != 0 {
        let (d, p) = choose|d: u32, p: u32| v == capped(#[trigger] phase_load(planned, d, p, e));
        assert(v <= w);
    }
    if w != 0 {
        let (d, p) = choose|d: u32, p: u32| w == capped(#[trigger] phase_load(planned, d, p, e));
        assert(w <= v);
    }
}

/// The predicted time is the largest communicator time: at most one value
/// fits the planned transfers, whatever order the communicators come in.
pub proof fn law_slowest_comm_unique(planned: Seq<Flow>, chunk: nat, n: nat, t1: int, t2: int)
    requires
        is_slowest_comm(planned, chunk, n, t1),
        is_slowest_comm(planned, chunk, n, t2),
    ensures
        t1 == t2,
{
    if exists|c: u32| #[trigger] comm_has_flow(planned, c) && t1 == comm_time_ps(planned, c, chunk, n) {
        let c1 = choose|c: u32| #[trigger] comm_has_flow(planned, c) && t1 == comm_time_ps(planned, c, chunk, n);
        assert(t1 <= t2);
        if exists|c: u32| #[trigger] comm_has_flow(planned, c) && t2 == comm_time_ps(planned, c, chunk, n) {
            let c2 = choose|c: u32| #[trigger] comm_has_flow(planned, c) && t2 == comm_time_ps(planned, c, chunk, n);
            assert(t2 <= t1);
        } else {
            assert(!comm_has_flow(planned, c1));
        }
    } else {
        if exists|c: u32| #[trigger] comm_has_flow(planned, c) && t2 == comm_time_ps(planned, c, chunk, n) {
            let c2 = choose|c: u32| #[trigger] comm_has_flow(planned, c) && t2 == comm_time_ps(planned, c, chunk, n);
            assert(!comm_has_flow(planned, c2));
        }
    }
}

/// The predicted time bounds every communicator that moves data over the
/// fabric and is the time of one of them, or zero when none does: the
/// slowest, not their sum.
pub proof fn law_slowest_comm_is_one_of_them(planned: Seq<Flow>, chunk: nat, n: nat, t: int, c: u32)
    requires
        is_slowest_comm(planned, chunk, n, t),
    ensures
        comm_has_flow(planned, c) ==> comm_time_ps(planned, c, chunk, n) <= t,
        t == 0 || exists|d: u32| #[trigger] comm_has_flow(planned, d) && t == comm_time_ps(planned, d, chunk, n),
{
}

/// A phase is timed by its slowest transfer: the rate used is at most that of
/// every transfer of the phase and is the rate of one of them.
pub proof fn law_phase_rate_is_smallest(planned: Seq<Flow>, c: u32, phi: u32, q: int)
    requires
        phase_has_flow(planned, c, phi),
    ensures
        0 <= q < planned.len() && planned[q].comm == c && planned[q].phase == phi ==> phase_min_rate(planned, c, phi)
            <= planned[q].rate_Bps,
        exists|j: int|
            0 <= j < planned.len() && (#[trigger] planned[j]).comm == c && planned[j].phase == phi && planned[j].rate_Bps
                == phase_min_rate(planned, c, phi),
{
    lemma_phase_min_exists(planned, c, phi);
    if 0 <= q < planned.len() && planned[q].comm == c && planned[q].phase == phi {
        assert(in_phase(planned[q], c, phi));
    }
    let j = choose|j: int|
        0 <= j < planned.len() && in_phase(#[trigger] planned[j], c, phi) && planned[j].rate_Bps == phase_min_rate(
            planned,
            c,
            phi,
        );
    assert(planned[j].comm == c && planned[j].phase == phi);
}

/// A phase with a transfer has a smallest rate.
proof fn lemma_phase_min_exists(planned: Seq<Flow>, c: u32, phi: u32)
    requires
        phase_has_flow(planned, c, phi),
    ensures
        is_phase_min(planned, c, phi, phase_min_rate(planned, c, phi)),
    decreases planned.len(),
{
    let d = planned.drop_last();
    let f = planned.last();
    let w: u64 = if phase_has_flow(d, c, phi) {
        lemma_phase_min_exists(d, c, phi);
        let m = phase_min_rate(d, c, phi);
        if in_phase(f, c, phi) && f.rate_Bps < m {
            f.rate_Bps
        } else {
            m
        }
    } else {
        f.rate_Bps
    };
    if phase_has_flow(d, c, phi) {
        let m = phase_min_rate(d, c, phi);
        assert forall|q: int| 0 <= q < planned.len() && in_phase(#[trigger] planned[q], c, phi) implies w <= planned[q].rate_Bps by {
            if q < d.len() {
                assert(planned[q] == d[q]);
            }
        }
        let j = choose|j: int| 0 <= j < d.len() && in_phase(#[trigger] d[j], c, phi) && d[j].rate_Bps == m;
        if in_phase(f, c, phi) && f.rate_Bps < m {
            assert(in_phase(planned[planned.len() - 1], c, phi));
        } else {
            assert(planned[j] == d[j]);
            assert(in_phase(planned[j], c, phi));
        }
    } else {
        let q0 = choose|q: int| 0 <= q < planned.len() && in_phase(#[trigger] planned[q], c, phi);
        if q0 < d.len() {
            assert(planned[q0] == d[q0]);
            assert(in_phase(d[q0], c, phi));
            assert(false);
        }
        assert forall|q: int| 0 <= q < planned.len() && in_phase(#[trigger] planned[q], c, phi) implies w <= planned[q].rate_Bps by {
            if q < d.len() {
                assert(planned[q] == d[q]);
                assert(in_phase(d[q], c, phi));
            }
        }
        assert(in_phase(planned[planned.len() - 1], c, phi));
    }
    assert(is_phase_min(planned, c, phi, w));
}

/// The smallest rate is unique.
proof fn lemma_phase_min_unique(planned: Seq<Flow>, c: u32, phi: u32, a: u64, b: u64)
    requires
        is_phase_min(planned, c, phi, a),
        is_phase_min(planned, c, phi, b),
    ensures
        a == b,
{
    let qa = choose|q: int| 0 <= q < planned.len() && in_phase(#[trigger] planned[q], c, phi) && planned[q].rate_Bps == a;
    let qb = choose|q: int| 0 <= q < planned.len() && in_phase(#[trigger] planned[q], c, phi) && planned[q].rate_Bps == b;
    assert(a <= planned[qb].rate_Bps);
    assert(b <= planned[qa].rate_Bps);
}

/// `m` is the phase's smallest rate exactly when it is its minimum.
proof fn lemma_phase_min_is(planned: Seq<Flow>, c: u32, phi: u32, m: u64)
    requires
        is_phase_min(planned, c, phi, m),
    ensures
        phase_has_flow(planned, c, phi),
        phase_min_rate(planned, c, phi) == m,
{
    let q = choose|q: int| 0 <= q < planned.len() && in_phase(#[trigger] planned[q], c, phi) && planned[q].rate_Bps == m;
    assert(in_phase(planned[q], c, phi));
    lemma_phase_min_exists(planned, c, phi);
    lemma_phase_min_unique(planned, c, phi, m, phase_min_rate(planned, c, phi));
}

/// `b` extends `a` with transfers none of which is in phase `phi` of `c`.
pub open spec fn extends_outside(a: Seq<Flow>, b: Seq<Flow>, c: u32, phi_lo: int, phi_hi: int) -> bool {
    &&& a.len() <= b.len()
    &&& forall|q: int| 0 <= q < a.len() ==> #[trigger] b[q] == a[q]
    &&& forall|q: int|
        a.len() <= q < b.len() ==> (#[trigger] b[q]).comm != c || b[q].phase < phi_lo || b[q].phase >= phi_hi
}

/// Transfers outside phases `lo..hi` of `c` leave those phases' times alone.
proof fn lemma_phase_time_frame(a: Seq<Flow>, b: Seq<Flow>, c: u32, phi: u32, chunk: nat, lo: int, hi: int)
    requires
        extends_outside(a, b, c, lo, hi),
        lo <= phi < hi,
    ensures
        phase_has_flow(a, c, phi) == phase_has_flow(b, c, phi),
        phase_time_ps(a, c, phi, chunk) == phase_time_ps(b, c, phi, chunk),
{
    if phase_has_flow(a, c, phi) {
        let q = choose|q: int| 0 <= q < a.len() && in_phase(#[trigger] a[q], c, phi);
        assert(b[q] == a[q]);
        assert(in_phase(b[q], c, phi));
        lemma_phase_min_exists(a, c, phi);
        let m = phase_min_rate(a, c, phi);
        assert forall|q: int| 0 <= q < b.len() && in_phase(#[trigger] b[q], c, phi) implies m <= b[q].rate_Bps by {
            if q < a.len() {
                assert(b[q] == a[q]);
            }
        }
        let j = choose|j: int| 0 <= j < a.len() && in_phase(#[trigger] a[j], c, phi) && a[j].rate_Bps == m;
        assert(b[j] == a[j]);
        assert(in_phase(b[j], c, phi));
        lemma_phase_min_is(b, c, phi, m);
    }
    if phase_has_flow(b, c, phi) {
        let q = choose|q: int| 0 <= q < b.len() && in_phase(#[trigger] b[q], c, phi);
        if q >= a.len() {
            assert(false);
        }
        assert(b[q] == a[q]);
        assert(in_phase(a[q], c, phi));
    }
}

/// Transfers outside phases `lo..hi` of `c` leave the time of phases `0..n`
/// alone when `lo <= 0` and `n <= hi`.
proof fn lemma_comm_time_frame(a: Seq<Flow>, b: Seq<Flow>, c: u32, chunk: nat, n: nat, lo: int, hi: int)
    requires
        extends_outside(a, b, c, lo, hi),
        lo <= 0,
        n <= hi,
        n <= u32::MAX + 1,
    ensures
        comm_time_ps(a, c, chunk, n) == comm_time_ps(b, c, chunk, n),
    decreases n,
{
    if n > 0 {
        lemma_comm_time_frame(a, b, c, chunk, (n - 1) as nat, lo, hi);
        lemma_phase_time_frame(a, b, c, (n - 1) as u32, chunk, lo, hi);
    }
}

/// Route every fabric transfer of every phase of every communicator on its
/// first equal-cost route, water-fill each phase over the physical leftover, and keep
/// per link the largest phase load. A failed fill voids the commitments and
/// the prediction.
fn plan_admit(job: &JobSpec, binding: &Binding, graph: &Graph, residual: &Residual) -> (r: AdmitPlan)
    requires
        graph_wf(graph),
        graph.links@.len() <= u32::MAX,
        (job.pp as int) * (job.dp as int) * (job.tp as int) <= job.gpu_count,
        job.dp >= 1 ==> 2 * (job.dp - 1) <= u32::MAX,
    ensures
        r.cir@.len() == graph.links@.len(),
        r.t_pred >= 0,
        job.dp <= 1 ==> r.t_pred == 0 && r.paths@.len() == 0 && r.planned@.len() == 0 && forall|e: int|
            0 <= e < r.cir@.len() ==> #[trigger] r.cir@[e] == 0,
        forall|q: int| 0 <= q < r.planned@.len() ==> naive_flow(graph, residual, job.id, #[trigger] r.planned@[q]),
        r.t_pred < i128::MAX ==> forall|q: int| 0 <= q < r.planned@.len() ==> (#[trigger] r.planned@[q]).rate_Bps >= 1,
        forall|q: int| 0 <= q < r.planned@.len() ==> within_leftover(phys_left(graph, residual), #[trigger] r.planned@[q]),
        (forall|q: int| 0 <= q < r.planned@.len() ==> (#[trigger] r.planned@[q]).rate_Bps >= 1) ==> is_slowest_comm(
            r.planned@,
            (job.payload_bytes / (job.dp as u64)) as nat,
            spec_n_phases(job.collective, job.dp as nat),
            r.t_pred as int,
        ),
        (exists|q: int| 0 <= q < r.planned@.len() && (#[trigger] r.planned@[q]).rate_Bps == 0) ==> r.t_pred == i128::MAX,
        (forall|q: int| 0 <= q < r.planned@.len() ==> (#[trigger] r.planned@[q]).rate_Bps >= 1) ==> forall|e: int|
            0 <= e < r.cir@.len() ==> is_peak_load(r.planned@, e, #[trigger] r.cir@[e] as nat),
        (exists|q: int| 0 <= q < r.planned@.len() && (#[trigger] r.planned@[q]).rate_Bps == 0) ==> forall|e: int|
            0 <= e < r.cir@.len() ==> #[trigger] r.cir@[e] == 0,
{
    let comms = communicators(binding, job);
    let ghost chunk: u64 = job.payload_bytes / (job.dp as u64);
    let ghost nph: nat = spec_n_phases(job.collective, job.dp as nat);
    assert(job.dp >= 1 ==> nph <= u32::MAX);
    let leftover = residual.physical_leftover(graph);
    assert(leftover@ =~= phys_left(graph, residual));
    let nl = graph.links.len();
    let mut cir: Vec<u64> = Vec::new();
    let mut z: usize = 0;
    while z < nl
        invariant
            z <= nl,
            cir@.len() == z,
            forall|e: int| 0 <= e < z ==> #[trigger] cir@[e] == 0,
        decreases nl - z,
    {
        cir.push(0);
        z = z + 1;
    }
    let mut paths: Vec<Path> = Vec::new();
    let mut planned: Vec<Flow> = Vec::new();
    let mut t_pred: i128 = 0;
    let mut wf_fail = false;
    let mut next_flow: u64 = 0;
    let mut ci: usize = 0;
    while ci < comms.len()
        invariant
            graph_wf(graph),
            nl == graph.links@.len(),
            nl <= u32::MAX,
            leftover@.len() == nl,
            cir@.len() == nl,
            t_pred >= 0,
            forall|c: int| 0 <= c < comms@.len() ==> (#[trigger] comms@[c]).members@.len() == comms@[c].p,
            forall|c: int| 0 <= c < comms@.len() ==> (#[trigger] comms@[c]).p == job.dp,
            job.dp <= 1 ==> paths@.len() == 0 && planned@.len() == 0 && t_pred == 0 && !wf_fail && forall|e: int|
                0 <= e < nl ==> #[trigger] cir@[e] == 0,
            forall|q: int| 0 <= q < planned@.len() ==> naive_flow(graph, residual, job.id, #[trigger] planned@[q]),
            !wf_fail ==> forall|q: int| 0 <= q < planned@.len() ==> (#[trigger] planned@[q]).rate_Bps >= 1,
            leftover@ == phys_left(graph, residual),
            forall|q: int| 0 <= q < planned@.len() ==> within_leftover(leftover@, #[trigger] planned@[q]),
            ci <= comms@.len(),
            forall|c: int|
                0 <= c < comms@.len() ==> (#[trigger] comms@[c]).index == c && comms@[c].chunk_bytes == chunk
                    && comms@[c].n_phases == nph,
            forall|q: int| 0 <= q < planned@.len() ==> ((#[trigger] planned@[q]).comm as int) < ci,
            !wf_fail ==> is_slowest_comm(planned@, chunk as nat, nph as nat, t_pred as int),
            wf_fail ==> exists|q: int| 0 <= q < planned@.len() && (#[trigger] planned@[q]).rate_Bps == 0,
            !wf_fail ==> forall|e: int| 0 <= e < nl ==> is_peak_load(planned@, e, #[trigger] cir@[e] as nat),
        decreases comms@.len() - ci,
    {
        let comm = &comms[ci];
        let mut t_comm: i128 = 0;
        let mut has_fabric = false;
        let mut phi: u32 = 0;
        let ghost base = planned@;
        let ghost wf0 = wf_fail;
        while phi < comm.n_phases
            invariant
                graph_wf(graph),
                nl == graph.links@.len(),
                nl <= u32::MAX,
                leftover@.len() == nl,
                cir@.len() == nl,
                comm.members@.len() == comm.p,
                comm.p == job.dp,
                job.dp <= 1 ==> paths@.len() == 0 && planned@.len() == 0 && t_pred == 0 && !wf_fail && !has_fabric
                    && forall|e: int| 0 <= e < nl ==> #[trigger] cir@[e] == 0,
                forall|q: int| 0 <= q < planned@.len() ==> naive_flow(graph, residual, job.id, #[trigger] planned@[q]),
                !wf_fail ==> forall|q: int| 0 <= q < planned@.len() ==> (#[trigger] planned@[q]).rate_Bps >= 1,
                forall|q: int| 0 <= q < planned@.len() ==> within_leftover(leftover@, #[trigger] planned@[q]),
                t_comm >= 0,
                phi <= comm.n_phases,
                comm.index == ci,
                comm.chunk_bytes == chunk,
                comm.n_phases == nph,
                ci < comms@.len(),
                forall|q: int| 0 <= q < base.len() ==> ((#[trigger] base[q]).comm as int) < ci,
                !wf0 ==> is_slowest_comm(base, chunk as nat, nph as nat, t_pred as int),
                wf0 ==> wf_fail,
                base.len() <= planned@.len(),
                forall|q: int| 0 <= q < base.len() ==> #[trigger] planned@[q] == base[q],
                forall|q: int|
                    base.len() <= q < planned@.len() ==> (#[trigger] planned@[q]).comm == ci && planned@[q].phase < phi,
                has_fabric == (planned@.len() > base.len()),
                !wf_fail ==> t_comm == comm_time_ps(planned@, ci as u32, chunk as nat, phi as nat),
                wf_fail ==> exists|q: int| 0 <= q < planned@.len() && (#[trigger] planned@[q]).rate_Bps == 0,
                !wf_fail ==> forall|e: int| 0 <= e < nl ==> is_peak_load(planned@, e, #[trigger] cir@[e] as nat),
            decreases comm.n_phases - phi,
        {
            let ghost pb = planned@;
            let ghost hf0 = has_fabric;
            let edges = comm.edges(phi);
            let mut flows: Vec<Flow> = Vec::new();
            let mut flow_paths: Vec<Path> = Vec::new();
            let mut k: usize = 0;
            while k < edges.len()
                invariant
                    graph_wf(graph),
                    k <= edges@.len(),
                    flows@.len() == flow_paths@.len(),
                    forall|f: int| 0 <= f < flows@.len() ==> (#[trigger] flows@[f]).path.links@ == flow_paths@[f].links@,
                    job.dp <= 1 ==> edges@.len() == 0 && flows@.len() == 0 && !has_fabric && paths@.len() == 0,
                    forall|f: int| 0 <= f < flows@.len() ==> naive_flow(graph, residual, job.id, #[trigger] flows@[f]),
                    forall|f: int| 0 <= f < flows@.len() ==> (#[trigger] flows@[f]).comm == ci && flows@[f].phase == phi,
                    has_fabric == (hf0 || flows@.len() > 0),
                    comm.index == ci,
                decreases edges@.len() - k,
            {
                let (src, dst) = edges[k];
                if !same_node(graph, src, dst) {
                    has_fabric = true;
                    let path = first_route(src, dst, graph, residual);
                    assert(path.links@ =~= naive_route(graph, residual, src, dst));
                    paths.push(copy_path(&path));
                    flow_paths.push(copy_path(&path));
                    flows.push(
                        Flow {
                            id: FlowId(next_flow),
                            job: job.id,
                            comm: comm.index,
                            phase: phi,
                            src,
                            dst,
                            path,
                            rate_Bps: 0,
                            bytes: comm.chunk_bytes,
                        },
                    );
                    next_flow = next_flow.saturating_add(1);
                }
                k = k + 1;
            }
            if flows.len() > 0 {
                match water_fill(flow_paths.as_slice(), leftover.as_slice()) {
                    Ok(rates) => {
                        proof {
                            assert forall|q: int| 0 <= q < flows@.len() implies within_leftover(
                                leftover@,
                                Flow { rate_Bps: rates@[q], ..#[trigger] flows@[q] },
                            ) by {
                                assert forall|j: int| 0 <= j < flows@[q].path.links@.len() implies rates@[q] <= lo_at(
                                    leftover@,
                                    (#[trigger] flows@[q].path.links@[j]).0 as int,
                                ) by {
                                    assert(paths_view(flow_paths@)[q] == flows@[q].path.links@);
                                    lemma_feasible_bounds(paths_view(flow_paths@), rates@, leftover@, q, j);
                                }
                            }
                        }
                        let ghost tc0 = t_comm;
                        let mut b_eff: u64 = u64::MAX;
                        let mut f: usize = 0;
                        while f < rates.len()
                            invariant
                                f <= rates@.len(),
                                forall|j: int| 0 <= j < f ==> b_eff <= #[trigger] rates@[j],
                                f > 0 ==> exists|j: int| 0 <= j < f && #[trigger] rates@[j] == b_eff,
                                f == 0 ==> b_eff == u64::MAX,
                            decreases rates@.len() - f,
                        {
                            if rates[f] < b_eff {
                                b_eff = rates[f];
                            }
                            proof {
                                if rates@[f as int] == b_eff {
                                    assert(0 <= f < f + 1 && rates@[f as int] == b_eff);
                                }
                            }
                            f = f + 1;
                        }
                        assert(rates@.len() > 0 && b_eff >= 1) by {
                            let j = choose|j: int| 0 <= j < rates@.len() && #[trigger] rates@[j] == b_eff;
                        }
                        if b_eff == 0 {
                            wf_fail = true;
                        } else {
                            let d = phase_duration_ps(comm.chunk_bytes, b_eff);
                            t_comm = sat_add_i128(t_comm, d);
                        }
                        // Load per link of this phase, then the largest phase load.
                        let mut load: Vec<u64> = Vec::new();
                        let mut z: usize = 0;
                        while z < nl
                            invariant
                                z <= nl,
                                load@.len() == z,
                                forall|x: int| 0 <= x < z ==> #[trigger] load@[x] == 0,
                            decreases nl - z,
                        {
                            load.push(0);
                            z = z + 1;
                        }
                        let ghost fpv = paths_view(flow_paths@);
                        assert forall|e: int| 0 <= e < nl implies #[trigger] load@[e] as nat == capped(
                            batch_load(fpv, rates@, e, 0),
                        ) by {}
                        let mut f: usize = 0;
                        while f < flows.len()
                            invariant
                                f <= flows@.len(),
                                flows@.len() == rates@.len(),
                                load@.len() == nl,
                                fpv == paths_view(flow_paths@),
                                flows@.len() == flow_paths@.len(),
                                forall|x: int| 0 <= x < flows@.len() ==> (#[trigger] flows@[x]).path.links@ == flow_paths@[x].links@,
                                forall|e: int| 0 <= e < nl ==> #[trigger] load@[e] as nat == capped(
                                    batch_load(fpv, rates@, e, f as int),
                                ),
                            decreases flows@.len() - f,
                        {
                            let p = &flows[f].path;
                            assert(p.links@ == fpv[f as int]);
                            proof {
                                let rr = rates@[f as int] as nat;
                                assert forall|e: int| 0 <= e < nl implies #[trigger] load@[e] as nat == capped(
                                    batch_load(fpv, rates@, e, f as int) + crossings(p.links@.take(0), e) * rr,
                                ) by {
                                    assert(p.links@.take(0).len() == 0);
                                    assert(crossings(p.links@.take(0), e) == 0);
                                    assert(0nat * rr == 0) by (nonlinear_arith);
                                }
                            }
                            let mut j: usize = 0;
                            while j < p.links.len()
                                invariant
                                    j <= p.links@.len(),
                                    load@.len() == nl,
                                    f < rates@.len(),
                                    forall|e: int| 0 <= e < nl ==> #[trigger] load@[e] as nat == capped(
                                        batch_load(fpv, rates@, e, f as int) + crossings(p.links@.take(j as int), e)
                                            * (rates@[f as int] as nat),
                                    ),
                                decreases p.links@.len() - j,
                            {
                                let e = p.links[j].0 as usize;
                                proof {
                                    assert forall|x: int| 0 <= x < nl implies crossings(p.links@.take(j + 1), x) == crossings(
                                        p.links@.take(j as int),
                                        x,
                                    ) + if x == e {
                                        1nat
                                    } else {
                                        0nat
                                    } by {
                                        lemma_crossings_take(p.links@, j as int, x);
                                    }
                                }
                                if e < load.len() {
                                    let v = load[e].saturating_add(rates[f]);
                                    proof {
                                        let bb = batch_load(fpv, rates@, e as int, f as int);
                                        let cc = crossings(p.links@.take(j as int), e as int);
                                        let rr = rates@[f as int] as nat;
                                        lemma_capped_add(bb + cc * rr, rr);
                                        lemma_add_one_crossing(bb, cc, rr);
                                    }
                                    load.set(e, v);
                                }
                                j = j + 1;
                            }
                            proof {
                                assert(p.links@.take(p.links@.len() as int) =~= p.links@);
                            }
                            f = f + 1;
                        }
                        let ghost cb = cir@;
                        let mut e: usize = 0;
                        while e < nl
                            invariant
                                e <= nl,
                                load@.len() == nl,
                                cir@.len() == nl,
                                cb.len() == nl,
                                forall|x: int| 0 <= x < e ==> #[trigger] cir@[x] == if load@[x] > cb[x] {
                                    load@[x]
                                } else {
                                    cb[x]
                                },
                                forall|x: int| e <= x < nl ==> #[trigger] cir@[x] == cb[x],
                            decreases nl - e,
                        {
                            if load[e] > cir[e] {
                                cir.set(e, load[e]);
                            }
                            e = e + 1;
                        }
                        // Planned flows carry their rates.
                        proof {
                            assert forall|e: int| #[trigger] phase_load(pb, ci as u32, phi, e) == 0 by {
                                assert forall|q: int| 0 <= q < pb.len() implies !in_phase(#[trigger] pb[q], ci as u32, phi) by {
                                    if q < base.len() {
                                        assert(pb[q] == base[q]);
                                    }
                                }
                                lemma_phase_load_none(pb, ci as u32, phi, e);
                            }
                        }
                        let mut f: usize = 0;
                        while f < flows.len()
                            invariant
                                f <= flows@.len(),
                                flows@.len() == rates@.len(),
                                forall|q: int| 0 <= q < rates@.len() ==> #[trigger] rates@[q] >= 1,
                                forall|q: int| 0 <= q < flows@.len() ==> naive_flow(graph, residual, job.id, #[trigger] flows@[q]),
                                forall|q: int| 0 <= q < planned@.len() ==> naive_flow(graph, residual, job.id, #[trigger] planned@[q]),
                                !wf_fail ==> forall|q: int| 0 <= q < planned@.len() ==> (#[trigger] planned@[q]).rate_Bps >= 1,
                                forall|q: int| 0 <= q < planned@.len() ==> within_leftover(leftover@, #[trigger] planned@[q]),
                                forall|q: int|
                                    0 <= q < flows@.len() ==> within_leftover(
                                        leftover@,
                                        Flow { rate_Bps: rates@[q], ..#[trigger] flows@[q] },
                                    ),
                                forall|q: int| 0 <= q < flows@.len() ==> (#[trigger] flows@[q]).comm == ci && flows@[q].phase == phi,
                                pb.len() + f == planned@.len(),
                                forall|q: int| 0 <= q < pb.len() ==> #[trigger] planned@[q] == pb[q],
                                forall|q: int|
                                    pb.len() <= q < planned@.len() ==> (#[trigger] planned@[q]).comm == ci && planned@[q].phase
                                        == phi && planned@[q].rate_Bps == rates@[q - pb.len()],
                                fpv == paths_view(flow_paths@),
                                flows@.len() == flow_paths@.len(),
                                forall|x: int| 0 <= x < flows@.len() ==> (#[trigger] flows@[x]).path.links@ == flow_paths@[x].links@,
                                forall|e: int| #[trigger] phase_load(planned@, ci as u32, phi, e) == batch_load(fpv, rates@, e, f as int),
                                forall|c: u32, p: u32, e: int|
                                    !(c == ci && p == phi) ==> #[trigger] phase_load(planned@, c, p, e) == phase_load(pb, c, p, e),
                            decreases flows@.len() - f,
                        {
                            let ghost pl0 = planned@;
                            let fl = &flows[f];
                            planned.push(
                                Flow {
                                    id: fl.id,
                                    job: fl.job,
                                    comm: fl.comm,
                                    phase: fl.phase,
                                    src: fl.src,
                                    dst: fl.dst,
                                    path: copy_path(&fl.path),
                                    rate_Bps: rates[f],
                                    bytes: fl.bytes,
                                },
                            );
                            proof {
                                let fq = Flow { rate_Bps: rates@[f as int], ..flows@[f as int] };
                                assert(within_leftover(leftover@, fq));
                                let np = planned@[planned@.len() - 1];
                                assert(np.path.links@ == fq.path.links@ && np.rate_Bps == fq.rate_Bps);
                                assert forall|j: int| 0 <= j < np.path.links@.len() implies np.rate_Bps <= lo_at(
                                    leftover@,
                                    (#[trigger] np.path.links@[j]).0 as int,
                                ) by {
                                    assert(fq.path.links@[j] == np.path.links@[j]);
                                }
                                assert(planned@.drop_last() =~= pl0);
                                assert(np.path.links@ == fpv[f as int]);
                                assert forall|e: int| #[trigger] phase_load(planned@, ci as u32, phi, e) == batch_load(
                                    fpv,
                                    rates@,
                                    e,
                                    f + 1,
                                ) by {
                                    assert(phase_load(planned@, ci as u32, phi, e) == phase_load(pl0, ci as u32, phi, e) + crossings(
                                        np.path.links@,
                                        e,
                                    ) * (np.rate_Bps as nat));
                                }
                                assert forall|c: u32, p: u32, e: int| !(c == ci && p == phi) implies #[trigger] phase_load(
                                    planned@,
                                    c,
                                    p,
                                    e,
                                ) == phase_load(pb, c, p, e) by {
                                    assert(phase_load(planned@, c, p, e) == phase_load(pl0, c, p, e));
                                }
                            }
                            f = f + 1;
                        }
                        proof {
                            if !wf_fail {
                                assert forall|e: int| 0 <= e < nl implies is_peak_load(planned@, e, #[trigger] cir@[e] as nat) by {
                                    lemma_peak_step(pb, planned@, ci as u32, phi, e, cb[e] as nat, batch_load(fpv, rates@, e, flows@.len() as int));
                                }
                            }
                        }
                        proof {
                            let pl = planned@;
                            assert(is_phase_min(pl, ci as u32, phi, b_eff)) by {
                                assert forall|q: int| 0 <= q < pl.len() && in_phase(#[trigger] pl[q], ci as u32, phi) implies b_eff
                                    <= pl[q].rate_Bps by {
                                    if q < pb.len() {
                                        assert(pl[q] == pb[q]);
                                        if q < base.len() {
                                            assert(pb[q] == base[q]);
                                        }
                                    } else {
                                        assert(b_eff <= rates@[q - pb.len()]);
                                    }
                                }
                                let j = choose|j: int| 0 <= j < rates@.len() && #[trigger] rates@[j] == b_eff;
                                assert(pl[pb.len() + j].rate_Bps == rates@[j]);
                                assert(in_phase(pl[pb.len() + j], ci as u32, phi));
                            }
                            lemma_phase_min_is(pl, ci as u32, phi, b_eff);
                            assert(extends_outside(pb, pl, ci as u32, 0, phi as int));
                            lemma_comm_time_frame(pb, pl, ci as u32, chunk as nat, phi as nat, 0, phi as int);
                            assert(comm_time_ps(pl, ci as u32, chunk as nat, (phi + 1) as nat) == clamp_i128(
                                comm_time_ps(pl, ci as u32, chunk as nat, phi as nat) + phase_time_ps(pl, ci as u32, phi, chunk as nat),
                            ));
                            assert(!wf_fail ==> t_comm == comm_time_ps(pl, ci as u32, chunk as nat, (phi + 1) as nat));
                        }
                    },
                    Err(_) => {
                        wf_fail = true;
                        let mut f: usize = 0;
                        while f < flows.len()
                            invariant
                                f <= flows@.len(),
                                wf_fail,
                                forall|q: int| 0 <= q < flows@.len() ==> naive_flow(graph, residual, job.id, #[trigger] flows@[q]),
                                forall|q: int| 0 <= q < planned@.len() ==> naive_flow(graph, residual, job.id, #[trigger] planned@[q]),
                                forall|q: int| 0 <= q < planned@.len() ==> within_leftover(leftover@, #[trigger] planned@[q]),
                                forall|q: int| 0 <= q < flows@.len() ==> (#[trigger] flows@[q]).comm == ci && flows@[q].phase == phi,
                                pb.len() + f == planned@.len(),
                                forall|q: int| 0 <= q < pb.len() ==> #[trigger] planned@[q] == pb[q],
                                forall|q: int|
                                    pb.len() <= q < planned@.len() ==> (#[trigger] planned@[q]).comm == ci && planned@[q].phase
                                        == phi && planned@[q].rate_Bps == 0,
                            decreases flows@.len() - f,
                        {
                            let fl = &flows[f];
                            planned.push(
                                Flow {
                                    id: fl.id,
                                    job: fl.job,
                                    comm: fl.comm,
                                    phase: fl.phase,
                                    src: fl.src,
                                    dst: fl.dst,
                                    path: copy_path(&fl.path),
                                    rate_Bps: 0,
                                    bytes: fl.bytes,
                                },
                            );
                            f = f + 1;
                        }
                        assert(planned@[pb.len() as int].rate_Bps == 0);
                    },
                }
            } else {
                proof {
                    let pl = planned@;
                    assert(!phase_has_flow(pl, ci as u32, phi)) by {
                        if phase_has_flow(pl, ci as u32, phi) {
                            let q = choose|q: int| 0 <= q < pl.len() && in_phase(#[trigger] pl[q], ci as u32, phi);
                            if q < base.len() {
                                assert(pl[q] == base[q]);
                            }
                        }
                    }
                    assert(comm_time_ps(pl, ci as u32, chunk as nat, (phi + 1) as nat) == clamp_i128(
                        comm_time_ps(pl, ci as u32, chunk as nat, phi as nat) + phase_time_ps(pl, ci as u32, phi, chunk as nat),
                    ));
                }
            }
            proof {
                assert forall|q: int| 0 <= q < base.len() implies #[trigger] planned@[q] == base[q] by {
                    assert(planned@[q] == pb[q]);
                }
                if exists|q: int| 0 <= q < pb.len() && (#[trigger] pb[q]).rate_Bps == 0 {
                    let q = choose|q: int| 0 <= q < pb.len() && (#[trigger] pb[q]).rate_Bps == 0;
                    assert(planned@[q] == pb[q]);
                }
            }
            phi = phi + 1;
        }
        proof {
            if !wf_fail {
                lemma_slowest_step(base, planned@, ci as u32, chunk as nat, nph, t_pred as int, t_comm as int, has_fabric);
            }
            assert forall|q: int| 0 <= q < planned@.len() implies ((#[trigger] planned@[q]).comm as int) < ci + 1 by {
                if q < base.len() {
                    assert(planned@[q] == base[q]);
                }
            }
        }
        if has_fabric && t_comm > t_pred {
            t_pred = t_comm;
        }
        ci = ci + 1;
    }
    if wf_fail {
        t_pred = i128::MAX;
        let mut e: usize = 0;
        while e < nl
            invariant
                e <= nl,
                cir@.len() == nl,
                forall|x: int| 0 <= x < e ==> #[trigger] cir@[x] == 0,
            decreases nl - e,
        {
            cir.set(e, 0);
            e = e + 1;
        }
    }
    proof {
        if forall|q: int| 0 <= q < planned@.len() ==> (#[trigger] planned@[q]).rate_Bps >= 1 {
            if wf_fail {
                let q = choose|q: int| 0 <= q < planned@.len() && (#[trigger] planned@[q]).rate_Bps == 0;
                assert(planned@[q].rate_Bps >= 1);
            }
        }
    }
    AdmitPlan { paths, planned, cir, t_pred }
}

/// After communicator `ci`: the slowest time so far, raised to the
/// communicator's time when it moved data over the fabric and took longer.
proof fn lemma_slowest_step(
    base: Seq<Flow>,
    planned: Seq<Flow>,
    ci: u32,
    chunk: nat,
    nph: nat,
    t: int,
    tc: int,
    hf: bool,
)
    requires
        nph <= u32::MAX + 1,
        base.len() <= planned.len(),
        forall|q: int| 0 <= q < base.len() ==> #[trigger] planned[q] == base[q],
        forall|q: int| 0 <= q < base.len() ==> ((#[trigger] base[q]).comm as int) < ci,
        forall|q: int| base.len() <= q < planned.len() ==> (#[trigger] planned[q]).comm == ci,
        hf == (planned.len() > base.len()),
        is_slowest_comm(base, chunk, nph, t),
        tc == comm_time_ps(planned, ci, chunk, nph),
        0 <= tc,
    ensures
        is_slowest_comm(planned, chunk, nph, if hf && tc > t { tc } else { t }),
{
    let t2 = if hf && tc > t { tc } else { t };
    assert forall|c: u32| c != ci implies comm_has_flow(planned, c) == comm_has_flow(base, c) && comm_time_ps(planned, c, chunk, nph)
        == comm_time_ps(base, c, chunk, nph) by {
        assert(extends_outside(base, planned, c, 0, nph as int));
        lemma_comm_time_frame(base, planned, c, chunk, nph, 0, nph as int);
        if comm_has_flow(planned, c) {
            let q = choose|q: int| 0 <= q < planned.len() && (#[trigger] planned[q]).comm == c;
            assert(planned[q] == base[q]);
        }
        if comm_has_flow(base, c) {
            let q = choose|q: int| 0 <= q < base.len() && (#[trigger] base[q]).comm == c;
            assert(planned[q] == base[q]);
        }
    }
    assert(comm_has_flow(planned, ci) == hf) by {
        if hf {
            assert(planned[base.len() as int].comm == ci);
        }
        if comm_has_flow(planned, ci) {
            let q = choose|q: int| 0 <= q < planned.len() && (#[trigger] planned[q]).comm == ci;
            if q < base.len() {
                assert(base[q].comm < ci);
            }
        }
    }
    assert(!comm_has_flow(base, ci)) by {
        if comm_has_flow(base, ci) {
            let q = choose|q: int| 0 <= q < base.len() && (#[trigger] base[q]).comm == ci;
        }
    }
    assert forall|c: u32| #[trigger] comm_has_flow(planned, c) implies comm_time_ps(planned, c, chunk, nph) <= t2 by {
        if c != ci {
            assert(comm_has_flow(base, c));
        }
    }
    if hf && tc > t {
        assert(comm_has_flow(planned, ci));
    } else if exists|c: u32| #[trigger] comm_has_flow(base, c) && t == comm_time_ps(base, c, chunk, nph) {
        let c = choose|c: u32| #[trigger] comm_has_flow(base, c) && t == comm_time_ps(base, c, chunk, nph);
        assert(c != ci);
        assert(comm_has_flow(planned, c));
    } else {
        assert(t == 0);
        if hf {
            assert(comm_has_flow(planned, ci));
            assert(tc == 0);
        } else {
            assert forall|c: u32| !#[trigger] comm_has_flow(planned, c) by {
                if c != ci {
                    assert(!comm_has_flow(base, c));
                }
            }
        }
    }
}

proof fn lemma_first_fit_exists(occ: Map<u32, JobId>, graph: &Graph, count: nat)
    ensures
        forall|k: int|
            0 <= k < spec_first_fit(occ, graph, count).len() ==> spec_is_free(
                occ,
                graph,
                #[trigger] spec_first_fit(occ, graph, count)[k],
            ),
        existing_count(graph, spec_first_fit(occ, graph, count)) == spec_first_fit(occ, graph, count).len(),
{
    let s = Seq::new((graph.params.nodes * graph.params.gpus_per_node) as nat, |k: int| GpuId(k as u32));
    let pred = |g: GpuId| spec_is_free(occ, graph, g);
    let free = s.filter(pred);
    free.filter_lemma(pred);
    let ff = spec_first_fit(occ, graph, count);
    assert forall|k: int| 0 <= k < ff.len() implies spec_is_free(occ, graph, #[trigger] ff[k]) by {
        assert(ff[k] == free[k]);
        assert(pred(free[k]));
    }
    lemma_existing_all(graph, ff);
}

pub(crate) proof fn lemma_existing_all(graph: &Graph, gpus: Seq<GpuId>)
    requires
        forall|k: int| 0 <= k < gpus.len() ==> spec_gpu(graph, #[trigger] gpus[k]) is Some,
    ensures
        existing_count(graph, gpus) == gpus.len(),
    decreases gpus.len(),
{
    if gpus.len() > 0 {
        assert forall|k: int| 0 <= k < gpus.drop_last().len() implies spec_gpu(graph, #[trigger] gpus.drop_last()[k]) is Some by {
            assert(gpus.drop_last()[k] == gpus[k]);
        }
        lemma_existing_all(graph, gpus.drop_last());
        assert(spec_gpu(graph, gpus[gpus.len() - 1]) is Some);
    }
}

/// A filter keeps GPU ids in increasing order.
pub(crate) proof fn lemma_filter_increasing(s: Seq<GpuId>, pred: spec_fn(GpuId) -> bool)
    requires
        forall|a: int, b: int| 0 <= a < b < s.len() ==> (#[trigger] s[a]).0 < (#[trigger] s[b]).0,
    ensures
        forall|a: int, b: int|
            0 <= a < b < s.filter(pred).len() ==> (#[trigger] s.filter(pred)[a]).0 < (#[trigger] s.filter(pred)[b]).0,
    decreases s.len(),
{
    reveal_with_fuel(Seq::filter, 1);
    if s.len() > 0 {
        let d = s.drop_last();
        lemma_filter_increasing(d, pred);
        let fd = d.filter(pred);
        assert forall|k: int| 0 <= k < fd.len() implies (#[trigger] fd[k]).0 < s.last().0 by {
            assert(fd.contains(fd[k]));
            d.lemma_filter_contains_rev(pred, fd[k]);
            let j = choose|j: int| 0 <= j < d.len() && d[j] == fd[k];
            assert(s[j] == d[j]);
            assert(s.last() == s[s.len() - 1]);
        }
    }
}

/// The first-fit list names each GPU at most once, in increasing id order.
proof fn lemma_first_fit_increasing(occ: Map<u32, JobId>, graph: &Graph, count: nat)
    requires
        graph.params.nodes * graph.params.gpus_per_node <= u32::MAX + 1,
    ensures
        forall|a: int, b: int|
            0 <= a < b < spec_first_fit(occ, graph, count).len() ==> (#[trigger] spec_first_fit(occ, graph, count)[a]).0
                < (#[trigger] spec_first_fit(occ, graph, count)[b]).0,
{
    let all = Seq::new((graph.params.nodes * graph.params.gpus_per_node) as nat, |k: int| GpuId(k as u32));
    assert forall|a: int, b: int| 0 <= a < b < all.len() implies (#[trigger] all[a]).0 < (#[trigger] all[b]).0 by {
        assert(all[a].0 == a as u32 && all[b].0 == b as u32);
    }
    let pred = |g: GpuId| spec_is_free(occ, graph, g);
    lemma_filter_increasing(all, pred);
    let free = all.filter(pred);
    let ff = spec_first_fit(occ, graph, count);
    assert forall|a: int, b: int| 0 <= a < b < ff.len() implies (#[trigger] ff[a]).0 < (#[trigger] ff[b]).0 by {
        assert(ff[a] == free[a] && ff[b] == free[b]);
    }
}

/// A rank order lists each position once.
pub(crate) proof fn lemma_rank_order_distinct(graph: &Graph, gpus: Seq<GpuId>, perm: Seq<int>, a: int, b: int)
    requires
        rank_order(graph, gpus, perm),
        0 <= a < b < perm.len(),
    ensures
        perm[a] != perm[b],
{
    assert(node_rail_before(graph, gpus, perm[a], perm[b]));
}

/// Admit with first-fit placement and equal-cost routes. Only a lack of free
/// GPUs rejects: the job's record then says `NoFreeGpus` and nothing else
/// changes. Otherwise the job takes the first free GPUs in scan order, each
/// planned transfer rides its first equal-cost route (with a rate of at least
/// one unless the fill failed, which makes the prediction the largest time, and
/// never more than any link of the route had left), its
/// committed rates are added on their links, it is recorded as computing with
/// the next admit sequence, and its first step boundary is scheduled after its
/// compute time.
pub fn naive_admit(
    job: &JobSpec,
    graph: &Graph,
    residual: &mut Residual,
    table: &mut JobTable,
    fel: &mut Fel,
) -> (r: Result<(), RejectCode>)
    requires
        graph_wf(graph),
        graph.links@.len() <= u32::MAX,
        graph.params.nodes * graph.params.gpus_per_node <= u32::MAX + 1,
        (job.pp as int) * (job.dp as int) * (job.tp as int) == job.gpu_count,
        job.dp >= 1 ==> 2 * (job.dp - 1) <= u32::MAX,
        old(residual).r_avail@.len() >= old(residual).cir@.len(),
        old(table).next_admit_seq < u64::MAX,
        old(fel).next_seq_spec() < u64::MAX,
    ensures
        (r is Err) <==> spec_first_fit(old(table).occ.by_gpu@, graph, job.gpu_count as nat).len() < job.gpu_count,
        r is Err ==> r == Err::<(), RejectCode>(RejectCode::NoFreeGpus),
        final(table).by_id@.dom() == old(table).by_id@.dom().insert(job.id.0),
        final(table).by_id@.remove(job.id.0) == old(table).by_id@.remove(job.id.0),
        final(table).by_id@[job.id.0].spec == *job,
        r is Err ==> final(table).by_id@[job.id.0].state == JobState::Rejected,
        r is Err ==> final(table).by_id@[job.id.0].reject == Some(RejectCode::NoFreeGpus),
        r is Err ==> final(table).by_id@[job.id.0].admit_seq is None,
        r is Err ==> final(table).by_id@[job.id.0].binding is None,
        r is Err ==> final(table).occ.by_gpu@ == old(table).occ.by_gpu@,
        r is Err ==> final(table).next_admit_seq == old(table).next_admit_seq,
        r is Err ==> *final(residual) == *old(residual),
        r is Err ==> *final(fel) == *old(fel),
        r is Ok ==> final(table).by_id@[job.id.0].state == JobState::Computing,
        r is Ok ==> final(table).by_id@[job.id.0].reject is None,
        r is Ok ==> final(table).by_id@[job.id.0].admit_seq == Some(AdmitSeq(old(table).next_admit_seq)),
        r is Ok ==> final(table).by_id@[job.id.0].t_pred_ps >= 0,
        r is Ok ==> (final(table).by_id@[job.id.0].binding matches Some(b) && b.kind == BindingKind::NaiveFirstFit
            && b.map@.len() == job.gpu_count && (forall|k: int|
            0 <= k < b.map@.len() ==> spec_first_fit(old(table).occ.by_gpu@, graph, job.gpu_count as nat).contains(
                #[trigger] b.map@[k].1,
            )) && final(table).occ.by_gpu@ == old(table).occ.by_gpu@.union_prefer_right(claimed(b.map@, job.id))),
        r is Ok ==> (final(table).by_id@[job.id.0].binding matches Some(b) && exists|perm: Seq<int>|
            rank_order(graph, spec_first_fit(old(table).occ.by_gpu@, graph, job.gpu_count as nat), perm) && perm.len()
                >= b.map@.len() && forall|k: int|
                0 <= k < b.map@.len() ==> #[trigger] b.map@[k] == (
                    Rank(k as u32),
                    spec_first_fit(old(table).occ.by_gpu@, graph, job.gpu_count as nat)[perm[k]],
                )),
        r is Ok ==> (final(table).by_id@[job.id.0].binding matches Some(b) && forall|x: int, y: int|
            0 <= x < y < b.map@.len() ==> (#[trigger] b.map@[x]).1 != (#[trigger] b.map@[y]).1),
        r is Ok ==> final(table).next_admit_seq == old(table).next_admit_seq + 1,
        r is Ok ==> forall|q: int|
            0 <= q < final(table).by_id@[job.id.0].planned@.len() ==> naive_flow(
                graph,
                &*old(residual),
                job.id,
                #[trigger] final(table).by_id@[job.id.0].planned@[q],
            ),
        r is Ok ==> forall|q: int|
            0 <= q < final(table).by_id@[job.id.0].planned@.len() ==> within_leftover(
                phys_left(graph, &*old(residual)),
                #[trigger] final(table).by_id@[job.id.0].planned@[q],
            ),
        r is Ok && final(table).by_id@[job.id.0].t_pred_ps < i128::MAX ==> forall|q: int|
            0 <= q < final(table).by_id@[job.id.0].planned@.len() ==> (
            #[trigger] final(table).by_id@[job.id.0].planned@[q]).rate_Bps >= 1,
        r is Ok && (forall|q: int|
            0 <= q < final(table).by_id@[job.id.0].planned@.len() ==> (
            #[trigger] final(table).by_id@[job.id.0].planned@[q]).rate_Bps >= 1) ==> is_slowest_comm(
            final(table).by_id@[job.id.0].planned@,
            (job.payload_bytes / (job.dp as u64)) as nat,
            spec_n_phases(job.collective, job.dp as nat),
            final(table).by_id@[job.id.0].t_pred_ps as int,
        ),
        r is Ok && (exists|q: int|
            0 <= q < final(table).by_id@[job.id.0].planned@.len() && (
            #[trigger] final(table).by_id@[job.id.0].planned@[q]).rate_Bps == 0) ==> final(table).by_id@[job.id.0].t_pred_ps
            == i128::MAX,
        r is Ok && (forall|q: int|
            0 <= q < final(table).by_id@[job.id.0].planned@.len() ==> (
            #[trigger] final(table).by_id@[job.id.0].planned@[q]).rate_Bps >= 1) ==> forall|e: u32|
            e < graph.links@.len() ==> is_peak_load(
                final(table).by_id@[job.id.0].planned@,
                e as int,
                if #[trigger] final(table).by_id@[job.id.0].cir@.contains_key(e) {
                    final(table).by_id@[job.id.0].cir@[e] as nat
                } else {
                    0nat
                },
            ),
        r is Ok && job.dp <= 1 ==> final(table).by_id@[job.id.0].t_pred_ps == 0 && final(table).by_id@[job.id.0].cir@.dom()
            == Set::<u32>::empty() && final(table).by_id@[job.id.0].planned@.len() == 0
            && final(table).by_id@[job.id.0].paths@.len() == 0,
        r is Ok ==> forall|e: u32|
            #[trigger] final(table).by_id@[job.id.0].cir@.contains_key(e) ==> final(table).by_id@[job.id.0].cir@[e] > 0
                && e < graph.links@.len(),
        final(residual).cir@.len() == old(residual).cir@.len(),
        final(residual).r_avail@.len() == old(residual).r_avail@.len(),
        r is Ok ==> forall|i: int|
            0 <= i < old(residual).cir@.len() && i < graph.links@.len() ==> #[trigger] final(residual).cir@[i] == if final(table).by_id@[job.id.0].cir@.contains_key(
                i as u32,
            ) {
                sat_add(old(residual).cir@[i], final(table).by_id@[job.id.0].cir@[i as u32])
            } else {
                old(residual).cir@[i]
            },
        forall|i: int|
            graph.links@.len() <= i < old(residual).cir@.len() ==> #[trigger] final(residual).cir@[i] == old(
                residual,
            ).cir@[i],
        old(residual).consistent(graph) ==> final(residual).consistent(graph),
        r is Ok ==> final(fel).next_seq_spec() == old(fel).next_seq_spec() + 1,
        r is Ok ==> events_sorted(final(fel)@),
        r is Ok ==> exists|pos: int|
            0 <= pos <= old(fel)@.len() && final(fel)@ == #[trigger] old(fel)@.insert(
                pos,
                Event {
                    t: SimTime { ps: clamp_i128(job.arrive.ps + job.compute_ps), seq: old(fel).next_seq_spec() },
                    kind: EventKind::StepBoundary,
                    payload: EventPayload::StepBoundary { job: job.id, step: 0 },
                },
            ),
{
    let ghost picked_s = spec_first_fit(table.occ.by_gpu@, graph, job.gpu_count as nat);
    let picked = first_fit(&table.occ, graph, job.gpu_count);
    if picked.len() < job.gpu_count as usize {
        let rec = JobRec {
            spec: *job,
            state: JobState::Rejected,
            admit_seq: None,
            binding: None,
            paths: Vec::new(),
            cir: BTreeMap::new(),
            planned: Vec::new(),
            t_pred_ps: 0,
            step_index: 0,
            steps_done: 0,
            reject: Some(RejectCode::NoFreeGpus),
        };
        table.by_id.insert(job.id.0, rec);
        assert(table.by_id@.remove(job.id.0) =~= old(table).by_id@.remove(job.id.0));
        return Err(RejectCode::NoFreeGpus);
    }
    proof {
        lemma_first_fit_exists(old(table).occ.by_gpu@, graph, job.gpu_count as nat);
    }
    let map = rank_map(&picked, job, graph);
    proof {
        lemma_first_fit_increasing(old(table).occ.by_gpu@, graph, job.gpu_count as nat);
        let perm = choose|perm: Seq<int>|
            rank_order(graph, picked@, perm) && perm.len() >= map@.len() && forall|k: int|
                0 <= k < map@.len() ==> #[trigger] map@[k] == (Rank(k as u32), picked@[perm[k]]);
        assert forall|x: int, y: int| 0 <= x < y < map@.len() implies (#[trigger] map@[x]).1 != (#[trigger] map@[y]).1 by {
            lemma_rank_order_distinct(graph, picked@, perm, x, y);
            assert(map@[x] == (Rank(x as u32), picked@[perm[x]]));
            assert(map@[y] == (Rank(y as u32), picked@[perm[y]]));
            assert(0 <= perm[x] < picked@.len() && 0 <= perm[y] < picked@.len());
            if perm[x] < perm[y] {
                assert(picked@[perm[x]].0 < picked@[perm[y]].0);
            } else {
                assert(picked@[perm[y]].0 < picked@[perm[x]].0);
            }
        }
    }
    let binding = Binding { kind: BindingKind::NaiveFirstFit, map };
    let plan = plan_admit(job, &binding, graph, residual);
    // Take the GPUs.
    let ghost occ0 = table.occ.by_gpu@;
    let mut k: usize = 0;
    while k < binding.map.len()
        invariant
            k <= binding.map@.len(),
            table.occ.by_gpu@ == occ0.union_prefer_right(claimed(binding.map@.take(k as int), job.id)),
            table.by_id == old(table).by_id,
            table.next_admit_seq == old(table).next_admit_seq,
        decreases binding.map@.len() - k,
    {
        let g = binding.map[k].1;
        table.occ.by_gpu.insert(g.0, job.id);
        proof {
            assert(binding.map@.take(k + 1).drop_last() =~= binding.map@.take(k as int));
            assert(binding.map@.take(k + 1).last() == binding.map@[k as int]);
            assert(table.occ.by_gpu@ =~= occ0.union_prefer_right(claimed(binding.map@.take(k + 1), job.id)));
        }
        k = k + 1;
    }
    assert(binding.map@.take(binding.map@.len() as int) =~= binding.map@);
    // Commit the rates.
    let mut cir: BTreeMap<u32, u64> = BTreeMap::new();
    let ghost dense = plan.cir@;
    let mut e: usize = 0;
    while e < plan.cir.len()
        invariant
            dense == plan.cir@,
            dense.len() == graph.links@.len(),
            graph.links@.len() <= u32::MAX,
            e <= dense.len(),
            cir@ == committed(dense.take(e as int)),
            residual.cir@.len() == old(residual).cir@.len(),
            residual.r_avail@.len() == old(residual).r_avail@.len(),
            old(residual).r_avail@.len() >= old(residual).cir@.len(),
            old(residual).consistent(graph) ==> residual.consistent(graph),
            residual.q_bytes == old(residual).q_bytes,
            residual.overflowed == old(residual).overflowed,
            forall|i: int|
                0 <= i < old(residual).cir@.len() ==> #[trigger] residual.cir@[i] == if i < e && dense[i] > 0 {
                    sat_add(old(residual).cir@[i], dense[i])
                } else {
                    old(residual).cir@[i]
                },
        decreases dense.len() - e,
    {
        let rho = plan.cir[e];
        if rho > 0 {
            residual.inject_cir(graph, LinkId(e as u32), rho);
            cir.insert(e as u32, rho);
        }
        proof {
            assert(cir@ =~= committed(dense.take(e + 1)));
        }
        e = e + 1;
    }
    assert(dense.take(dense.len() as int) =~= dense);
    assert(job.dp <= 1 ==> cir@.dom() =~= Set::<u32>::empty());
    let admit_seq = AdmitSeq(table.next_admit_seq);
    table.next_admit_seq = table.next_admit_seq + 1;
    let rec = JobRec {
        spec: *job,
        state: JobState::Computing,
        admit_seq: Some(admit_seq),
        binding: Some(binding),
        paths: plan.paths,
        cir,
        planned: plan.planned,
        t_pred_ps: plan.t_pred,
        step_index: 0,
        steps_done: 0,
        reject: None,
    };
    table.by_id.insert(job.id.0, rec);
    assert(table.by_id@.remove(job.id.0) =~= old(table).by_id@.remove(job.id.0));
    let at = sat_add_i128(job.arrive.ps, job.compute_ps);
    fel.push(at, EventKind::StepBoundary, EventPayload::StepBoundary { job: job.id, step: 0 });
    Ok(())
}

/// Step-boundary events in the list.
pub open spec fn step_count(s: Seq<Event>) -> nat
    decreases s.len(),
{
    if s.len() == 0 {
        0
    } else {
        step_count(s.drop_last()) + if s.last().payload is StepBoundary {
            1nat
        } else {
            0nat
        }
    }
}

proof fn lemma_step_count_split(a: Seq<Event>, b: Seq<Event>)
    ensures
        step_count(a + b) == step_count(a) + step_count(b),
    decreases b.len(),
{
    if b.len() > 0 {
        lemma_step_count_split(a, b.drop_last());
        assert((a + b).drop_last() =~= a + b.drop_last());
    } else {
        assert(a + b =~= a);
    }
}

proof fn lemma_step_count_insert(s: Seq<Event>, pos: int, e: Event)
    requires
        0 <= pos <= s.len(),
        !(e.payload is StepBoundary),
    ensures
        step_count(s.insert(pos, e)) == step_count(s),
{
    assert(s.insert(pos, e) =~= s.take(pos) + (seq![e] + s.skip(pos)));
    assert(s =~= s.take(pos) + s.skip(pos));
    lemma_step_count_split(s.take(pos), seq![e] + s.skip(pos));
    lemma_step_count_split(seq![e], s.skip(pos));
    lemma_step_count_split(s.take(pos), s.skip(pos));
    assert(seq![e].drop_last() =~= Seq::<Event>::empty());
    reveal_with_fuel(step_count, 2);
    assert(step_count(seq![e]) == 0);
}

proof fn lemma_step_count_first(s: Seq<Event>)
    requires
        s.len() > 0,
    ensures
        step_count(s) == step_count(s.drop_first()) + if s[0].payload is StepBoundary {
            1nat
        } else {
            0nat
        },
{
    assert(s =~= seq![s[0]] + s.drop_first());
    lemma_step_count_split(seq![s[0]], s.drop_first());
    assert(seq![s[0]].drop_last() =~= Seq::<Event>::empty());
    reveal_with_fuel(step_count, 2);
}

/// Pop events, turning each step boundary into a collective start at the same
/// time (and its job, if recorded, into `Collecting`), until another event
/// comes up; return that one, or nothing once the list is empty.
pub fn pump_until_collective_start(table: &mut JobTable, fel: &mut Fel) -> (r: Option<Event>)
    requires
        old(fel).next_seq_spec() + step_count(old(fel)@) < u64::MAX,
    ensures
        r matches Some(e) ==> !(e.payload is StepBoundary),
        r is None ==> final(fel)@.len() == 0,
        events_sorted(final(fel)@),
        final(table).by_id@.dom() == old(table).by_id@.dom(),
        forall|k: u32|
            #[trigger] final(table).by_id@.contains_key(k) ==> final(table).by_id@[k].state == old(table).by_id@[k].state
                || final(table).by_id@[k].state == JobState::Collecting,
        final(table).occ.by_gpu@ == old(table).occ.by_gpu@,
        final(table).next_admit_seq == old(table).next_admit_seq,
{
    loop
        invariant
            fel.next_seq_spec() + step_count(fel@) < u64::MAX,
            table.by_id@.dom() == old(table).by_id@.dom(),
            forall|k: u32|
                #[trigger] table.by_id@.contains_key(k) ==> table.by_id@[k].state == old(table).by_id@[k].state
                    || table.by_id@[k].state == JobState::Collecting,
            table.occ.by_gpu@ == old(table).occ.by_gpu@,
            table.next_admit_seq == old(table).next_admit_seq,
        decreases step_count(fel@),
    {
        let ghost before = fel@;
        let popped = fel.pop();
        match popped {
            None => {
                return None;
            },
            Some(e) => {
                proof {
                    lemma_step_count_first(before);
                }
                match e.payload {
                    EventPayload::StepBoundary { job, step } => {
                        let got = table.by_id.remove(&job.0);
                        match got {
                            Some(rec) => {
                                let mut rec = rec;
                                rec.state = JobState::Collecting;
                                table.by_id.insert(job.0, rec);
                                assert(table.by_id@.dom() =~= old(table).by_id@.dom());
                            },
                            None => {},
                        }
                        let ghost mid = fel@;
                        let ghost sq = fel.next_seq_spec();
                        fel.push(
                            e.t.ps,
                            EventKind::CollectiveStart,
                            EventPayload::CollectiveStart { job, step },
                        );
                        proof {
                            let pos = choose|pos: int|
                                0 <= pos <= mid.len() && fel@ == #[trigger] mid.insert(
                                    pos,
                                    Event {
                                        t: SimTime { ps: e.t.ps, seq: sq },
                                        kind: EventKind::CollectiveStart,
                                        payload: EventPayload::CollectiveStart { job, step },
                                    },
                                );
                            lemma_step_count_insert(
                                mid,
                                pos,
                                Event {
                                    t: SimTime { ps: e.t.ps, seq: sq },
                                    kind: EventKind::CollectiveStart,
                                    payload: EventPayload::CollectiveStart { job, step },
                                },
                            );
                        }
                    },
                    _ => {
                        return Some(e);
                    },
                }
            },
        }
    }
}

} // verus!
