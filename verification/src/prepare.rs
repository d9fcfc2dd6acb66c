//! The prepare step of a failure epoch: on a copy of the graph, apply the
//! failures, sort the live jobs into kills, reroutes and keeps, and rebuild the
//! committed rates. Nothing live is touched.
use vstd::prelude::*;
use std::collections::BTreeMap;

use crate::arith::sat_add_i128;
use crate::epoch::{
    epoch_spine_class, i2_broken, i3_broken, is_live, job_on_dead_gpu, job_paths_hit_failed,
    path_hits_failed, spec_i2_broken, spec_i3_broken, spec_link_broken, spec_on_dead_gpu, spec_path_hits_failed,
    spec_paths_hit_failed, spec_spine_class,
};
use crate::failures::{apply_fail, failed_by, law_failure_keeps_wf};
use crate::fel::Event;
use crate::mix::JobSpec;
use crate::model::{lemma_round_half_even_le, phase_duration_ps, spec_phase_duration_ps, ALPHA_PS, PS_PER_S};
use crate::naive::{lemma_feasible_bounds, naive_flow, naive_route, phys_left, same_node, some_route, within_leftover};
use crate::paths::{copy_path, paths_view, spec_candidates, Path, PathMode};
use crate::residual::{add_cir, fold_cir, lemma_injected_is_add, cir_injected, inj_val, lemma_inject_done, lemma_inject_step, Residual};
use crate::table::{by_rank_of, communicators, lemma_by_rank_len, lemma_rank_bound, map_keys, spec_edges, spec_members, spec_n_phases, Binding, Flow, JobRec, JobTable};
use crate::topo::{graph_wf, spec_gpu, spec_link, Graph, Link, Node};
use crate::types::{CollectiveKind, EpochId, FlowId, GpuId, JobId, JobState, LinkId, Policy, RejectCode};
use crate::waterfill::{fill_ready, lo_at, water_fill};

verus! {

broadcast use vstd::std_specs::btree::group_btree_axioms, vstd::laws_cmp::group_laws_cmp;

/// A live job's new routes and commitments after a failure.
#[derive(Clone, Debug)]
pub struct Reroute {
    pub job: JobId,
    pub paths: Vec<Path>,
    pub planned: Vec<Flow>,
    /// Committed rate per link id.
    pub cir: BTreeMap<u32, u64>,
    pub t_pred_ps: i128,
}

/// What commit installs: the failed graph, the rebuilt residual, the jobs to
/// kill (in admit order), the reroutes, and the epoch step.
#[derive(Clone, Debug)]
pub struct EpochPlan {
    pub graph: Graph,
    pub residual: Residual,
    pub kills: Vec<JobId>,
    pub reroutes: Vec<Reroute>,
    pub from: EpochId,
    pub to: EpochId,
}

/// The job's shape fits its GPU count and its phase count fits in `u32`.
pub open spec fn shape_ok(job: JobSpec) -> bool {
    &&& (job.pp as int) * (job.dp as int) * (job.tp as int) <= job.gpu_count
    &&& job.dp >= 1 ==> 2 * (job.dp - 1) <= u32::MAX
}

/// Every record sits under its own job id and has a sound shape.
pub open spec fn table_wf(table: &JobTable) -> bool {
    forall|id: u32|
        #[trigger] table.by_id@.contains_key(id) ==> shape_ok(table.by_id@[id].spec) && table.by_id@[id].spec.id
            == JobId(id)
}

/// Two graphs with the same contents.
pub open spec fn same_graph(a: &Graph, b: &Graph) -> bool {
    &&& a.epoch == b.epoch
    &&& a.params == b.params
    &&& a.nodes@.len() == b.nodes@.len()
    &&& forall|i: int|
        0 <= i < a.nodes@.len() ==> (#[trigger] a.nodes@[i]).id == b.nodes@[i].id && a.nodes@[i].present
            == b.nodes@[i].present && a.nodes@[i].gpus@ == b.nodes@[i].gpus@
    &&& a.gpus@ == b.gpus@
    &&& a.leaves@ == b.leaves@
    &&& a.spines@ == b.spines@
    &&& a.links@ == b.links@
}

fn copy_vec<T: Copy>(v: &Vec<T>) -> (r: Vec<T>)
    ensures
        r@ == v@,
{
    let mut out: Vec<T> = Vec::new();
    let mut i: usize = 0;
    while i < v.len()
        invariant
            i <= v@.len(),
            out@ == v@.take(i as int),
        decreases v@.len() - i,
    {
        out.push(v[i]);
        i = i + 1;
        assert(out@ =~= v@.take(i as int));
    }
    assert(v@.take(v@.len() as int) =~= v@);
    out
}

/// A copy of the graph, element by element.
pub fn copy_graph(g: &Graph) -> (r: Graph)
    ensures
        same_graph(&r, g),
{
    let mut nodes: Vec<Node> = Vec::new();
    let mut i: usize = 0;
    while i < g.nodes.len()
        invariant
            i <= g.nodes@.len(),
            nodes@.len() == i,
            forall|k: int|
                0 <= k < i ==> (#[trigger] nodes@[k]).id == g.nodes@[k].id && nodes@[k].present
                    == g.nodes@[k].present && nodes@[k].gpus@ == g.nodes@[k].gpus@,
        decreases g.nodes@.len() - i,
    {
        let n = &g.nodes[i];
        nodes.push(Node { id: n.id, gpus: copy_vec(&n.gpus), present: n.present });
        i = i + 1;
    }
    Graph {
        epoch: g.epoch,
        params: g.params,
        nodes,
        gpus: copy_vec(&g.gpus),
        leaves: copy_vec(&g.leaves),
        spines: copy_vec(&g.spines),
        links: copy_vec(&g.links),
    }
}

/// What a rebuilt route promises: it belongs to the job, it meets the deadline,
/// every path and planned flow avoids broken links, every planned flow moves at
/// a positive rate, and rate is committed only on sound links.
pub open spec fn reroute_sound(x: Reroute, job: JobSpec, g: &Graph) -> bool {
    &&& x.job == job.id
    &&& 0 <= x.t_pred_ps <= job.deadline_ps
    &&& forall|k: int| 0 <= k < x.paths@.len() ==> !spec_path_hits_failed(g, (#[trigger] x.paths@[k]).links@)
    &&& forall|k: int|
        0 <= k < x.planned@.len() ==> {
            &&& (#[trigger] x.planned@[k]).job == job.id
            &&& x.planned@[k].rate_Bps >= 1
            &&& !spec_path_hits_failed(g, x.planned@[k].path.links@)
        }
    &&& forall|e: u32| #[trigger] x.cir@.contains_key(e) ==> x.cir@[e] > 0 && !spec_link_broken(g, LinkId(e))
}

/// The nonzero entries of a dense per-link table as a map from link id.
fn sparse(dense: &Vec<u64>) -> (m: BTreeMap<u32, u64>)
    requires
        dense@.len() <= u32::MAX + 1,
    ensures
        forall|e: u32| #[trigger] m@.contains_key(e) <==> (e as int) < dense@.len() && dense@[e as int] > 0,
        forall|e: u32| #[trigger] m@.contains_key(e) ==> m@[e] == dense@[e as int],
{
    let mut m: BTreeMap<u32, u64> = BTreeMap::new();
    let mut i: usize = 0;
    while i < dense.len()
        invariant
            i <= dense@.len(),
            dense@.len() <= u32::MAX + 1,
            forall|e: u32| #[trigger] m@.contains_key(e) <==> (e as int) < i && dense@[e as int] > 0,
            forall|e: u32| #[trigger] m@.contains_key(e) ==> m@[e] == dense@[e as int],
        decreases dense@.len() - i,
    {
        if dense[i] > 0 {
            m.insert(i as u32, dense[i]);
        }
        i = i + 1;
    }
    m
}

/// Rebuild a job's routes on the failed graph: every fabric transfer on its
/// first equal-cost route, each phase water-filled over the physical leftover,
/// and per link the largest phase load committed. No route, a route over a
/// broken link, a failed fill, a zero bottleneck, or a prediction past the
/// deadline gives nothing. A bound job whose exchanges stay inside one node
/// needs no route and is always rebuilt while its deadline is not past; and a
/// bound job is always rebuilt when every transfer leaving its node has a live
/// first route, every phase's routes can be filled, and even one byte per
/// second per transfer would meet its deadline.
pub fn naive_rebuild(rec: &JobRec, graph: &Graph, residual: &Residual) -> (r: Option<Reroute>)
    requires
        graph_wf(graph),
        graph.links@.len() <= u32::MAX,
        shape_ok(rec.spec),
    ensures
        rec.binding is None ==> r is None,
        r matches Some(x) ==> reroute_sound(x, rec.spec, graph),
        r matches Some(x) ==> x.job == rec.spec.id && x.t_pred_ps <= rec.spec.deadline_ps,
        sure_rebuild(*rec, graph) ==> (r matches Some(x) && x.paths@.len() == 0 && x.planned@.len() == 0 && x.t_pred_ps == 0
            && x.cir@.dom() == Set::<u32>::empty()),
        r matches Some(x) ==> forall|q: int|
            0 <= q < x.planned@.len() ==> naive_flow(graph, residual, rec.spec.id, #[trigger] x.planned@[q])
                && within_leftover(phys_left(graph, residual), x.planned@[q]),
        rebuild_ready(*rec, graph, residual) ==> r is Some,
{
    let ghost ready = rebuild_ready(*rec, graph, residual);
    let binding: &Binding = match &rec.binding {
        None => return None,
        Some(b) => b,
    };
    let job = &rec.spec;
    let comms = communicators(binding, job);
    let ghost br = by_rank_of(binding.map@, job.gpu_count as nat);
    let ghost in_node = stays_in_node(*rec, graph);
    proof {
        lemma_by_rank_len(binding.map@, job.gpu_count as nat);
    }
    let leftover = residual.physical_leftover(graph);
    assert(leftover@ =~= phys_left(graph, residual));
    let nl = graph.links.len();
    let mut cir: Vec<u64> = Vec::new();
    let mut z: usize = 0;
    while z < nl
        invariant
            z <= nl,
            cir@.len() == z,
            forall|e: int| 0 <= e < z ==> #[trigger] cir@[e] == 0,
        decreases nl - z,
    {
        cir.push(0);
        z = z + 1;
    }
    let mut paths: Vec<Path> = Vec::new();
    let mut planned: Vec<Flow> = Vec::new();
    let mut t_pred: i128 = 0;
    let mut ci: usize = 0;
    while ci < comms.len()
        invariant
            graph_wf(graph),
            nl == graph.links@.len(),
            nl <= u32::MAX,
            leftover@.len() == nl,
            cir@.len() == nl,
            t_pred >= 0,
            forall|c: int| 0 <= c < comms@.len() ==> (#[trigger] comms@[c]).members@.len() == comms@[c].p,
            forall|c: int| 0 <= c < comms@.len() ==> (#[trigger] comms@[c]).p == job.dp,
            forall|c: int| 0 <= c < comms@.len() ==> (#[trigger] comms@[c]).members@ == spec_members(*job, br, c),
            job.dp > 0 ==> comms@.len() == (job.pp as int) * (job.tp as int),
            job.dp == 0 ==> comms@.len() == 0,
            br == by_rank_of(binding.map@, job.gpu_count as nat),
            br.len() == job.gpu_count,
            shape_ok(*job),
            rec.binding == Some(*binding),
            in_node == stays_in_node(*rec, graph),
            in_node ==> paths@.len() == 0 && planned@.len() == 0 && t_pred == 0 && forall|e: int| 0 <= e < nl ==> #[trigger] cir@[e] == 0,
            ready == rebuild_ready(*rec, graph, residual),
            ready ==> t_pred <= slowest_prediction(*job),
            forall|c: int|
                0 <= c < comms@.len() ==> (#[trigger] comms@[c]).kind == job.collective && comms@[c].n_phases
                    == spec_n_phases(job.collective, job.dp as nat) && comms@[c].chunk_bytes == job.payload_bytes / (
                job.dp as u64),
            *job == rec.spec,
            forall|k: int| 0 <= k < paths@.len() ==> !spec_path_hits_failed(graph, (#[trigger] paths@[k]).links@),
            forall|k: int|
                0 <= k < planned@.len() ==> {
                    &&& (#[trigger] planned@[k]).job == job.id
                    &&& planned@[k].rate_Bps >= 1
                    &&& !spec_path_hits_failed(graph, planned@[k].path.links@)
                },
            forall|e: int| 0 <= e < nl && #[trigger] cir@[e] > 0 ==> !spec_link_broken(graph, LinkId(e as u32)),
            leftover@ == phys_left(graph, residual),
            forall|q: int|
                0 <= q < planned@.len() ==> naive_flow(graph, residual, job.id, #[trigger] planned@[q]) && within_leftover(
                    leftover@,
                    planned@[q],
                ),
        decreases comms@.len() - ci,
    {
        let comm = &comms[ci];
        proof {
            if in_node && job.dp > 1 {
                lemma_members_one_node(graph, *job, br, ci as int);
            }
        }
        let mut t_comm: i128 = 0;
        let mut has_fabric = false;
        let mut phi: u32 = 0;
        while phi < comm.n_phases
            invariant
                graph_wf(graph),
                nl == graph.links@.len(),
                nl <= u32::MAX,
                leftover@.len() == nl,
                cir@.len() == nl,
                comm.members@.len() == comm.p,
                comm.p == job.dp,
                in_node ==> paths@.len() == 0 && planned@.len() == 0 && !has_fabric && forall|e: int| 0 <= e < nl ==> #[trigger] cir@[e] == 0,
                in_node == stays_in_node(*rec, graph),
                ready == rebuild_ready(*rec, graph, residual),
                ci < comms@.len(),
                *comm == comms@[ci as int],
                comm.kind == job.collective,
                comm.n_phases == spec_n_phases(job.collective, job.dp as nat),
                comm.chunk_bytes == job.payload_bytes / (job.dp as u64),
                comm.members@ == spec_members(*job, br, ci as int),
                br == by_rank_of(binding.map@, job.gpu_count as nat),
                rec.binding == Some(*binding),
                job.dp > 0 ==> comms@.len() == (job.pp as int) * (job.tp as int),
                job.dp == 0 ==> comms@.len() == 0,
                leftover@ == phys_left(graph, residual),
                ready ==> t_comm <= phi * (ALPHA_PS + comm.chunk_bytes * PS_PER_S),
                in_node && job.dp > 1 ==> forall|a: int, b: int|
                    0 <= a < job.dp && 0 <= b < job.dp ==> spec_gpu(graph, #[trigger] comm.members@[a]) is Some && spec_gpu(
                        graph,
                        comm.members@[a],
                    )->0.node == spec_gpu(graph, #[trigger] comm.members@[b])->0.node,
                *job == rec.spec,
                t_comm >= 0,
                phi <= comm.n_phases,
                forall|k: int| 0 <= k < paths@.len() ==> !spec_path_hits_failed(graph, (#[trigger] paths@[k]).links@),
                forall|k: int|
                    0 <= k < planned@.len() ==> {
                        &&& (#[trigger] planned@[k]).job == job.id
                        &&& planned@[k].rate_Bps >= 1
                        &&& !spec_path_hits_failed(graph, planned@[k].path.links@)
                    },
                forall|e: int| 0 <= e < nl && #[trigger] cir@[e] > 0 ==> !spec_link_broken(graph, LinkId(e as u32)),
                forall|q: int|
                    0 <= q < planned@.len() ==> naive_flow(graph, residual, job.id, #[trigger] planned@[q]) && within_leftover(
                        leftover@,
                        planned@[q],
                    ),
            decreases comm.n_phases - phi,
        {
            let edges = comm.edges(phi);
            proof {
                if in_node && job.dp > 1 {
                    let p = job.dp as int;
                    let h: int = match comm.kind {
                        CollectiveKind::RingAllReduce => 1,
                        CollectiveKind::PairwiseAllToAll => phi + 1,
                    };
                    assert forall|a: int| 0 <= a < edges@.len() implies spec_gpu(graph, (#[trigger] edges@[a]).0) is Some
                        && spec_gpu(graph, edges@[a].1) is Some && spec_gpu(graph, edges@[a].0)->0.node == spec_gpu(
                        graph,
                        edges@[a].1,
                    )->0.node by {
                        let b = (a + h) % p;
                        assert(0 <= b < p) by (nonlinear_arith)
                            requires
                                p > 0,
                                b == (a + h) % p,
                        ;
                        assert(edges@[a] == (comm.members@[a], comm.members@[b]));
                    }
                }
                if ready {
                    assert(job.dp > 0);
                    assert(0 <= ci < (rec.spec.pp as int) * (rec.spec.tp as int));
                    assert(rec.binding->0 == *binding);
                    assert(0 <= phi < spec_n_phases(rec.spec.collective, rec.spec.dp as nat));
                    lemma_ready_phase(*rec, graph, residual, ci as int, phi as int);
                    assert(phase_ready(graph, residual, edges@));
                }
                assert(edges@.take(0) =~= Seq::<(GpuId, GpuId)>::empty());
            }
            let mut flows: Vec<Flow> = Vec::new();
            let mut flow_paths: Vec<Path> = Vec::new();
            let mut k: usize = 0;
            while k < edges.len()
                invariant
                    graph_wf(graph),
                    k <= edges@.len(),
                    flows@.len() == flow_paths@.len(),
                    forall|f: int| 0 <= f < flows@.len() ==> (#[trigger] flows@[f]).path.links@ == flow_paths@[f].links@,
                    forall|f: int|
                        0 <= f < flows@.len() ==> (#[trigger] flows@[f]).job == job.id && !spec_path_hits_failed(
                            graph,
                            flows@[f].path.links@,
                        ),
                    forall|q: int| 0 <= q < paths@.len() ==> !spec_path_hits_failed(graph, (#[trigger] paths@[q]).links@),
                    job.dp <= 1 ==> edges@.len() == 0,
                    in_node ==> flows@.len() == 0 && !has_fabric && paths@.len() == 0,
                    in_node == stays_in_node(*rec, graph),
                    in_node ==> forall|a: int|
                        0 <= a < edges@.len() ==> spec_gpu(graph, (#[trigger] edges@[a]).0) is Some && spec_gpu(graph, edges@[a].1) is Some
                            && spec_gpu(graph, edges@[a].0)->0.node == spec_gpu(graph, edges@[a].1)->0.node,
                    *job == rec.spec,
                    forall|f: int| 0 <= f < flows@.len() ==> naive_flow(graph, residual, job.id, #[trigger] flows@[f]),
                    ready == rebuild_ready(*rec, graph, residual),
                    ready ==> phase_ready(graph, residual, edges@),
                    ready ==> paths_view(flow_paths@) == phase_routes(graph, residual, edges@.take(k as int)),
                decreases edges@.len() - k,
            {
                let (src, dst) = edges[k];
                let ghost fp0 = flow_paths@;
                proof {
                    assert(edges@.take(k + 1).drop_last() =~= edges@.take(k as int));
                    assert(edges@.take(k + 1).last() == edges@[k as int]);
                    if ready {
                        assert(phase_ready(graph, residual, edges@));
                        assert(crosses(graph, edges@[k as int].0, edges@[k as int].1) ==> route_exists(graph, residual, src, dst)
                            && !spec_path_hits_failed(graph, naive_route(graph, residual, src, dst)));
                    }
                }
                if !same_node(graph, src, dst) {
                    has_fabric = true;
                    let path = match some_route(src, dst, graph, residual) {
                        None => return None,
                        Some(p) => p,
                    };
                    if path_hits_failed(graph, &path) {
                        return None;
                    }
                    assert(path.links@ =~= naive_route(graph, residual, src, dst));
                    paths.push(copy_path(&path));
                    let fp = copy_path(&path);
                    flow_paths.push(fp);
                    proof {
                        assert(flow_paths@ == fp0.push(fp));
                        assert(paths_view(flow_paths@) =~= paths_view(fp0).push(naive_route(graph, residual, src, dst)));
                    }
                    flows.push(
                        Flow {
                            id: FlowId(0),
                            job: job.id,
                            comm: comm.index,
                            phase: phi,
                            src,
                            dst,
                            path,
                            rate_Bps: 0,
                            bytes: comm.chunk_bytes,
                        },
                    );
                }
                k = k + 1;
            }
            if flows.len() > 0 {
                proof {
                    assert(edges@.take(edges@.len() as int) =~= edges@);
                }
                let rates = match water_fill(flow_paths.as_slice(), leftover.as_slice()) {
                    Ok(rs) => rs,
                    Err(_) => return None,
                };
                proof {
                    assert forall|q: int| 0 <= q < flows@.len() implies within_leftover(
                        leftover@,
                        Flow { rate_Bps: rates@[q], ..#[trigger] flows@[q] },
                    ) by {
                        assert forall|j: int| 0 <= j < flows@[q].path.links@.len() implies rates@[q] <= lo_at(
                            leftover@,
                            (#[trigger] flows@[q].path.links@[j]).0 as int,
                        ) by {
                            assert(paths_view(flow_paths@)[q] == flows@[q].path.links@);
                            lemma_feasible_bounds(paths_view(flow_paths@), rates@, leftover@, q, j);
                        }
                    }
                }
                let mut b_eff: u64 = u64::MAX;
                let mut f: usize = 0;
                while f < rates.len()
                    invariant
                        f <= rates@.len(),
                        forall|q: int| 0 <= q < f ==> b_eff <= #[trigger] rates@[q],
                        forall|q: int| 0 <= q < rates@.len() ==> #[trigger] rates@[q] >= 1,
                        b_eff >= 1,
                    decreases rates@.len() - f,
                {
                    if rates[f] < b_eff {
                        b_eff = rates[f];
                    }
                    f = f + 1;
                }
                if b_eff == 0 {
                    return None;
                }
                let d = phase_duration_ps(comm.chunk_bytes, b_eff);
                proof {
                    lemma_round_half_even_le((comm.chunk_bytes * PS_PER_S) as nat, b_eff as nat);
                    assert(d <= ALPHA_PS + comm.chunk_bytes * PS_PER_S);
                    assert(d >= 0);
                }
                t_comm = sat_add_i128(t_comm, d);
                // Load per link of this phase, then the largest phase load.
                let mut load: Vec<u64> = Vec::new();
                let mut z: usize = 0;
                while z < nl
                    invariant
                        z <= nl,
                        load@.len() == z,
                        forall|e: int| 0 <= e < z ==> #[trigger] load@[e] == 0,
                    decreases nl - z,
                {
                    load.push(0);
                    z = z + 1;
                }
                let mut f: usize = 0;
                while f < flows.len()
                    invariant
                        graph_wf(graph),
                        f <= flows@.len(),
                        flows@.len() == rates@.len(),
                        load@.len() == nl,
                        nl == graph.links@.len(),
                        forall|q: int|
                            0 <= q < flows@.len() ==> !spec_path_hits_failed(graph, (#[trigger] flows@[q]).path.links@),
                        forall|e: int| 0 <= e < nl && #[trigger] load@[e] > 0 ==> !spec_link_broken(graph, LinkId(e as u32)),
                    decreases flows@.len() - f,
                {
                    let p = &flows[f].path;
                    assert(!spec_path_hits_failed(graph, flows@[f as int].path.links@));
                    let mut j: usize = 0;
                    while j < p.links.len()
                        invariant
                            graph_wf(graph),
                            j <= p.links@.len(),
                            load@.len() == nl,
                            nl == graph.links@.len(),
                            f < rates@.len(),
                            !spec_path_hits_failed(graph, p.links@),
                            forall|e: int| 0 <= e < nl && #[trigger] load@[e] > 0 ==> !spec_link_broken(graph, LinkId(e as u32)),
                        decreases p.links@.len() - j,
                    {
                        let e = p.links[j].0 as usize;
                        if e < load.len() {
                            assert(!spec_link_broken(graph, p.links@[j as int]));
                            assert(LinkId(e as u32) == p.links@[j as int]);
                            let v = load[e].saturating_add(rates[f]);
                            load.set(e, v);
                        }
                        j = j + 1;
                    }
                    f = f + 1;
                }
                let mut e: usize = 0;
                while e < nl
                    invariant
                        e <= nl,
                        load@.len() == nl,
                        cir@.len() == nl,
                        forall|q: int| 0 <= q < nl && #[trigger] load@[q] > 0 ==> !spec_link_broken(graph, LinkId(q as u32)),
                        forall|q: int| 0 <= q < nl && #[trigger] cir@[q] > 0 ==> !spec_link_broken(graph, LinkId(q as u32)),
                    decreases nl - e,
                {
                    if load[e] > cir[e] {
                        cir.set(e, load[e]);
                    }
                    e = e + 1;
                }
                // Planned flows carry their rates.
                let mut f: usize = 0;
                while f < flows.len()
                    invariant
                        f <= flows@.len(),
                        flows@.len() == rates@.len(),
                        forall|q: int| 0 <= q < rates@.len() ==> b_eff <= #[trigger] rates@[q],
                        b_eff >= 1,
                        forall|q: int|
                            0 <= q < flows@.len() ==> (#[trigger] flows@[q]).job == job.id && !spec_path_hits_failed(
                                graph,
                                flows@[q].path.links@,
                            ),
                        forall|q: int|
                            0 <= q < planned@.len() ==> {
                                &&& (#[trigger] planned@[q]).job == job.id
                                &&& planned@[q].rate_Bps >= 1
                                &&& !spec_path_hits_failed(graph, planned@[q].path.links@)
                            },
                        forall|q: int| 0 <= q < flows@.len() ==> naive_flow(graph, residual, job.id, #[trigger] flows@[q]),
                        forall|q: int|
                            0 <= q < flows@.len() ==> within_leftover(
                                leftover@,
                                Flow { rate_Bps: rates@[q], ..#[trigger] flows@[q] },
                            ),
                        forall|q: int|
                            0 <= q < planned@.len() ==> naive_flow(graph, residual, job.id, #[trigger] planned@[q])
                                && within_leftover(leftover@, planned@[q]),
                    decreases flows@.len() - f,
                {
                    let fl = &flows[f];
                    let np = copy_path(&fl.path);
                    planned.push(
                        Flow {
                            id: fl.id,
                            job: fl.job,
                            comm: fl.comm,
                            phase: fl.phase,
                            src: fl.src,
                            dst: fl.dst,
                            path: np,
                            rate_Bps: rates[f],
                            bytes: fl.bytes,
                        },
                    );
                    proof {
                        let fq = Flow { rate_Bps: rates@[f as int], ..flows@[f as int] };
                        assert(within_leftover(leftover@, fq));
                        let nf = planned@[planned@.len() - 1];
                        assert(nf.path.links@ == fq.path.links@ && nf.rate_Bps == fq.rate_Bps);
                        assert forall|j: int| 0 <= j < nf.path.links@.len() implies nf.rate_Bps <= lo_at(
                            leftover@,
                            (#[trigger] nf.path.links@[j]).0 as int,
                        ) by {
                            assert(fq.path.links@[j] == nf.path.links@[j]);
                        }
                    }
                    f = f + 1;
                }
            }
            proof {
                let d1 = ALPHA_PS + comm.chunk_bytes * PS_PER_S;
                assert((phi + 1) * d1 == phi * d1 + d1) by (nonlinear_arith);
            }
            phi = phi + 1;
        }
        if has_fabric && t_comm > t_pred {
            t_pred = t_comm;
        }
        ci = ci + 1;
    }
    if t_pred > job.deadline_ps {
        return None;
    }
    let m = sparse(&cir);
    assert(job.dp <= 1 ==> m@.dom() =~= Set::<u32>::empty());
    Some(Reroute { job: job.id, paths, planned, cir: m, t_pred_ps: t_pred })
}

/// Admission order of a job: its admit sequence, last when it has none or is
/// unknown.
pub open spec fn admit_key(table: &JobTable, id: u32) -> u64 {
    if table.by_id@.contains_key(id) {
        match table.by_id@[id].admit_seq {
            Some(s) => s.0,
            None => u64::MAX,
        }
    } else {
        u64::MAX
    }
}

/// Ids in admission order.
pub open spec fn in_admit_order(table: &JobTable, s: Seq<u32>) -> bool {
    forall|i: int, j: int| 0 <= i < j < s.len() ==> admit_key(table, #[trigger] s[i]) <= admit_key(table, #[trigger] s[j])
}

fn key_of(table: &JobTable, id: u32) -> (k: u64)
    ensures
        k == admit_key(table, id),
{
    match table.by_id.get(&id) {
        Some(rec) => match rec.admit_seq {
            Some(s) => s.0,
            None => u64::MAX,
        },
        None => u64::MAX,
    }
}

/// The ids rearranged into admission order; ties keep their order.
fn sort_by_admit(table: &JobTable, ids: &Vec<u32>) -> (r: Vec<u32>)
    ensures
        r@.to_multiset() == ids@.to_multiset(),
        in_admit_order(table, r@),
{
    let mut out: Vec<u32> = Vec::new();
    let mut i: usize = 0;
    assert(ids@.take(0) =~= out@);
    while i < ids.len()
        invariant
            i <= ids@.len(),
            out@.to_multiset() == ids@.take(i as int).to_multiset(),
            in_admit_order(table, out@),
        decreases ids@.len() - i,
    {
        let x = ids[i];
        let kx = key_of(table, x);
        let mut p: usize = 0;
        while p < out.len()
            invariant
                p <= out@.len(),
                forall|q: int| 0 <= q < p ==> admit_key(table, #[trigger] out@[q]) <= kx,
            ensures
                p <= out@.len(),
                forall|q: int| 0 <= q < p ==> admit_key(table, #[trigger] out@[q]) <= kx,
                p < out@.len() ==> admit_key(table, out@[p as int]) > kx,
            decreases out@.len() - p,
        {
            if key_of(table, out[p]) > kx {
                break;
            }
            p = p + 1;
        }
        let ghost before = out@;
        assert forall|q: int| p <= q < before.len() implies admit_key(table, #[trigger] before[q]) > kx by {
            assert(admit_key(table, before[p as int]) > kx);
            if q > p {
                assert(admit_key(table, before[p as int]) <= admit_key(table, before[q]));
            }
        }
        out.insert(p, x);
        assert(out@ == before.insert(p as int, x));
        assert forall|a: int, b: int| 0 <= a < b < out@.len() implies admit_key(table, #[trigger] out@[a])
            <= admit_key(table, #[trigger] out@[b]) by {
            if b < p {
            } else if a < p && b == p {
            } else if a < p && b > p {
                assert(out@[b] == before[b - 1]);
            } else if a == p {
                assert(out@[b] == before[b - 1]);
            } else {
                assert(out@[a] == before[a - 1]);
                assert(out@[b] == before[b - 1]);
            }
        }
        assert(ids@.take(i + 1) == ids@.take(i as int).push(x));
        proof {
            vstd::seq_lib::to_multiset_insert(before, p as int, x);
            vstd::seq_lib::to_multiset_build(ids@.take(i as int), x);
        }
        i = i + 1;
    }
    assert(ids@.take(ids@.len() as int) == ids@);
    out
}

/// Reordering keeps a list free of repeats.
proof fn lemma_reorder_no_dups(a: Seq<u32>, b: Seq<u32>)
    requires
        a.to_multiset() == b.to_multiset(),
        b.no_duplicates(),
    ensures
        a.no_duplicates(),
{
    b.lemma_multiset_has_no_duplicates();
    a.lemma_multiset_has_no_duplicates_conv();
}

/// `chain` starts from a graph and takes each failure in turn.
pub open spec fn fail_chain(chain: Seq<Graph>, fails: Seq<Event>) -> bool {
    &&& chain.len() == fails.len() + 1
    &&& forall|k: int| 0 <= k < fails.len() ==> failed_by(&chain[k], &chain[k + 1], (#[trigger] fails[k]).payload)
}

/// `g` is `last` in the new epoch `to`, every link's byte count cleared.
pub open spec fn settled(last: &Graph, g: &Graph, to: EpochId) -> bool {
    &&& g.epoch == to
    &&& g.params == last.params
    &&& g.gpus@ == last.gpus@
    &&& g.leaves@ == last.leaves@
    &&& g.spines@ == last.spines@
    &&& g.links@.len() == last.links@.len()
    &&& forall|i: int|
        0 <= i < g.links@.len() ==> #[trigger] g.links@[i] == (Link { bytes_this_epoch: 0, ..last.links@[i] })
}

/// The epoch after `e`, saturating.
pub open spec fn next_epoch(e: EpochId) -> EpochId {
    EpochId(if e.0 < u32::MAX { (e.0 + 1) as u32 } else { u32::MAX })
}

/// The job is in the table and holds GPUs.
pub open spec fn live_in(table: &JobTable, id: u32) -> bool {
    table.by_id@.contains_key(id) && is_live(table.by_id@[id].state)
}

/// A live job to kill: it sits on a dead GPU.
pub open spec fn kill_class(table: &JobTable, g: &Graph, id: u32) -> bool {
    live_in(table, id) && spec_on_dead_gpu(table.by_id@[id], g)
}

/// A live job to move: its GPUs are sound but a route is broken, or the
/// epoch lost a spine or a leaf-spine link.
pub open spec fn move_class(table: &JobTable, g: &Graph, spine_epoch: bool, id: u32) -> bool {
    &&& live_in(table, id)
    &&& !spec_on_dead_gpu(table.by_id@[id], g)
    &&& (spec_paths_hit_failed(table.by_id@[id], g) || spine_epoch)
}

/// A live job left as it is.
pub open spec fn keep_class(table: &JobTable, g: &Graph, spine_epoch: bool, id: u32) -> bool {
    &&& live_in(table, id)
    &&& !spec_on_dead_gpu(table.by_id@[id], g)
    &&& !spec_paths_hit_failed(table.by_id@[id], g)
    &&& !spine_epoch
}

/// The jobs some reroute moves.
pub open spec fn rerouted(rs: Seq<Reroute>, id: u32) -> bool {
    exists|k: int| 0 <= k < rs.len() && (#[trigger] rs[k]).job == JobId(id)
}

/// The ids of a list of jobs.
pub open spec fn job_ids(v: Seq<JobId>) -> Seq<u32> {
    v.map_values(|j: JobId| j.0)
}

/// What prepare promises of a plan.
pub open spec fn plan_sound(graph: &Graph, table: &JobTable, fails: Seq<Event>, plan: EpochPlan) -> bool {
    let g = &plan.graph;
    let sp = spec_spine_class(g, fails);
    &&& plan.from == graph.epoch
    &&& plan.to == next_epoch(graph.epoch)
    &&& exists|chain: Seq<Graph>|
        same_graph(&chain[0], graph) && fail_chain(chain, fails) && settled(&chain.last(), g, plan.to)
    &&& graph_wf(g)
    &&& plan.residual.consistent(g)
    &&& in_admit_order(table, job_ids(plan.kills@))
    &&& job_ids(plan.kills@).no_duplicates()
    &&& forall|k: int|
        0 <= k < plan.kills@.len() ==> kill_class(table, g, (#[trigger] plan.kills@[k]).0) || move_class(
            table,
            g,
            sp,
            plan.kills@[k].0,
        )
    &&& forall|id: u32| #[trigger] kill_class(table, g, id) ==> job_ids(plan.kills@).contains(id)
    &&& forall|k: int|
        0 <= k < plan.reroutes@.len() ==> {
            &&& move_class(table, g, sp, (#[trigger] plan.reroutes@[k]).job.0)
            &&& reroute_sound(plan.reroutes@[k], table.by_id@[plan.reroutes@[k].job.0].spec, g)
            &&& !job_ids(plan.kills@).contains(plan.reroutes@[k].job.0)
        }
    &&& forall|a: int, b: int|
        0 <= a < b < plan.reroutes@.len() ==> (#[trigger] plan.reroutes@[a]).job != (#[trigger] plan.reroutes@[b]).job
    &&& forall|id: u32|
        #[trigger] move_class(table, g, sp, id) ==> job_ids(plan.kills@).contains(id) || rerouted(plan.reroutes@, id)
}

/// A link with this index exists and has not failed.
pub open spec fn sound_link(g: &Graph, e: u32) -> bool {
    spec_link(g, LinkId(e)) matches Some(l) && !l.failed
}

/// The links of `g` that are sound.
pub open spec fn sound_of(g: Graph) -> spec_fn(u32) -> bool {
    |e: u32| sound_link(&g, e)
}

/// Every link.
pub open spec fn any_link() -> spec_fn(u32) -> bool {
    |e: u32| true
}

/// The commitment tables of the listed jobs.
pub open spec fn cirs_of(table: &JobTable, ids: Seq<u32>) -> Seq<Map<u32, u64>> {
    ids.map_values(|x: u32| table.by_id@[x].cir@)
}

/// The commitment tables of the reroutes.
pub open spec fn reroute_cirs(rs: Seq<Reroute>) -> Seq<Map<u32, u64>> {
    rs.map_values(|r: Reroute| r.cir@)
}

/// Every GPU listed exists and all sit on one node.
pub open spec fn one_node(graph: &Graph, gpus: Seq<GpuId>) -> bool {
    forall|i: int, j: int|
        0 <= i < gpus.len() && 0 <= j < gpus.len() ==> spec_gpu(graph, #[trigger] gpus[i]) is Some && spec_gpu(
            graph,
            gpus[i],
        )->0.node == spec_gpu(graph, #[trigger] gpus[j])->0.node
}

/// The job's exchanges never leave a node: no data-parallel exchange, or
/// every rank on one node.
pub open spec fn stays_in_node(rec: JobRec, graph: &Graph) -> bool {
    rec.spec.dp <= 1 || (rec.binding matches Some(b) && one_node(graph, by_rank_of(b.map@, rec.spec.gpu_count as nat)))
}

/// A transfer between two GPUs leaves its node: one of them is unknown or
/// they sit on different nodes.
pub open spec fn crosses(graph: &Graph, src: GpuId, dst: GpuId) -> bool {
    !(spec_gpu(graph, src) is Some && spec_gpu(graph, dst) is Some && spec_gpu(graph, src)->0.node == spec_gpu(
        graph,
        dst,
    )->0.node)
}

/// A transfer has a first equal-cost route.
pub open spec fn route_exists(graph: &Graph, residual: &Residual, src: GpuId, dst: GpuId) -> bool {
    spec_candidates(graph, residual, src, dst, PathMode::Ecmp).len() > 0
}

/// The naive routes of the transfers of a phase that leave their node, in order.
pub open spec fn phase_routes(graph: &Graph, residual: &Residual, edges: Seq<(GpuId, GpuId)>) -> Seq<Seq<LinkId>>
    decreases edges.len(),
{
    if edges.len() == 0 {
        Seq::empty()
    } else {
        let prev = phase_routes(graph, residual, edges.drop_last());
        let e = edges.last();
        if crosses(graph, e.0, e.1) {
            prev.push(naive_route(graph, residual, e.0, e.1))
        } else {
            prev
        }
    }
}

/// Every transfer of a phase that leaves its node has a first route, over
/// live links, and the phase's routes can be water-filled over what is left.
pub open spec fn phase_ready(graph: &Graph, residual: &Residual, edges: Seq<(GpuId, GpuId)>) -> bool {
    &&& forall|a: int|
        0 <= a < edges.len() && crosses(graph, (#[trigger] edges[a]).0, edges[a].1) ==> route_exists(
            graph,
            residual,
            edges[a].0,
            edges[a].1,
        ) && !spec_path_hits_failed(graph, naive_route(graph, residual, edges[a].0, edges[a].1))
    &&& fill_ready(phase_routes(graph, residual, edges), phys_left(graph, residual))
}

/// The longest a communicator of `job` can take when every transfer gets at
/// least one byte per second: each phase at that rate.
pub open spec fn slowest_prediction(job: JobSpec) -> int {
    if job.dp == 0 {
        0
    } else {
        spec_n_phases(job.collective, job.dp as nat) * (ALPHA_PS + ((job.payload_bytes / (job.dp as u64)) as int)
            * PS_PER_S)
    }
}

/// A rebuild that must succeed: the job has a binding, every phase of every
/// communicator is ready on the graph, and the slowest prediction meets the
/// deadline.
pub open spec fn rebuild_ready(rec: JobRec, graph: &Graph, residual: &Residual) -> bool {
    &&& rec.binding is Some
    &&& slowest_prediction(rec.spec) <= rec.spec.deadline_ps
    &&& forall|c: int, phi: int|
        0 <= c < (rec.spec.pp as int) * (rec.spec.tp as int) && 0 <= phi < spec_n_phases(rec.spec.collective, rec.spec.dp as nat)
            ==> #[trigger] phase_ready(
            graph,
            residual,
            spec_edges(
                rec.spec.collective,
                spec_members(rec.spec, by_rank_of(rec.binding->0.map@, rec.spec.gpu_count as nat), c),
                rec.spec.dp as nat,
                phi as nat,
            ),
        )
}

/// The job's rebuild is not ready on some residual that commits, link by
/// link, no more than `cir`.
pub open spec fn not_ready_below(rec: JobRec, graph: &Graph, cir: Seq<u64>) -> bool {
    exists|r: Residual|
        r.cir@.len() == cir.len() && (forall|e: int| 0 <= e < cir.len() ==> #[trigger] r.cir@[e] <= cir[e])
            && !rebuild_ready(rec, graph, &r)
}

/// Committing more keeps a rebuild not ready below.
proof fn lemma_not_ready_grows(rec: JobRec, graph: &Graph, a: Seq<u64>, b: Seq<u64>)
    requires
        not_ready_below(rec, graph, a),
        a.len() == b.len(),
        forall|e: int| 0 <= e < a.len() ==> #[trigger] a[e] <= b[e],
    ensures
        not_ready_below(rec, graph, b),
{
    let r = choose|r: Residual|
        r.cir@.len() == a.len() && (forall|e: int| 0 <= e < a.len() ==> #[trigger] r.cir@[e] <= a[e])
            && !rebuild_ready(rec, graph, &r);
    assert forall|e: int| 0 <= e < b.len() implies #[trigger] r.cir@[e] <= b[e] by {
        assert(r.cir@[e] <= a[e]);
    }
}

/// A ready rebuild has every phase ready.
proof fn lemma_ready_phase(rec: JobRec, graph: &Graph, residual: &Residual, c: int, phi: int)
    requires
        rebuild_ready(rec, graph, residual),
        0 <= c < (rec.spec.pp as int) * (rec.spec.tp as int),
        0 <= phi < spec_n_phases(rec.spec.collective, rec.spec.dp as nat),
    ensures
        phase_ready(
            graph,
            residual,
            spec_edges(
                rec.spec.collective,
                spec_members(rec.spec, by_rank_of(rec.binding->0.map@, rec.spec.gpu_count as nat), c),
                rec.spec.dp as nat,
                phi as nat,
            ),
        ),
{
}

/// A rebuild that cannot fail: the job has a binding, its exchanges stay
/// inside a node, and its deadline is not in the past.
pub open spec fn sure_rebuild(rec: JobRec, graph: &Graph) -> bool {
    rec.binding is Some && stays_in_node(rec, graph) && rec.spec.deadline_ps >= 0
}

/// The members of a communicator of a job whose ranks sit on one node sit
/// on that node too.
proof fn lemma_members_one_node(graph: &Graph, job: JobSpec, br: Seq<GpuId>, c: int)
    requires
        one_node(graph, br),
        br.len() == job.gpu_count,
        (job.pp as int) * (job.dp as int) * (job.tp as int) <= job.gpu_count,
        0 <= c < (job.pp as int) * (job.tp as int),
    ensures
        forall|a: int, b: int|
            0 <= a < job.dp && 0 <= b < job.dp ==> spec_gpu(graph, #[trigger] spec_members(job, br, c)[a]) is Some
                && spec_gpu(graph, spec_members(job, br, c)[a])->0.node == spec_gpu(
                graph,
                #[trigger] spec_members(job, br, c)[b],
            )->0.node,
{
    let t = job.tp as int;
    let pp = job.pp as int;
    let dp = job.dp as int;
    assert(t >= 1 && pp >= 1) by (nonlinear_arith)
        requires
            0 <= c < pp * t,
            pp >= 0,
            t >= 0,
    ;
    let pi = c / t;
    let ti = c % t;
    assert(0 <= pi < pp && 0 <= ti < t) by (nonlinear_arith)
        requires
            0 <= c < pp * t,
            t >= 1,
            pi == c / t,
            ti == c % t,
    ;
    let m = spec_members(job, br, c);
    assert forall|a: int, b: int| 0 <= a < dp && 0 <= b < dp implies spec_gpu(graph, #[trigger] m[a]) is Some
        && spec_gpu(graph, m[a])->0.node == spec_gpu(graph, #[trigger] m[b])->0.node by {
        lemma_rank_bound(pi, a, ti, pp, dp, t);
        lemma_rank_bound(pi, b, ti, pp, dp, t);
        let ia = pi * (dp * t) + a * t + ti;
        let ib = pi * (dp * t) + b * t + ti;
        assert(0 <= ia && 0 <= ib) by (nonlinear_arith)
            requires
                0 <= pi,
                0 <= a,
                0 <= b,
                0 <= ti,
                dp >= 0,
                t >= 0,
                ia == pi * (dp * t) + a * t + ti,
                ib == pi * (dp * t) + b * t + ti,
        ;
        assert(m[a] == br[ia] && m[b] == br[ib]);
        assert(spec_gpu(graph, br[ia]) is Some && spec_gpu(graph, br[ia])->0.node == spec_gpu(graph, br[ib])->0.node);
    }
}

/// The plan's committed rates: from nothing, the kept jobs' own rates on
/// sound links, in admission order, then each reroute's rates.
pub open spec fn plan_residual(table: &JobTable, fails: Seq<Event>, plan: EpochPlan) -> bool {
    exists|keep: Seq<u32>|
        {
            &&& keep.no_duplicates()
            &&& forall|x: u32|
                keep.contains(x) <==> keep_class(table, &plan.graph, spec_spine_class(&plan.graph, fails), x)
            &&& plan.residual.cir@ == fold_cir(
                fold_cir(
                    Seq::new(plan.graph.links@.len(), |i: int| 0u64),
                    cirs_of(table, keep),
                    sound_of(plan.graph),
                ),
                reroute_cirs(plan.reroutes@),
                any_link(),
            )
        }
}

/// Commit a job's rates again on the links that are still sound.
fn inject_live_cir(residual: &mut Residual, graph: &Graph, rec: &JobRec)
    requires
        old(residual).consistent(graph),
    ensures
        final(residual).consistent(graph),
        cir_injected(old(residual).cir@, rec.cir@, sound_of(*graph), final(residual).cir@),
{
    let keys = map_keys(&rec.cir);
    let mut k: usize = 0;
    while k < keys.len()
        invariant
            k <= keys@.len(),
            keys@.no_duplicates(),
            residual.consistent(graph),
            residual.cir@.len() == old(residual).cir@.len(),
            forall|i: int| 0 <= i < old(residual).cir@.len() ==> #[trigger] residual.cir@[i] == inj_val(old(residual).cir@, rec.cir@, sound_of(*graph), keys@.take(k as int), i),
        decreases keys@.len() - k,
    {
        let e = keys[k];
        let ghost cur = residual.cir@;
        match rec.cir.get(&e) {
            Some(rho) => {
                let rho = *rho;
                if rho > 0 {
                    match graph.link(LinkId(e)) {
                        Some(l) => {
                            if !l.failed {
                                residual.inject_cir(graph, LinkId(e), rho);
                            }
                        },
                        None => {},
                    }
                }
            },
            None => {},
        }
        proof {
            lemma_inject_step(old(residual).cir@, cur, residual.cir@, rec.cir@, sound_of(*graph), keys@, k as int);
        }
        k = k + 1;
    }
    proof {
        lemma_inject_done(old(residual).cir@, residual.cir@, rec.cir@, sound_of(*graph), keys@);
    }
}

/// Commit a reroute's rates.
fn inject_reroute(residual: &mut Residual, graph: &Graph, r: &Reroute)
    requires
        old(residual).consistent(graph),
    ensures
        final(residual).consistent(graph),
        cir_injected(old(residual).cir@, r.cir@, any_link(), final(residual).cir@),
{
    let keys = map_keys(&r.cir);
    let mut k: usize = 0;
    while k < keys.len()
        invariant
            k <= keys@.len(),
            keys@.no_duplicates(),
            residual.consistent(graph),
            residual.cir@.len() == old(residual).cir@.len(),
            forall|i: int| 0 <= i < old(residual).cir@.len() ==> #[trigger] residual.cir@[i] == inj_val(old(residual).cir@, r.cir@, any_link(), keys@.take(k as int), i),
        decreases keys@.len() - k,
    {
        let e = keys[k];
        let ghost cur = residual.cir@;
        match r.cir.get(&e) {
            Some(rho) => {
                if *rho > 0 {
                    residual.inject_cir(graph, LinkId(e), *rho);
                }
            },
            None => {},
        }
        proof {
            lemma_inject_step(old(residual).cir@, cur, residual.cir@, r.cir@, any_link(), keys@, k as int);
        }
        k = k + 1;
    }
    proof {
        lemma_inject_done(old(residual).cir@, residual.cir@, r.cir@, any_link(), keys@);
    }
}

/// The live jobs in admission order.
pub(crate) fn live_ids(table: &JobTable) -> (r: Vec<u32>)
    ensures
        r@.no_duplicates(),
        in_admit_order(table, r@),
        forall|id: u32| #![trigger r@.contains(id)] #![trigger live_in(table, id)] r@.contains(id) <==> live_in(table, id),
{
    let keys = map_keys(&table.by_id);
    let mut ids: Vec<u32> = Vec::new();
    let mut k: usize = 0;
    while k < keys.len()
        invariant
            k <= keys@.len(),
            keys@.to_set() == table.by_id@.dom(),
            keys@.no_duplicates(),
            ids@.no_duplicates(),
            forall|j: int| 0 <= j < ids@.len() ==> keys@.take(k as int).contains(#[trigger] ids@[j]),
            forall|id: u32| ids@.contains(id) <==> keys@.take(k as int).contains(id) && live_in(table, id),
        decreases keys@.len() - k,
    {
        let id = keys[k];
        assert(keys@.to_set().contains(id));
        let live = match table.by_id.get(&id) {
            Some(rec) => match rec.state {
                JobState::Computing | JobState::Collecting => true,
                _ => false,
            },
            None => false,
        };
        assert(keys@.take(k + 1) == keys@.take(k as int).push(id));
        assert(!keys@.take(k as int).contains(id)) by {
            if keys@.take(k as int).contains(id) {
                let j = choose|j: int| 0 <= j < k && keys@.take(k as int)[j] == id;
                assert(keys@[j] == keys@[k as int]);
            }
        }
        assert(live == live_in(table, id));
        let ghost old_ids = ids@;
        if live {
            ids.push(id);
        }
        proof {
            let tk = keys@.take(k as int);
            let tk1 = keys@.take(k + 1);
            assert forall|x: u32| tk1.contains(x) <==> tk.contains(x) || x == id by {
                if tk.contains(x) {
                    let j = choose|j: int| 0 <= j < tk.len() && tk[j] == x;
                    assert(tk1[j] == x);
                }
                if x == id {
                    assert(tk1[k as int] == id);
                }
                if tk1.contains(x) {
                    let j = choose|j: int| 0 <= j < tk1.len() && tk1[j] == x;
                    if j < k {
                        assert(tk[j] == x);
                    }
                }
            }
            assert forall|x: u32| ids@.contains(x) <==> old_ids.contains(x) || (live && x == id) by {
                if live {
                    if old_ids.contains(x) {
                        let j = choose|j: int| 0 <= j < old_ids.len() && old_ids[j] == x;
                        assert(ids@[j] == x);
                    }
                    if x == id {
                        assert(ids@[old_ids.len() as int] == id);
                    }
                    if ids@.contains(x) {
                        let j = choose|j: int| 0 <= j < ids@.len() && ids@[j] == x;
                        if j < old_ids.len() {
                            assert(old_ids[j] == x);
                        }
                    }
                }
            }
            assert forall|j: int| 0 <= j < ids@.len() implies tk1.contains(#[trigger] ids@[j]) by {
                if j < old_ids.len() {
                    assert(ids@[j] == old_ids[j]);
                    assert(tk.contains(old_ids[j]));
                } else {
                    assert(ids@[j] == id);
                }
            }
            if live {
                assert forall|a: int, b: int| 0 <= a < b < ids@.len() implies ids@[a] != ids@[b] by {
                    if b == old_ids.len() {
                        assert(tk.contains(old_ids[a]));
                    } else {
                        assert(ids@[a] == old_ids[a] && ids@[b] == old_ids[b]);
                    }
                }
            }
        }
        k = k + 1;
    }
    assert(keys@.take(keys@.len() as int) == keys@);
    assert forall|id: u32| live_in(table, id) implies ids@.contains(id) by {
        assert(keys@.to_set().contains(id));
    }
    let r = sort_by_admit(table, &ids);
    proof {
        lemma_reorder_no_dups(r@, ids@);
        assert forall|id: u32| r@.contains(id) <==> ids@.contains(id) by {
            vstd::seq_lib::to_multiset_contains(r@, id);
            vstd::seq_lib::to_multiset_contains(ids@, id);
        }
    }
    r
}

/// Growing a prefix of a list without repeats by one element.
proof fn lemma_take_step(s: Seq<u32>, i: int)
    requires
        0 <= i < s.len(),
        s.no_duplicates(),
    ensures
        forall|x: u32| s.take(i + 1).contains(x) <==> s.take(i).contains(x) || x == s[i],
        !s.take(i).contains(s[i]),
{
    let t = s.take(i);
    let t1 = s.take(i + 1);
    assert forall|x: u32| t1.contains(x) <==> t.contains(x) || x == s[i] by {
        if t.contains(x) {
            let j = choose|j: int| 0 <= j < t.len() && t[j] == x;
            assert(t1[j] == x);
        }
        if x == s[i] {
            assert(t1[i] == x);
        }
        if t1.contains(x) {
            let j = choose|j: int| 0 <= j < t1.len() && t1[j] == x;
            if j < i {
                assert(t[j] == x);
            }
        }
    }
    if t.contains(s[i]) {
        let j = choose|j: int| 0 <= j < t.len() && t[j] == s[i];
        assert(s[j] == s[i]);
    }
}

/// Appending an element not yet seen keeps a list of seen elements free of
/// repeats.
proof fn lemma_push_fresh(l: Seq<u32>, x: u32, pre: Seq<u32>, pre1: Seq<u32>)
    requires
        l.no_duplicates(),
        forall|j: int| 0 <= j < l.len() ==> pre.contains(#[trigger] l[j]),
        !pre.contains(x),
        forall|y: u32| pre.contains(y) ==> pre1.contains(y),
        pre1.contains(x),
    ensures
        l.push(x).no_duplicates(),
        forall|j: int| 0 <= j < l.push(x).len() ==> pre1.contains(#[trigger] l.push(x)[j]),
        forall|y: u32| l.push(x).contains(y) <==> l.contains(y) || y == x,
{
    let m = l.push(x);
    assert forall|a: int, b: int| 0 <= a < b < m.len() implies m[a] != m[b] by {
        if b == l.len() {
            assert(pre.contains(l[a]));
        } else {
            assert(m[a] == l[a] && m[b] == l[b]);
        }
    }
    assert forall|j: int| 0 <= j < m.len() implies pre1.contains(#[trigger] m[j]) by {
        if j < l.len() {
            assert(m[j] == l[j]);
            assert(pre.contains(l[j]));
        }
    }
    assert forall|y: u32| m.contains(y) <==> l.contains(y) || y == x by {
        if l.contains(y) {
            let j = choose|j: int| 0 <= j < l.len() && l[j] == y;
            assert(m[j] == y);
        }
        if y == x {
            assert(m[l.len() as int] == x);
        }
        if m.contains(y) {
            let j = choose|j: int| 0 <= j < m.len() && m[j] == y;
            if j < l.len() {
                assert(l[j] == y);
            }
        }
    }
}

/// Appending an element not in a list keeps it free of repeats.
proof fn lemma_push_new(l: Seq<u32>, x: u32)
    requires
        l.no_duplicates(),
        !l.contains(x),
    ensures
        l.push(x).no_duplicates(),
        forall|y: u32| #[trigger] l.push(x).contains(y) <==> l.contains(y) || y == x,
{
    let m = l.push(x);
    assert forall|a: int, b: int| 0 <= a < b < m.len() implies m[a] != m[b] by {
        if b == l.len() {
            assert(m[a] == l[a]);
        } else {
            assert(m[a] == l[a] && m[b] == l[b]);
        }
    }
    assert forall|y: u32| m.contains(y) <==> l.contains(y) || y == x by {
        if l.contains(y) {
            let j = choose|j: int| 0 <= j < l.len() && l[j] == y;
            assert(m[j] == y);
        }
        if y == x {
            assert(m[l.len() as int] == x);
        }
        if m.contains(y) {
            let j = choose|j: int| 0 <= j < m.len() && m[j] == y;
            if j < l.len() {
                assert(l[j] == y);
            }
        }
    }
}

/// Prepare a failure epoch on copies; nothing live changes. Strict mode
/// refuses to start while a failed link carried bytes this epoch or a live job
/// runs over a broken link. Otherwise: apply each failure in turn to a copy of
/// the graph, clear every link's byte count, step the epoch; kill the live jobs
/// on dead GPUs; keep the jobs whose routes are sound (unless a spine or a
/// leaf-spine link went down), committing their rates again; rebuild the
/// others' routes in admission order, committing each success and killing each
/// failure. Kills come out in admission order.
pub fn prepare(
    graph: &Graph,
    residual: &Residual,
    table: &JobTable,
    fails: &[Event],
    policy: Policy,
    strict: bool,
    bytes_epoch: &[u64],
) -> (r: Result<EpochPlan, RejectCode>)
    requires
        graph_wf(graph),
        graph.leaves@.len() <= u32::MAX,
        graph.gpus@.len() <= u32::MAX,
        graph.links@.len() <= u32::MAX,
        table_wf(table),
    ensures
        r is Err <==> strict && (spec_i2_broken(graph, bytes_epoch@) || spec_i3_broken(graph, table)),
        r matches Err(c) ==> c == RejectCode::EpochPrepareFailed,
        r matches Ok(plan) ==> plan_sound(graph, table, fails@, plan),
        r matches Ok(plan) ==> plan_residual(table, fails@, plan),
        r matches Ok(plan) ==> forall|k: int|
            0 <= k < plan.kills@.len() && !kill_class(table, &plan.graph, (#[trigger] plan.kills@[k]).0) ==> !sure_rebuild(
                table.by_id@[plan.kills@[k].0],
                &plan.graph,
            ),
        r matches Ok(plan) ==> forall|k: int|
            0 <= k < plan.kills@.len() && !kill_class(table, &plan.graph, (#[trigger] plan.kills@[k]).0) ==> not_ready_below(
                table.by_id@[plan.kills@[k].0],
                &plan.graph,
                plan.residual.cir@,
            ),
{
    if strict && (i2_broken(graph, bytes_epoch) || i3_broken(graph, table)) {
        return Err(RejectCode::EpochPrepareFailed);
    }
    let from = graph.epoch;
    let mut g = copy_graph(graph);
    let ghost mut chain: Seq<Graph> = seq![g];
    let mut k: usize = 0;
    while k < fails.len()
        invariant
            k <= fails@.len(),
            graph_wf(&g),
            g.leaves@.len() == graph.leaves@.len(),
            g.gpus@.len() == graph.gpus@.len(),
            g.links@.len() == graph.links@.len(),
            graph.leaves@.len() <= u32::MAX,
            graph.gpus@.len() <= u32::MAX,
            chain.len() == k + 1,
            same_graph(&chain[0], graph),
            chain.last() == g,
            forall|q: int| 0 <= q < k ==> failed_by(&chain[q], &chain[q + 1], (#[trigger] fails@[q]).payload),
        decreases fails@.len() - k,
    {
        let ghost prev = g;
        apply_fail(&mut g, &fails[k].payload);
        proof {
            law_failure_keeps_wf(&prev, &g, fails@[k as int].payload);
            chain = chain.push(g);
        }
        k = k + 1;
    }
    let ghost last = g;
    let mut i: usize = 0;
    while i < g.links.len()
        invariant
            i <= g.links@.len(),
            g.links@.len() == last.links@.len(),
            g.epoch == last.epoch,
            g.params == last.params,
            g.gpus@ == last.gpus@,
            g.leaves@ == last.leaves@,
            g.spines@ == last.spines@,
            forall|q: int| 0 <= q < i ==> #[trigger] g.links@[q] == (Link { bytes_this_epoch: 0, ..last.links@[q] }),
            forall|q: int| i <= q < g.links@.len() ==> #[trigger] g.links@[q] == last.links@[q],
        decreases g.links@.len() - i,
    {
        let mut l = g.links[i];
        l.bytes_this_epoch = 0;
        g.links.set(i, l);
        i = i + 1;
    }
    let to = EpochId(if from.0 < u32::MAX { from.0 + 1 } else { u32::MAX });
    g.epoch = to;
    proof {
        assert forall|q: int| 0 <= q < g.links@.len() implies (#[trigger] g.links@[q]).id.0 == q by {
            assert(last.links@[q].id.0 == q);
        }
        assert(settled(&last, &g, to));
    }
    let spine_epoch = epoch_spine_class(&g, fails);
    let live = live_ids(table);
    let mut kill_ids: Vec<u32> = Vec::new();
    let mut move_ids: Vec<u32> = Vec::new();
    let mut keep_ids: Vec<u32> = Vec::new();
    let mut i: usize = 0;
    while i < live.len()
        invariant
            i <= live@.len(),
            live@.no_duplicates(),
            forall|id: u32| #![trigger live@.contains(id)] #![trigger live_in(table, id)] live@.contains(id) <==> live_in(table, id),
            spine_epoch == spec_spine_class(&g, fails@),
            kill_ids@.no_duplicates(),
            move_ids@.no_duplicates(),
            keep_ids@.no_duplicates(),
            forall|j: int| 0 <= j < kill_ids@.len() ==> live@.take(i as int).contains(#[trigger] kill_ids@[j]),
            forall|j: int| 0 <= j < move_ids@.len() ==> live@.take(i as int).contains(#[trigger] move_ids@[j]),
            forall|j: int| 0 <= j < keep_ids@.len() ==> live@.take(i as int).contains(#[trigger] keep_ids@[j]),
            forall|j: int| 0 <= j < kill_ids@.len() ==> kill_class(table, &g, #[trigger] kill_ids@[j]),
            forall|j: int| 0 <= j < move_ids@.len() ==> move_class(table, &g, spine_epoch, #[trigger] move_ids@[j]),
            forall|j: int| 0 <= j < keep_ids@.len() ==> keep_class(table, &g, spine_epoch, #[trigger] keep_ids@[j]),
            forall|x: u32|
                live@.take(i as int).contains(x) ==> kill_ids@.contains(x) || move_ids@.contains(x)
                    || keep_ids@.contains(x),
        decreases live@.len() - i,
    {
        let id = live[i];
        proof {
            lemma_take_step(live@, i as int);
            assert(live@.contains(id));
        }
        let ghost pre = live@.take(i as int);
        let ghost pre1 = live@.take(i + 1);
        let ghost o_kill = kill_ids@;
        let ghost o_move = move_ids@;
        let ghost o_keep = keep_ids@;
        match table.by_id.get(&id) {
            Some(rec) => {
                if job_on_dead_gpu(rec, &g) {
                    proof {
                        lemma_push_fresh(kill_ids@, id, pre, pre1);
                    }
                    kill_ids.push(id);
                } else if spine_epoch || job_paths_hit_failed(rec, &g) {
                    proof {
                        lemma_push_fresh(move_ids@, id, pre, pre1);
                    }
                    move_ids.push(id);
                } else {
                    proof {
                        lemma_push_fresh(keep_ids@, id, pre, pre1);
                    }
                    keep_ids.push(id);
                }
            },
            None => {
                assert(false);
            },
        }
        proof {
            assert forall|x: u32| pre1.contains(x) implies kill_ids@.contains(x) || move_ids@.contains(x)
                || keep_ids@.contains(x) by {
                if x != id {
                    assert(pre.contains(x));
                    if o_kill.contains(x) {
                        let j = choose|j: int| 0 <= j < o_kill.len() && o_kill[j] == x;
                        assert(kill_ids@[j] == x);
                    } else if o_move.contains(x) {
                        let j = choose|j: int| 0 <= j < o_move.len() && o_move[j] == x;
                        assert(move_ids@[j] == x);
                    } else {
                        let j = choose|j: int| 0 <= j < o_keep.len() && o_keep[j] == x;
                        assert(keep_ids@[j] == x);
                    }
                } else if kill_ids@.len() > o_kill.len() {
                    assert(kill_ids@[o_kill.len() as int] == x);
                } else if move_ids@.len() > o_move.len() {
                    assert(move_ids@[o_move.len() as int] == x);
                } else {
                    assert(keep_ids@[o_keep.len() as int] == x);
                }
            }
        }
        i = i + 1;
    }
    assert(live@.take(live@.len() as int) == live@);
    let ghost keep = keep_ids@;
    proof {
        assert forall|x: u32| keep.contains(x) <==> keep_class(table, &g, spine_epoch, x) by {
            if keep.contains(x) {
                let q = choose|q: int| 0 <= q < keep.len() && keep[q] == x;
                assert(keep_class(table, &g, spine_epoch, keep_ids@[q]));
            }
            if keep_class(table, &g, spine_epoch, x) {
                assert(live@.contains(x));
                assert(live@.take(live@.len() as int).contains(x));
                if kill_ids@.contains(x) {
                    let q = choose|q: int| 0 <= q < kill_ids@.len() && kill_ids@[q] == x;
                    assert(kill_class(table, &g, kill_ids@[q]));
                }
                if move_ids@.contains(x) {
                    let q = choose|q: int| 0 <= q < move_ids@.len() && move_ids@[q] == x;
                    assert(move_class(table, &g, spine_epoch, move_ids@[q]));
                }
            }
        }
    }
    let mut res = Residual::new(&g);
    let ghost zeros = Seq::new(g.links@.len(), |i: int| 0u64);
    assert(res.cir@ =~= zeros);
    let mut j: usize = 0;
    while j < keep_ids.len()
        invariant
            j <= keep_ids@.len(),
            keep == keep_ids@,
            res.consistent(&g),
            forall|q: int| 0 <= q < keep.len() ==> keep_class(table, &g, spine_epoch, #[trigger] keep[q]),
            res.cir@ == fold_cir(zeros, cirs_of(table, keep.take(j as int)), sound_of(g)),
        decreases keep_ids@.len() - j,
    {
        let ghost c0 = res.cir@;
        proof {
            assert(keep.take(j + 1) =~= keep.take(j as int).push(keep[j as int]));
            assert(cirs_of(table, keep.take(j + 1)).drop_last() =~= cirs_of(table, keep.take(j as int)));
            assert(keep_class(table, &g, spine_epoch, keep[j as int]));
        }
        match table.by_id.get(&keep_ids[j]) {
            Some(rec) => {
                inject_live_cir(&mut res, &g, rec);
                proof {
                    lemma_injected_is_add(c0, rec.cir@, sound_of(g), res.cir@);
                }
            },
            None => {
                assert(false);
            },
        }
        j = j + 1;
    }
    assert(keep.take(keep.len() as int) =~= keep);
    let ghost kres = res.cir@;
    let mut reroutes: Vec<Reroute> = Vec::new();
    let mut j: usize = 0;
    while j < move_ids.len()
        invariant
            j <= move_ids@.len(),
            graph_wf(&g),
            g.links@.len() <= u32::MAX,
            res.consistent(&g),
            table_wf(table),
            move_ids@.no_duplicates(),
            forall|q: int| 0 <= q < move_ids@.len() ==> move_class(table, &g, spine_epoch, #[trigger] move_ids@[q]),
            kill_ids@.no_duplicates(),
            forall|q: int|
                0 <= q < kill_ids@.len() ==> kill_class(table, &g, #[trigger] kill_ids@[q]) || (move_class(
                    table,
                    &g,
                    spine_epoch,
                    kill_ids@[q],
                ) && move_ids@.take(j as int).contains(kill_ids@[q]) && !sure_rebuild(table.by_id@[kill_ids@[q]], &g)),
            forall|q: int|
                0 <= q < kill_ids@.len() && !kill_class(table, &g, #[trigger] kill_ids@[q]) ==> not_ready_below(
                    table.by_id@[kill_ids@[q]],
                    &g,
                    res.cir@,
                ),
            res.cir@ == fold_cir(kres, reroute_cirs(reroutes@), any_link()),
            forall|x: u32| #[trigger] kill_class(table, &g, x) ==> kill_ids@.contains(x),
            forall|q: int|
                0 <= q < reroutes@.len() ==> {
                    &&& move_class(table, &g, spine_epoch, (#[trigger] reroutes@[q]).job.0)
                    &&& reroute_sound(reroutes@[q], table.by_id@[reroutes@[q].job.0].spec, &g)
                    &&& move_ids@.take(j as int).contains(reroutes@[q].job.0)
                    &&& !kill_ids@.contains(reroutes@[q].job.0)
                },
            forall|a: int, b: int|
                0 <= a < b < reroutes@.len() ==> (#[trigger] reroutes@[a]).job != (#[trigger] reroutes@[b]).job,
            forall|q: int| 0 <= q < j ==> kill_ids@.contains(#[trigger] move_ids@[q]) || rerouted(reroutes@, move_ids@[q]),
        decreases move_ids@.len() - j,
    {
        let id = move_ids[j];
        proof {
            lemma_take_step(move_ids@, j as int);
        }
        let ghost tk = move_ids@.take(j as int);
        let ghost old_kills = kill_ids@;
        let ghost old_rr = reroutes@;
        assert(move_class(table, &g, spine_epoch, id));
        assert(!old_kills.contains(id)) by {
            if old_kills.contains(id) {
                let q = choose|q: int| 0 <= q < old_kills.len() && old_kills[q] == id;
                assert(kill_class(table, &g, old_kills[q]) || tk.contains(old_kills[q]));
            }
        }
        match table.by_id.get(&id) {
            Some(rec) => match naive_rebuild(rec, &g, &res) {
                Some(x) => {
                    let ghost c0 = res.cir@;
                    inject_reroute(&mut res, &g, &x);
                    proof {
                        lemma_injected_is_add(c0, x.cir@, any_link(), res.cir@);
                        assert forall|e: int| 0 <= e < c0.len() implies #[trigger] c0[e] <= res.cir@[e] by {}
                        assert forall|q: int|
                            0 <= q < kill_ids@.len() && !kill_class(table, &g, #[trigger] kill_ids@[q]) implies not_ready_below(
                            table.by_id@[kill_ids@[q]],
                            &g,
                            res.cir@,
                        ) by {
                            lemma_not_ready_grows(table.by_id@[kill_ids@[q]], &g, c0, res.cir@);
                        }
                    }
                    reroutes.push(x);
                    proof {
                        assert(reroute_cirs(reroutes@).drop_last() =~= reroute_cirs(old_rr));
                        assert(reroute_cirs(reroutes@).last() == x.cir@);
                    }
                    proof {
                        assert forall|a: int, b: int| 0 <= a < b < reroutes@.len() implies (#[trigger] reroutes@[a]).job
                            != (#[trigger] reroutes@[b]).job by {
                            if b == old_rr.len() {
                                assert(tk.contains(old_rr[a].job.0));
                            } else {
                                assert(reroutes@[a] == old_rr[a] && reroutes@[b] == old_rr[b]);
                            }
                        }
                        assert forall|q: int| 0 <= q < j + 1 implies kill_ids@.contains(#[trigger] move_ids@[q])
                            || rerouted(reroutes@, move_ids@[q]) by {
                            if q == j {
                                assert(reroutes@[old_rr.len() as int].job == JobId(id));
                            } else if !kill_ids@.contains(move_ids@[q]) {
                                let k = choose|k: int| 0 <= k < old_rr.len() && (#[trigger] old_rr[k]).job == JobId(move_ids@[q]);
                                assert(reroutes@[k] == old_rr[k]);
                            }
                        }
                        assert forall|q: int| 0 <= q < reroutes@.len() implies {
                            &&& move_class(table, &g, spine_epoch, (#[trigger] reroutes@[q]).job.0)
                            &&& reroute_sound(reroutes@[q], table.by_id@[reroutes@[q].job.0].spec, &g)
                            &&& move_ids@.take(j + 1).contains(reroutes@[q].job.0)
                            &&& !kill_ids@.contains(reroutes@[q].job.0)
                        } by {
                            if q < old_rr.len() {
                                assert(reroutes@[q] == old_rr[q]);
                            }
                        }
                    }
                },
                None => {
                    proof {
                        lemma_push_new(kill_ids@, id);
                        assert(!rebuild_ready(*rec, &g, &res));
                        assert(forall|e: int| 0 <= e < res.cir@.len() ==> #[trigger] res.cir@[e] <= res.cir@[e]);
                        assert(not_ready_below(*rec, &g, res.cir@));
                    }
                    kill_ids.push(id);
                },
            },
            None => {
                assert(false);
            },
        }
        j = j + 1;
    }
    let sorted = sort_by_admit(table, &kill_ids);
    let mut kills: Vec<JobId> = Vec::new();
    let mut q: usize = 0;
    while q < sorted.len()
        invariant
            q <= sorted@.len(),
            kills@.len() == q,
            forall|k: int| 0 <= k < q ==> (#[trigger] kills@[k]).0 == sorted@[k],
        decreases sorted@.len() - q,
    {
        kills.push(JobId(sorted[q]));
        q = q + 1;
    }
    assert(job_ids(kills@) =~= sorted@);
    proof {
        lemma_reorder_no_dups(sorted@, kill_ids@);
        assert forall|x: u32| sorted@.contains(x) <==> kill_ids@.contains(x) by {
            vstd::seq_lib::to_multiset_contains(sorted@, x);
            vstd::seq_lib::to_multiset_contains(kill_ids@, x);
        }
    }
    let plan = EpochPlan { graph: g, residual: res, kills, reroutes, from, to };
    proof {
        assert(same_graph(&chain[0], graph) && fail_chain(chain, fails@) && settled(&chain.last(), &plan.graph, plan.to));
        let gg = &plan.graph;
        let sp = spec_spine_class(gg, fails@);
        assert(plan.from == graph.epoch);
        assert(plan.to == next_epoch(graph.epoch));
        assert(graph_wf(gg));
        assert(plan.residual.consistent(gg));
        assert(in_admit_order(table, job_ids(plan.kills@)));
        assert(job_ids(plan.kills@).no_duplicates());
        assert forall|k: int| 0 <= k < plan.kills@.len() implies kill_class(table, gg, (#[trigger] plan.kills@[k]).0) || move_class(
            table,
            gg,
            sp,
            plan.kills@[k].0,
        ) by {
            assert(job_ids(plan.kills@)[k] == plan.kills@[k].0);
            assert(sorted@.contains(sorted@[k]));
            assert(kill_ids@.contains(sorted@[k]));
        }
        assert forall|id: u32| #[trigger] kill_class(table, gg, id) implies job_ids(plan.kills@).contains(id) by {
            assert(kill_ids@.contains(id));
            assert(sorted@.contains(id));
        }
        assert forall|k: int| 0 <= k < plan.reroutes@.len() implies !job_ids(plan.kills@).contains(
            (#[trigger] plan.reroutes@[k]).job.0) by {
            if job_ids(plan.kills@).contains(plan.reroutes@[k].job.0) {
                assert(sorted@.contains(plan.reroutes@[k].job.0));
            }
        }
        assert forall|id: u32| #[trigger] move_class(table, gg, sp, id) implies job_ids(plan.kills@).contains(id)
            || rerouted(plan.reroutes@, id) by {
            assert(live@.contains(id));
            assert(live@.take(live@.len() as int).contains(id));
            if move_ids@.contains(id) {
                let q = choose|q: int| 0 <= q < move_ids@.len() && move_ids@[q] == id;
                if kill_ids@.contains(move_ids@[q]) {
                    assert(sorted@.contains(id));
                }
            } else if kill_ids@.contains(id) {
                assert(sorted@.contains(id));
            } else {
                let q = choose|q: int| 0 <= q < keep_ids@.len() && keep_ids@[q] == id;
                assert(keep_class(table, gg, sp, keep_ids@[q]));
            }
        }
    }
    Ok(plan)
}

} // verus!
