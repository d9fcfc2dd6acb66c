//! Bindings, planned flows, occupancy, the job table and communicators.
use vstd::prelude::*;
use std::collections::BTreeMap;

use crate::mix::JobSpec;
use crate::paths::Path;
use crate::topo::{spec_gpu, Graph};
use crate::types::{
    AdmitSeq, BindingKind, CollectiveKind, FlowId, GpuAvail, GpuId, JobId, JobState, Rank,
    RejectCode,
};

verus! {

broadcast use vstd::std_specs::btree::group_btree_axioms, vstd::laws_cmp::group_laws_cmp;

/// Which GPU plays each rank.
#[derive(Clone, Debug)]
pub struct Binding {
    pub kind: BindingKind,
    pub map: Vec<(Rank, GpuId)>,
}

/// One planned transfer of a collective phase.
#[allow(non_snake_case)]
#[derive(Clone, Debug)]
pub struct Flow {
    pub id: FlowId,
    pub job: JobId,
    /// Index of the communicator the flow belongs to.
    pub comm: u32,
    pub phase: u32,
    pub src: GpuId,
    pub dst: GpuId,
    pub path: Path,
    pub rate_Bps: u64,
    pub bytes: u64,
}

/// A job's record in the table. `cir` maps a link id to the rate committed on it.
#[derive(Clone, Debug)]
pub struct JobRec {
    pub spec: JobSpec,
    pub state: JobState,
    pub admit_seq: Option<AdmitSeq>,
    pub binding: Option<Binding>,
    pub paths: Vec<Path>,
    pub cir: BTreeMap<u32, u64>,
    /// Admit-time fabric flows with their committed rates.
    pub planned: Vec<Flow>,
    pub t_pred_ps: i128,
    pub step_index: u32,
    pub steps_done: u32,
    pub reject: Option<RejectCode>,
}

/// Which job holds each GPU, keyed by GPU id.
#[derive(Clone, Debug)]
pub struct Occupancy {
    pub by_gpu: BTreeMap<u32, JobId>,
}

/// The GPU exists, is present, and no job holds it.
pub open spec fn spec_is_free(occ: Map<u32, JobId>, graph: &Graph, g: GpuId) -> bool {
    &&& spec_gpu(graph, g) is Some
    &&& spec_gpu(graph, g)->0.avail == GpuAvail::Present
    &&& !occ.contains_key(g.0)
}

impl Occupancy {
    pub fn new() -> (r: Occupancy)
        ensures
            r.by_gpu@ == Map::<u32, JobId>::empty(),
    {
        Occupancy { by_gpu: BTreeMap::new() }
    }

    pub fn is_free(&self, g: GpuId, graph: &Graph) -> (r: bool)
        ensures
            r == spec_is_free(self.by_gpu@, graph, g),
    {
        match graph.gpu(g) {
            Some(gpu) => {
                let present = match gpu.avail {
                    GpuAvail::Present => true,
                    _ => false,
                };
                present && !self.by_gpu.contains_key(&g.0)
            },
            None => false,
        }
    }
}

/// Every job's record keyed by job id, the next admit sequence, and occupancy.
#[derive(Clone, Debug)]
pub struct JobTable {
    pub by_id: BTreeMap<u32, JobRec>,
    pub next_admit_seq: u64,
    pub occ: Occupancy,
}

impl JobTable {
    pub fn new() -> (r: JobTable)
        ensures
            r.by_id@ == Map::<u32, JobRec>::empty(),
            r.next_admit_seq == 0,
            r.occ.by_gpu@ == Map::<u32, JobId>::empty(),
    {
        JobTable { by_id: BTreeMap::new(), next_admit_seq: 0, occ: Occupancy::new() }
    }
}

/// A data-parallel group: its members in rank order and the collective they run.
#[derive(Clone, Debug)]
pub struct Communicator {
    pub index: u32,
    pub kind: CollectiveKind,
    pub members: Vec<GpuId>,
    pub p: u32,
    pub chunk_bytes: u64,
    pub n_phases: u32,
}

/// The transfers of phase `phase`: member `i` sends to member `i + 1` in a ring,
/// or to member `i + phase + 1` in a pairwise exchange (indices mod `p`); none
/// below two members.
pub open spec fn spec_edges(kind: CollectiveKind, members: Seq<GpuId>, p: nat, phase: nat) -> Seq<(GpuId, GpuId)> {
    if p < 2 {
        Seq::empty()
    } else {
        let h: nat = match kind {
            CollectiveKind::RingAllReduce => 1,
            CollectiveKind::PairwiseAllToAll => phase + 1,
        };
        Seq::new(p, |i: int| (members[i], members[(i + h) % (p as int)]))
    }
}

impl Communicator {
    pub fn edges(&self, phase: u32) -> (r: Vec<(GpuId, GpuId)>)
        requires
            self.members@.len() >= self.p,
        ensures
            r@ == spec_edges(self.kind, self.members@, self.p as nat, phase as nat),
    {
        let mut out: Vec<(GpuId, GpuId)> = Vec::new();
        if self.p < 2 {
            assert(out@ =~= spec_edges(self.kind, self.members@, self.p as nat, phase as nat));
            return out;
        }
        let p = self.p as usize;
        let h: u64 = match self.kind {
            CollectiveKind::RingAllReduce => 1,
            CollectiveKind::PairwiseAllToAll => phase as u64 + 1,
        };
        let mut i: usize = 0;
        while i < p
            invariant
                p == self.p,
                p >= 2,
                self.members@.len() >= p,
                h == (match self.kind {
                    CollectiveKind::RingAllReduce => 1,
                    CollectiveKind::PairwiseAllToAll => phase as nat + 1,
                }),
                i <= p,
                out@.len() == i,
                forall|k: int|
                    0 <= k < i ==> #[trigger] out@[k] == (self.members@[k], self.members@[(k + h) % (p as int)]),
            decreases p - i,
        {
            let j = ((i as u64 + h) % (p as u64)) as usize;
            out.push((self.members[i], self.members[j]));
            i = i + 1;
        }
        assert(out@ =~= spec_edges(self.kind, self.members@, self.p as nat, phase as nat));
        out
    }
}

/// Positions of `gpus` that name a GPU of the graph.
pub open spec fn existing_count(graph: &Graph, gpus: Seq<GpuId>) -> nat
    decreases gpus.len(),
{
    if gpus.len() == 0 {
        0
    } else {
        existing_count(graph, gpus.drop_last()) + if spec_gpu(graph, gpus.last()) is Some {
            1nat
        } else {
            0nat
        }
    }
}

/// Position `x` of `gpus` comes before position `y`: by node, then rail, then
/// position.
pub open spec fn node_rail_before(graph: &Graph, gpus: Seq<GpuId>, x: int, y: int) -> bool {
    let a = spec_gpu(graph, gpus[x])->0;
    let b = spec_gpu(graph, gpus[y])->0;
    a.node.0 < b.node.0 || (a.node.0 == b.node.0 && (a.rail.0 < b.rail.0 || (a.rail.0 == b.rail.0
        && x < y)))
}

/// `perm` lists each position of `gpus` that names a graph GPU once, ordered by
/// node, then rail (local rank), then position.
pub open spec fn rank_order(graph: &Graph, gpus: Seq<GpuId>, perm: Seq<int>) -> bool {
    &&& forall|i: int|
        0 <= i < perm.len() ==> 0 <= #[trigger] perm[i] < gpus.len() && spec_gpu(graph, gpus[perm[i]]) is Some
    &&& forall|k: int| 0 <= k < gpus.len() && spec_gpu(graph, #[trigger] gpus[k]) is Some ==> perm.contains(k)
    &&& forall|a: int, b: int| 0 <= a < b < perm.len() ==> node_rail_before(graph, gpus, perm[a], perm[b])
}

proof fn lemma_existing_prefix(graph: &Graph, gpus: Seq<GpuId>, i: int)
    requires
        0 <= i < gpus.len(),
    ensures
        existing_count(graph, gpus.take(i + 1)) == existing_count(graph, gpus.take(i)) + if spec_gpu(
            graph,
            gpus[i],
        ) is Some {
            1nat
        } else {
            0nat
        },
{
    assert(gpus.take(i + 1).drop_last() =~= gpus.take(i));
}

/// Ranks in order `0, 1, ...` for `pp * dp * tp` ranks, each on the next GPU of
/// `gpus` by node, then local rank. GPUs the graph does not know are skipped.
pub fn rank_map(gpus: &Vec<GpuId>, job: &JobSpec, graph: &Graph) -> (r: Vec<(Rank, GpuId)>)
    requires
        (job.pp as int) * (job.dp as int) * (job.tp as int) <= existing_count(graph, gpus@),
        (job.pp as int) * (job.dp as int) * (job.tp as int) <= u32::MAX,
    ensures
        r@.len() == (job.pp as int) * (job.dp as int) * (job.tp as int),
        exists|perm: Seq<int>|
            rank_order(graph, gpus@, perm) && perm.len() >= r@.len() && forall|k: int|
                0 <= k < r@.len() ==> #[trigger] r@[k] == (Rank(k as u32), gpus@[perm[k]]),
{
    // The positions that name a GPU, in position order.
    let mut pos: Vec<usize> = Vec::new();
    let mut i: usize = 0;
    while i < gpus.len()
        invariant
            i <= gpus@.len(),
            pos@.len() == existing_count(graph, gpus@.take(i as int)),
            forall|k: int| 0 <= k < pos@.len() ==> #[trigger] pos@[k] < i && spec_gpu(graph, gpus@[pos@[k] as int]) is Some,
            forall|a: int, b: int| 0 <= a < b < pos@.len() ==> #[trigger] pos@[a] < #[trigger] pos@[b],
            forall|k: int| 0 <= k < i && spec_gpu(graph, #[trigger] gpus@[k]) is Some ==> pos@.contains(k as usize),
        decreases gpus@.len() - i,
    {
        proof {
            lemma_existing_prefix(graph, gpus@, i as int);
        }
        if graph.gpu(gpus[i]).is_some() {
            let ghost before = pos@;
            pos.push(i);
            assert forall|k: int| 0 <= k < i + 1 && spec_gpu(graph, #[trigger] gpus@[k]) is Some implies pos@.contains(k as usize) by {
                if k < i {
                    assert(before.contains(k as usize));
                    let j = choose|j: int| 0 <= j < before.len() && before[j] == k as usize;
                    assert(pos@[j] == before[j]);
                } else {
                    assert(pos@[before.len() as int] == i);
                }
            }
        }
        i = i + 1;
    }
    assert(gpus@.take(gpus@.len() as int) =~= gpus@);
    // Insert each into order by node, rail, position.
    let mut perm: Vec<usize> = Vec::new();
    let mut q: usize = 0;
    while q < pos.len()
        invariant
            q <= pos@.len(),
            perm@.len() == q,
            forall|k: int| 0 <= k < pos@.len() ==> #[trigger] pos@[k] < gpus@.len() && spec_gpu(graph, gpus@[pos@[k] as int]) is Some,
            forall|a: int, b: int| 0 <= a < b < pos@.len() ==> #[trigger] pos@[a] < #[trigger] pos@[b],
            forall|k: int| 0 <= k < perm@.len() ==> (#[trigger] perm@[k]) < gpus@.len() && spec_gpu(graph, gpus@[perm@[k] as int]) is Some,
            q < pos@.len() ==> forall|k: int| 0 <= k < perm@.len() ==> #[trigger] perm@[k] < pos@[q as int],
            forall|k: int| 0 <= k < q ==> perm@.contains(#[trigger] pos@[k]),
            forall|a: int, b: int| 0 <= a < b < perm@.len() ==> node_rail_before(graph, gpus@, #[trigger] perm@[a] as int, #[trigger] perm@[b] as int),
        decreases pos@.len() - q,
    {
        let x = pos[q];
        let mut at: usize = 0;
        while at < perm.len() && goes_before(graph, gpus, perm[at], x)
            invariant
                at <= perm@.len(),
                x < gpus@.len(),
                spec_gpu(graph, gpus@[x as int]) is Some,
                forall|k: int| 0 <= k < perm@.len() ==> (#[trigger] perm@[k]) < gpus@.len() && spec_gpu(graph, gpus@[perm@[k] as int]) is Some,
                forall|k: int| 0 <= k < perm@.len() ==> #[trigger] perm@[k] < x,
                forall|k: int| 0 <= k < at ==> node_rail_before(graph, gpus@, #[trigger] perm@[k] as int, x as int),
            decreases perm@.len() - at,
        {
            at = at + 1;
        }
        let ghost old_perm = perm@;
        proof {
            assert forall|k: int| at <= k < old_perm.len() implies node_rail_before(graph, gpus@, x as int, #[trigger] old_perm[k] as int) by {
                assert(!node_rail_before(graph, gpus@, old_perm[at as int] as int, x as int));
                if k > at {
                    assert(node_rail_before(graph, gpus@, old_perm[at as int] as int, old_perm[k] as int));
                }
            }
        }
        perm.insert(at, x);
        proof {
            assert forall|k: int| 0 <= k < perm@.len() implies (#[trigger] perm@[k]) < gpus@.len() && spec_gpu(graph, gpus@[perm@[k] as int]) is Some by {
                if k < at {
                    assert(perm@[k] == old_perm[k]);
                } else if k > at {
                    assert(perm@[k] == old_perm[k - 1]);
                }
            }
            if q + 1 < pos@.len() {
                assert forall|k: int| 0 <= k < perm@.len() implies #[trigger] perm@[k] < pos@[q + 1] by {
                    assert(pos@[q as int] < pos@[q + 1]);
                    if k < at {
                        assert(perm@[k] == old_perm[k]);
                    } else if k > at {
                        assert(perm@[k] == old_perm[k - 1]);
                    }
                }
            }
            assert forall|j: int| 0 <= j < q + 1 implies perm@.contains(#[trigger] pos@[j]) by {
                if j < q {
                    assert(old_perm.contains(pos@[j]));
                    let w = choose|w: int| 0 <= w < old_perm.len() && old_perm[w] == pos@[j];
                    if w < at {
                        assert(perm@[w] == old_perm[w]);
                    } else {
                        assert(perm@[w + 1] == old_perm[w]);
                    }
                } else {
                    assert(perm@[at as int] == x);
                }
            }
            assert forall|a: int, b: int| 0 <= a < b < perm@.len() implies node_rail_before(graph, gpus@, #[trigger] perm@[a] as int, #[trigger] perm@[b] as int) by {
                if a < at && b < at {
                    assert(perm@[a] == old_perm[a] && perm@[b] == old_perm[b]);
                } else if a < at && b == at {
                    assert(perm@[a] == old_perm[a]);
                } else if a < at && b > at {
                    assert(perm@[a] == old_perm[a] && perm@[b] == old_perm[b - 1]);
                    assert(node_rail_before(graph, gpus@, old_perm[a] as int, old_perm[b - 1] as int));
                } else if a == at {
                    assert(perm@[b] == old_perm[b - 1]);
                } else {
                    assert(perm@[a] == old_perm[a - 1] && perm@[b] == old_perm[b - 1]);
                }
            }
        }
        q = q + 1;
    }
    let ghost pi = perm@.map_values(|v: usize| v as int);
    proof {
        assert(perm@.len() == pos@.len());
        assert forall|k: int| 0 <= k < gpus@.len() && spec_gpu(graph, #[trigger] gpus@[k]) is Some implies pi.contains(k) by {
            assert(pos@.contains(k as usize));
            let j = choose|j: int| 0 <= j < pos@.len() && pos@[j] == k as usize;
            assert(perm@.contains(pos@[j]));
            let w = choose|w: int| 0 <= w < perm@.len() && perm@[w] == pos@[j];
            assert(pi[w] == k);
        }
        assert(rank_order(graph, gpus@, pi));
    }
    assert(pos@.len() == existing_count(graph, gpus@));
    assert((job.pp as u128) * (job.dp as u128) <= u64::MAX) by (nonlinear_arith);
    assert((job.pp as u128) * (job.dp as u128) * (job.tp as u128) <= u128::MAX) by (nonlinear_arith)
        requires
            (job.pp as u128) * (job.dp as u128) <= u64::MAX,
    ;
    let total128 = (job.pp as u128) * (job.dp as u128) * (job.tp as u128);
    let total = total128 as u32;
    let mut out: Vec<(Rank, GpuId)> = Vec::new();
    let mut k: u32 = 0;
    while k < total
        invariant
            k <= total,
            total <= perm@.len(),
            pi == perm@.map_values(|v: usize| v as int),
            forall|j: int| 0 <= j < perm@.len() ==> (#[trigger] perm@[j]) < gpus@.len(),
            out@.len() == k,
            forall|j: int| 0 <= j < k ==> #[trigger] out@[j] == (Rank(j as u32), gpus@[pi[j]]),
        decreases total - k,
    {
        out.push((Rank(k), gpus[perm[k as usize]]));
        k = k + 1;
    }
    out
}

/// Position `y` goes before position `x` (`y < x`) in node, rail order.
fn goes_before(graph: &Graph, gpus: &Vec<GpuId>, y: usize, x: usize) -> (r: bool)
    requires
        y < x < gpus@.len(),
        spec_gpu(graph, gpus@[x as int]) is Some,
        spec_gpu(graph, gpus@[y as int]) is Some,
    ensures
        r == node_rail_before(graph, gpus@, y as int, x as int),
{
    let gx = graph.gpu(gpus[x]).unwrap();
    let gy = graph.gpu(gpus[y]).unwrap();
    gy.node.0 < gx.node.0 || (gy.node.0 == gx.node.0 && gy.rail.0 <= gx.rail.0)
}

/// The GPU of each rank below `n`, as the binding lists them (a later entry for a
/// rank wins); ranks it does not name fall to GPU 0.
pub open spec fn by_rank_of(map: Seq<(Rank, GpuId)>, n: nat) -> Seq<GpuId>
    decreases map.len(),
{
    if map.len() == 0 {
        Seq::new(n, |i: int| GpuId(0))
    } else {
        let prev = by_rank_of(map.drop_last(), n);
        let last = map.last();
        if last.0.0 < n {
            prev.update(last.0.0 as int, last.1)
        } else {
            prev
        }
    }
}

/// Phases of a collective over `p` members: `2(p - 1)` for a ring all-reduce,
/// `p - 1` for a pairwise all-to-all.
pub open spec fn spec_n_phases(kind: CollectiveKind, p: nat) -> nat {
    match kind {
        CollectiveKind::RingAllReduce => (2 * (p - 1)) as nat,
        CollectiveKind::PairwiseAllToAll => (p - 1) as nat,
    }
}

/// Members of communicator `c` (pipeline stage `c / tp`, tensor index
/// `c % tp`): the data-parallel ranks of that stage and index, in order.
pub open spec fn spec_members(job: JobSpec, br: Seq<GpuId>, c: int) -> Seq<GpuId> {
    let t = job.tp as int;
    let pp_idx = c / t;
    let tp_idx = c % t;
    Seq::new(job.dp as nat, |d: int| br[pp_idx * (job.dp as int * t) + d * t + tp_idx])
}

pub(crate) proof fn lemma_rank_bound(pp_idx: int, dp_idx: int, tp_idx: int, pp: int, dp: int, tp: int)
    requires
        0 <= pp_idx < pp,
        0 <= dp_idx < dp,
        0 <= tp_idx < tp,
    ensures
        pp_idx * (dp * tp) + dp_idx * tp + tp_idx < pp * dp * tp,
        pp_idx * tp + tp_idx < pp * tp,
        dp * tp <= pp * dp * tp,
{
    assert(dp * tp <= pp * (dp * tp)) by (nonlinear_arith)
        requires
            pp >= 1,
            dp >= 0,
            tp >= 0,
    ;
    assert(dp_idx * tp + tp_idx < dp * tp) by (nonlinear_arith)
        requires
            0 <= dp_idx < dp,
            0 <= tp_idx < tp,
    ;
    assert(pp_idx * (dp * tp) + dp * tp <= pp * (dp * tp)) by (nonlinear_arith)
        requires
            0 <= pp_idx < pp,
            dp * tp >= 0,
    ;
    assert(pp * (dp * tp) == pp * dp * tp) by (nonlinear_arith);
    assert(pp_idx * tp + tp <= pp * tp) by (nonlinear_arith)
        requires
            0 <= pp_idx < pp,
            tp >= 0,
    ;
}

/// One communicator per pipeline stage and tensor index, in that order.
pub fn communicators(binding: &Binding, job: &JobSpec) -> (r: Vec<Communicator>)
    requires
        (job.pp as int) * (job.dp as int) * (job.tp as int) <= job.gpu_count,
        job.dp >= 1 ==> 2 * (job.dp - 1) <= u32::MAX,
    ensures
        job.dp == 0 ==> r@.len() == 0,
        job.dp > 0 ==> r@.len() == (job.pp as int) * (job.tp as int),
        forall|c: int|
            0 <= c < r@.len() ==> {
                &&& (#[trigger] r@[c]).index == c
                &&& r@[c].kind == job.collective
                &&& r@[c].p == job.dp
                &&& r@[c].chunk_bytes == job.payload_bytes / (job.dp as u64)
                &&& r@[c].n_phases == spec_n_phases(job.collective, job.dp as nat)
                &&& r@[c].members@ == spec_members(*job, by_rank_of(binding.map@, job.gpu_count as nat), c)
            },
{
    let mut out: Vec<Communicator> = Vec::new();
    let p = job.dp;
    if p == 0 {
        return out;
    }
    let n = job.gpu_count as usize;
    let mut by_rank: Vec<GpuId> = Vec::new();
    let mut i: usize = 0;
    while i < n
        invariant
            n == job.gpu_count,
            i <= n,
            by_rank@ == Seq::new(i as nat, |k: int| GpuId(0)),
        decreases n - i,
    {
        by_rank.push(GpuId(0));
        i = i + 1;
        assert(by_rank@ =~= Seq::new(i as nat, |k: int| GpuId(0)));
    }
    let mut m: usize = 0;
    while m < binding.map.len()
        invariant
            n == job.gpu_count,
            m <= binding.map@.len(),
            by_rank@ == by_rank_of(binding.map@.take(m as int), n as nat),
        decreases binding.map@.len() - m,
    {
        let (rk, g) = binding.map[m];
        assert(binding.map@.take(m + 1).drop_last() =~= binding.map@.take(m as int));
        assert(binding.map@.take(m + 1).last() == binding.map@[m as int]);
        proof {
            lemma_by_rank_len(binding.map@.take(m as int), n as nat);
        }
        if (rk.0 as usize) < by_rank.len() {
            by_rank.set(rk.0 as usize, g);
        }
        m = m + 1;
    }
    assert(binding.map@.take(binding.map@.len() as int) =~= binding.map@);
    let ghost br = by_rank@;
    proof {
        lemma_by_rank_len(binding.map@, n as nat);
    }
    let chunk_bytes = job.payload_bytes / (p as u64);
    let n_phases = match job.collective {
        CollectiveKind::RingAllReduce => 2 * (p - 1),
        CollectiveKind::PairwiseAllToAll => p - 1,
    };
    let mut index: u32 = 0;
    let mut pp_idx: u32 = 0;
    assert((job.pp as int) * (job.tp as int) <= u32::MAX) by (nonlinear_arith)
        requires
            (job.pp as int) * (job.dp as int) * (job.tp as int) <= job.gpu_count,
            job.dp >= 1,
    ;
    while pp_idx < job.pp
        invariant
            p == job.dp,
            p >= 1,
            br.len() == job.gpu_count,
            by_rank@ == br,
            br == by_rank_of(binding.map@, job.gpu_count as nat),
            (job.pp as int) * (job.dp as int) * (job.tp as int) <= job.gpu_count,
            (job.pp as int) * (job.tp as int) <= u32::MAX,
            pp_idx <= job.pp,
            index == pp_idx * job.tp,
            out@.len() == index,
            chunk_bytes == job.payload_bytes / (job.dp as u64),
            n_phases == spec_n_phases(job.collective, job.dp as nat),
            forall|c: int|
                0 <= c < out@.len() ==> {
                    &&& (#[trigger] out@[c]).index == c
                    &&& out@[c].kind == job.collective
                    &&& out@[c].p == job.dp
                    &&& out@[c].chunk_bytes == chunk_bytes
                    &&& out@[c].n_phases == n_phases
                    &&& out@[c].members@ == spec_members(*job, br, c)
                },
        decreases job.pp - pp_idx,
    {
        let mut tp_idx: u32 = 0;
        while tp_idx < job.tp
            invariant
                p == job.dp,
                p >= 1,
                br.len() == job.gpu_count,
                by_rank@ == br,
                (job.pp as int) * (job.dp as int) * (job.tp as int) <= job.gpu_count,
                (job.pp as int) * (job.tp as int) <= u32::MAX,
                pp_idx < job.pp,
                tp_idx <= job.tp,
                index == pp_idx * job.tp + tp_idx,
                out@.len() == index,
                chunk_bytes == job.payload_bytes / (job.dp as u64),
                n_phases == spec_n_phases(job.collective, job.dp as nat),
                forall|c: int|
                    0 <= c < out@.len() ==> {
                        &&& (#[trigger] out@[c]).index == c
                        &&& out@[c].kind == job.collective
                        &&& out@[c].p == job.dp
                        &&& out@[c].chunk_bytes == chunk_bytes
                        &&& out@[c].n_phases == n_phases
                        &&& out@[c].members@ == spec_members(*job, br, c)
                    },
            decreases job.tp - tp_idx,
        {
            let mut members: Vec<GpuId> = Vec::new();
            let mut dp_idx: u32 = 0;
            while dp_idx < p
                invariant
                    p == job.dp,
                    br.len() == job.gpu_count,
                    by_rank@ == br,
                    (job.pp as int) * (job.dp as int) * (job.tp as int) <= job.gpu_count,
                    pp_idx < job.pp,
                    tp_idx < job.tp,
                    dp_idx <= p,
                    members@.len() == dp_idx,
                    forall|d: int|
                        0 <= d < dp_idx ==> #[trigger] members@[d] == br[pp_idx * (job.dp as int * job.tp as int) + d
                            * job.tp + tp_idx],
                decreases p - dp_idx,
            {
                proof {
                    lemma_rank_bound(
                        pp_idx as int,
                        dp_idx as int,
                        tp_idx as int,
                        job.pp as int,
                        job.dp as int,
                        job.tp as int,
                    );
                }
                let rank = pp_idx * (job.dp * job.tp) + dp_idx * job.tp + tp_idx;
                members.push(by_rank[rank as usize]);
                dp_idx = dp_idx + 1;
            }
            proof {
                lemma_rank_bound(pp_idx as int, 0, tp_idx as int, job.pp as int, job.dp as int, job.tp as int);
                vstd::arithmetic::div_mod::lemma_fundamental_div_mod_converse(
                    index as int,
                    job.tp as int,
                    pp_idx as int,
                    tp_idx as int,
                );
                assert(members@ =~= spec_members(*job, br, index as int));
            }
            out.push(
                Communicator { index, kind: job.collective, members, p, chunk_bytes, n_phases },
            );
            index = index + 1;
            tp_idx = tp_idx + 1;
        }
        assert(index == (pp_idx + 1) * job.tp) by (nonlinear_arith)
            requires
                index == pp_idx * job.tp + job.tp,
        ;
        pp_idx = pp_idx + 1;
    }
    proof {
        assert(index == (job.pp as int) * (job.tp as int));
    }
    out
}

pub(crate) proof fn lemma_by_rank_len(map: Seq<(Rank, GpuId)>, n: nat)
    ensures
        by_rank_of(map, n).len() == n,
    decreases map.len(),
{
    if map.len() > 0 {
        lemma_by_rank_len(map.drop_last(), n);
    }
}

/// The keys of a map, each once.
pub fn map_keys<V>(m: &BTreeMap<u32, V>) -> (r: Vec<u32>)
    ensures
        r@.to_set() == m@.dom(),
        r@.no_duplicates(),
{
    let mut out: Vec<u32> = Vec::new();
    let keys = m.keys();
    let ghost rem0 = vstd::std_specs::iter::IteratorSpec::remaining(&keys);
    proof {
        vstd::std_specs::btree::axiom_spec_keys_iter(m);
    }
    assert(rem0 == vstd::std_specs::iter::IteratorSpec::remaining(&vstd::std_specs::btree::spec_keys_iter(m)));
    for k in it: keys
        invariant
            it.seq() == rem0,
            rem0.unref().to_set() == m@.dom(),
            out@ == it.seq().take(it.index() as int).map_values(|x: &u32| *x),
    {
        out.push(*k);
    }
    assert(out@ =~= rem0.map_values(|x: &u32| *x));
    assert(rem0.unref() =~= rem0.map_values(|x: &u32| *x));
    out
}

/// The keys of a map in increasing order.
pub fn sorted_map_keys<V>(m: &BTreeMap<u32, V>) -> (r: Vec<u32>)
    ensures
        r@.to_set() == m@.dom(),
        r@.no_duplicates(),
        forall|i: int, j: int| 0 <= i < j < r@.len() ==> r@[i] < r@[j],
{
    let keys = map_keys(m);
    let mut out: Vec<u32> = Vec::new();
    let mut i: usize = 0;
    while i < keys.len()
        invariant
            i <= keys@.len(),
            keys@.no_duplicates(),
            forall|a: int, b: int| 0 <= a < b < out@.len() ==> out@[a] < out@[b],
            forall|x: u32| out@.contains(x) <==> keys@.take(i as int).contains(x),
        decreases keys@.len() - i,
    {
        let x = keys[i];
        let mut p: usize = 0;
        while p < out.len()
            invariant
                p <= out@.len(),
                forall|q: int| 0 <= q < p ==> out@[q] < x,
            ensures
                p <= out@.len(),
                forall|q: int| 0 <= q < p ==> out@[q] < x,
                p < out@.len() ==> out@[p as int] >= x,
            decreases out@.len() - p,
        {
            if out[p] >= x {
                break;
            }
            p = p + 1;
        }
        let ghost before = out@;
        proof {
            assert(!keys@.take(i as int).contains(x)) by {
                if keys@.take(i as int).contains(x) {
                    let j = choose|j: int| 0 <= j < i && keys@.take(i as int)[j] == x;
                    assert(keys@[j] == keys@[i as int]);
                }
            }
            if p < before.len() {
                assert(before[p as int] != x) by {
                    assert(before.contains(before[p as int]));
                }
            }
        }
        out.insert(p, x);
        proof {
            assert forall|a: int, b: int| 0 <= a < b < out@.len() implies out@[a] < out@[b] by {
                if b < p {
                } else if a < p && b == p {
                } else if a < p && b > p {
                    assert(out@[b] == before[b - 1]);
                    if b - 1 > p {
                        assert(before[p as int] < before[b - 1]);
                    }
                } else if a == p {
                    assert(out@[b] == before[b - 1]);
                    if b - 1 > p {
                        assert(before[p as int] < before[b - 1]);
                    }
                } else {
                    assert(out@[a] == before[a - 1]);
                    assert(out@[b] == before[b - 1]);
                }
            }
            let t = keys@.take(i as int);
            let t1 = keys@.take(i + 1);
            assert forall|y: u32| out@.contains(y) <==> t1.contains(y) by {
                if before.contains(y) {
                    let j = choose|j: int| 0 <= j < before.len() && before[j] == y;
                    if j < p {
                        assert(out@[j] == y);
                    } else {
                        assert(out@[j + 1] == y);
                    }
                    assert(t.contains(y));
                    let k = choose|k: int| 0 <= k < t.len() && t[k] == y;
                    assert(t1[k] == y);
                }
                if y == x {
                    assert(out@[p as int] == x);
                    assert(t1[i as int] == x);
                }
                if out@.contains(y) {
                    let j = choose|j: int| 0 <= j < out@.len() && out@[j] == y;
                    if j < p {
                        assert(before[j] == y);
                    } else if j > p {
                        assert(before[j - 1] == y);
                    }
                }
                if t1.contains(y) {
                    let k = choose|k: int| 0 <= k < t1.len() && t1[k] == y;
                    if k < i {
                        assert(t[k] == y);
                    }
                }
            }
        }
        i = i + 1;
    }
    assert(keys@.take(keys@.len() as int) =~= keys@);
    proof {
        assert(out@.to_set() =~= m@.dom()) by {
            assert forall|y: u32| out@.to_set().contains(y) <==> m@.dom().contains(y) by {
                assert(keys@.to_set().contains(y) <==> keys@.contains(y));
            }
        }
        assert forall|a: int, b: int| 0 <= a < out@.len() && 0 <= b < out@.len() && a != b implies out@[a] != out@[b] by {
            if a < b {
                assert(out@[a] < out@[b]);
            } else {
                assert(out@[b] < out@[a]);
            }
        }
    }
    out
}

} // verus!
