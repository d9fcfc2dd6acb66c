use fabric_te::fel::Fel;
use fabric_te::joint::generate_bindings;
use fabric_te::mix::JobSpec;
use fabric_te::naive::{gpu_scan_order, naive_admit, pump_until_collective_start};
use fabric_te::paths::{path_candidates, PathMode};
use fabric_te::residual::Residual;
use fabric_te::table::{Binding, JobTable, Occupancy};
use fabric_te::topo::Graph;
use fabric_te::types::{BindingKind, CollectiveKind, EventKind, GpuId, JobId, JobState, SimTime};

fn tiny_job(deadline_ps: i128, compute_ps: i128) -> JobSpec {
    JobSpec {
        id: JobId(1),
        arrive: SimTime { ps: 0, seq: 0 },
        gpu_count: 2,
        dp: 2,
        tp: 1,
        pp: 1,
        collective: CollectiveKind::RingAllReduce,
        payload_bytes: 64,
        step_count: 1,
        compute_ps,
        deadline_ps,
    }
}

#[test]
fn naive_scan_order_node_then_rank() {
    let graph = Graph::generate(256, 8, 1).expect("n32");
    let occ = Occupancy::new();
    let first10: Vec<GpuId> = gpu_scan_order(graph.params.nodes, graph.params.gpus_per_node)
        .into_iter()
        .filter(|&g| occ.is_free(g, &graph))
        .take(10)
        .collect();
    assert_eq!(first10, (0..10).map(GpuId).collect::<Vec<_>>());
}

#[test]
fn naive_admit_gpu_count_only() {
    let graph = Graph::generate(256, 8, 1).expect("n32");
    let mut residual = Residual::new(&graph);
    let mut table = JobTable::new();
    let mut fel = Fel::new();
    let job = tiny_job(1, 0);
    assert!(naive_admit(&job, &graph, &mut residual, &mut table, &mut fel).is_ok());
    let rec = table.by_id.get(&1).expect("rec");
    assert_eq!(rec.state, JobState::Computing);
    assert!(rec.reject.is_none());
    assert_eq!(table.occ.by_gpu.len(), 2);
    assert_eq!(table.occ.by_gpu.get(&0), Some(&JobId(1)));
    assert_eq!(table.occ.by_gpu.get(&1), Some(&JobId(1)));
}

#[test]
fn compute_before_first_collective() {
    let graph = Graph::generate(256, 8, 1).expect("n32");
    let mut residual = Residual::new(&graph);
    let mut table = JobTable::new();
    let mut fel = Fel::new();
    let compute_ps = 10_000_000_000;
    let job = tiny_job(1, compute_ps);
    naive_admit(&job, &graph, &mut residual, &mut table, &mut fel).expect("admit");
    let cs = pump_until_collective_start(&mut table, &mut fel).expect("CollectiveStart");
    assert_eq!(cs.kind, EventKind::CollectiveStart);
    assert_eq!(cs.t.ps, job.arrive.ps + compute_ps);
    let rec = table.by_id.get(&1).expect("rec");
    assert_eq!(rec.state, JobState::Collecting);
}

fn job_p(gpu_count: u32) -> JobSpec {
    JobSpec {
        id: JobId(1),
        arrive: SimTime { ps: 0, seq: 0 },
        gpu_count,
        dp: gpu_count,
        tp: 1,
        pp: 1,
        collective: CollectiveKind::RingAllReduce,
        payload_bytes: 64,
        step_count: 1,
        compute_ps: 0,
        deadline_ps: i128::MAX,
    }
}

#[test]
fn joint_k16_bound() {
    let graph = Graph::generate(256, 8, 1).expect("n32");
    let occ = Occupancy::new();
    let n = graph.params.nodes;
    let r = graph.params.gpus_per_node;
    assert_eq!((n, r), (32, 8));
    let job = job_p(16);
    let bs: Vec<Binding> = generate_bindings(&job, &occ, &graph, n, r);
    assert!(bs.len() <= 16, "K cap, got {}", bs.len());
    assert_eq!(bs.len(), 16);
    let ff: Vec<u8> = bs
        .iter()
        .filter_map(|b| match b.kind {
            BindingKind::FirstFitShift { skip_free_gpus } => Some(skip_free_gpus),
            _ => None,
        })
        .collect();
    assert_eq!(ff, vec![0, 8, 16, 24, 32, 40, 48, 56]);
    assert_ne!(ff, vec![0, 1, 2, 3, 4, 5, 6, 7]);
    let rails: Vec<u8> = bs
        .iter()
        .filter_map(|b| match b.kind {
            BindingKind::RailRotate { start_rail } => Some(start_rail),
            _ => None,
        })
        .collect();
    assert_eq!(rails, vec![0, 1, 2, 3, 4, 5, 6, 7]);
}

#[test]
fn single_rank_job_commits_nothing() {
    let graph = Graph::generate(256, 8, 1).expect("n32");
    let mut residual = Residual::new(&graph);
    let before = residual.cir.clone();
    let mut table = JobTable::new();
    let mut fel = Fel::new();
    let job = job_p(1);
    naive_admit(&job, &graph, &mut residual, &mut table, &mut fel).expect("admit");
    let rec = table.by_id.get(&1).expect("rec");
    assert_eq!(rec.t_pred_ps, 0);
    assert!(rec.cir.is_empty());
    assert!(rec.planned.is_empty());
    assert!(rec.paths.is_empty());
    assert_eq!(residual.cir, before);
}

#[test]
fn naive_flows_ride_the_first_route() {
    let graph = Graph::generate(256, 8, 1).expect("n32");
    let mut residual = Residual::new(&graph);
    let fresh = Residual::new(&graph);
    let mut table = JobTable::new();
    let mut fel = Fel::new();
    let job = job_p(16);
    naive_admit(&job, &graph, &mut residual, &mut table, &mut fel).expect("admit");
    let rec = table.by_id.get(&1).expect("rec");
    assert!(!rec.planned.is_empty());
    for f in &rec.planned {
        let cands = path_candidates(f.src, f.dst, &graph, &fresh, PathMode::Ecmp);
        assert!(!cands.is_empty());
        assert_eq!(f.path.links, cands[0].links);
        assert!(f.rate_Bps >= 1);
        let left = fresh.physical_leftover(&graph);
        for e in &f.path.links {
            assert!(f.rate_Bps <= left[e.0 as usize]);
        }
    }
    assert!(rec.t_pred_ps < i128::MAX);
}
