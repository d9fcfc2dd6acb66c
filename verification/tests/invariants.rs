use std::collections::BTreeMap;

use fabric_te::inv::{
    first_mutate_broken, i10_holds, i1_holds, i4_holds, i5_holds, i6_holds, i7_holds, i8_holds, i9_holds,
    named_broken, Ctx, LiveCounters,
};
use fabric_te::mix::JobSpec;
use fabric_te::paths::Path;
use fabric_te::residual::Residual;
use fabric_te::table::{Binding, JobRec, JobTable};
use fabric_te::topo::Graph;
use fabric_te::trace::TraceRollup;
use fabric_te::types::{BindingKind, CollectiveKind, GpuId, JobId, JobState, Policy, Rank, SimTime};

fn n32() -> Graph {
    Graph::generate(256, 8, 1).expect("n32")
}

fn ctx<'a>(
    graph: &'a Graph,
    residual: &'a Residual,
    table: &'a JobTable,
    load: &'a [u64],
    bytes: &'a [u64],
    paths: &'a [Path],
    policy: Policy,
) -> Ctx<'a> {
    Ctx { graph, residual, table, policy, inflight_load: load, bytes_epoch: bytes, inflight_paths: paths }
}

#[test]
fn i7_eq_closed_form() {
    assert!(i7_holds());
}

#[test]
fn i10_generated_clos() {
    assert!(i10_holds(&n32()));
    assert!(i10_holds(&Graph::generate(512, 8, 1).expect("n64")));
}

#[test]
fn i1_naive_load_over_cap() {
    let graph = n32();
    let residual = Residual::new(&graph);
    let table = JobTable::new();
    let mut load = vec![0u64; graph.links.len()];
    load[0] = graph.links[0].capacity_Bps + 1;
    let bytes = vec![0u64; graph.links.len()];
    let paths: [Path; 0] = [];
    let c = ctx(&graph, &residual, &table, &load, &bytes, &paths, Policy::Naive);
    assert!(!i1_holds(&c));
    assert_eq!(first_mutate_broken(&c), Some("I1"));
    assert!(named_broken(&c, "I1"));
    assert!(!named_broken(&c, "I6"));
}

#[test]
fn i4_gpu_outside_cluster() {
    let graph = n32();
    let mut table = JobTable::new();
    table.occ.by_gpu.insert(999_999, JobId(1));
    assert!(!i4_holds(&graph, &table));
}

fn spec(id: u32) -> JobSpec {
    JobSpec {
        id: JobId(id),
        arrive: SimTime { ps: 0, seq: 0 },
        gpu_count: 1,
        dp: 1,
        tp: 1,
        pp: 1,
        collective: CollectiveKind::RingAllReduce,
        payload_bytes: 64,
        step_count: 1,
        compute_ps: 0,
        deadline_ps: 1,
    }
}

#[test]
fn i5_two_live_jobs_one_gpu() {
    let graph = n32();
    let mut table = JobTable::new();
    for id in [1u32, 2] {
        table.by_id.insert(
            id,
            JobRec {
                spec: spec(id),
                state: JobState::Computing,
                admit_seq: None,
                binding: Some(Binding { kind: BindingKind::NaiveFirstFit, map: vec![(Rank(0), GpuId(0))] }),
                paths: Vec::new(),
                cir: BTreeMap::new(),
                planned: Vec::new(),
                t_pred_ps: 0,
                step_index: 0,
                steps_done: 0,
                reject: None,
            },
        );
    }
    table.occ.by_gpu.insert(0, JobId(1));
    assert!(!i5_holds(&table));
    assert!(i4_holds(&graph, &table));
}

#[test]
fn i8_ps_monotonic_unique() {
    assert!(i8_holds(None, (0, 0)));
    assert!(i8_holds(Some((0, 0)), (0, 1)));
    assert!(i8_holds(Some((0, 1)), (10, 0)));
    assert!(!i8_holds(Some((10, 0)), (10, 0)));
    assert!(!i8_holds(Some((10, 3)), (9, 99)));
}

#[test]
fn i9_joint_scratch() {
    let graph = n32();
    let mut residual = Residual::new(&graph);
    let e = graph.links[0].id;
    residual.inject_cir(&graph, e, Residual::admissible(&graph, e) + 1);
    assert!(!i9_holds(&graph, &residual, Policy::Joint));
    assert!(i9_holds(&graph, &residual, Policy::Naive));
}

#[test]
fn i6_rollup_eq() {
    let live = LiveCounters { arrivals: 2, admits: 1, rejects: 1, kills: 0, completes: 1 };
    let log = TraceRollup { arrivals: 2, admits: 1, rejects: 1, kills: 0, completes: 1 };
    assert!(i6_holds(&live, &log));
    let mut bad = log.clone();
    bad.arrivals = 3;
    assert!(!i6_holds(&live, &bad));
}

#[test]
fn empty_n32_all_mutate_ok() {
    let graph = n32();
    let residual = Residual::new(&graph);
    let table = JobTable::new();
    let load = vec![0u64; graph.links.len()];
    let bytes = vec![0u64; graph.links.len()];
    let paths: [Path; 0] = [];
    let c = ctx(&graph, &residual, &table, &load, &bytes, &paths, Policy::Joint);
    assert_eq!(first_mutate_broken(&c), None);
    assert!(i4_holds(&graph, &table));
}
