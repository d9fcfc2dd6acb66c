use std::collections::BTreeMap;

use fabric_te::kernel::{
    admit_b_eff, advance_links, begin_step, binding_kind_label, commit_table, drop_occ, end_step, link_tick,
    mean_util_ppm, ps_or_none, step_budget, LinkClock,
};
use fabric_te::mix::JobSpec;
use fabric_te::paths::{path_candidates, Path, PathMode};
use fabric_te::prepare::{naive_rebuild, Reroute};
use fabric_te::residual::Residual;
use fabric_te::report::{empty_rejects, join_words, tail_p99_ps, us_of, Report, TopoSummary};
use fabric_te::schedule::{phase_offset, schedule_collective};
use fabric_te::table::{Binding, Flow, JobRec, JobTable};
use fabric_te::topo::Graph;
use fabric_te::trace::{ps_i64, rollup_counts, EventRow, JobRow, LinkRow, TraceBook};
use fabric_te::types::{
    BindingKind, CollectiveKind, FlowId, GpuId, JobId, JobState, LinkId, Policy, Rank, SimTime,
};

fn flow(comm: u32, phase: u32, rate: u64, bytes: u64, link: u32) -> Flow {
    Flow {
        id: FlowId(0),
        job: JobId(1),
        comm,
        phase,
        src: GpuId(0),
        dst: GpuId(9),
        path: Path { links: vec![LinkId(link)] },
        rate_Bps: rate,
        bytes,
    }
}

#[test]
fn phase_offset_sums_earlier_phases() {
    // 1 MB at 1e12 B/s is 1 us of transfer plus 1 us of latency.
    let planned = vec![flow(0, 1, 1_000_000_000_000, 1_000_000, 0), flow(0, 0, 1_000_000_000_000, 1_000_000, 1)];
    assert_eq!(phase_offset(&planned, 0, 0), 0);
    assert_eq!(phase_offset(&planned, 0, 1), 2_000_000);
    assert_eq!(phase_offset(&planned, 0, 2), 4_000_000);
    assert_eq!(phase_offset(&planned, 1, 2), 0);
    let stuck = vec![flow(0, 0, 0, 1_000_000, 0)];
    assert_eq!(phase_offset(&stuck, 0, 1), i128::MAX / 4);
}

#[test]
fn schedule_orders_phases_and_ends_last() {
    let planned = vec![
        flow(1, 0, 1_000_000_000_000, 1_000_000, 3),
        flow(0, 1, 1_000_000_000_000, 1_000_000, 2),
        flow(0, 0, 500_000_000_000, 1_000_000, 1),
        flow(0, 0, 1_000_000_000_000, 1_000_000, 0),
    ];
    let s = schedule_collective(&planned, JobId(5), 100);
    assert_eq!(s.flows.len(), 4);
    // (0,0): two flows at the slower rate: 1 us + 2 us.
    assert_eq!(s.flows[0].path.links, vec![LinkId(1)]);
    assert_eq!(s.flows[0].t_arrive_ps, 100);
    assert_eq!(s.flows[0].t_depart_ps, 3_000_100);
    assert_eq!(s.flows[1].path.links, vec![LinkId(0)]);
    // (0,1) after (0,0).
    assert_eq!(s.flows[2].t_arrive_ps, 3_000_100);
    assert_eq!(s.flows[2].t_depart_ps, 5_000_100);
    // (1,0) alongside.
    assert_eq!(s.flows[3].t_arrive_ps, 100);
    assert_eq!(s.flows[3].t_depart_ps, 2_000_100);
    assert!(s.flows.iter().all(|f| f.job == JobId(5)));
    assert_eq!(s.end_ps, 5_000_100);
    let none = schedule_collective(&Vec::new(), JobId(5), 42);
    assert!(none.flows.is_empty());
    assert_eq!(none.end_ps, 42);
}

#[test]
fn link_tick_queue_and_hotspot() {
    // 1 GB/s over capacity for 1 ms adds 1 MB of queue.
    let t = link_tick(1_000_000_000, 2_000_000_000, 0, 0, false, 1_000_000_000, 33_554_432, false);
    assert!(t.hot);
    assert_eq!(t.q_bytes, 1_000_000);
    assert_eq!(t.rate_dt, 2_000_000_000i128 * 1_000_000_000);
    assert!(!t.overflowed);
    // The queue drains but never below zero.
    let t = link_tick(1_000_000_000, 0, 10, 0, false, 1_000_000_000, 33_554_432, false);
    assert!(!t.hot);
    assert_eq!(t.q_bytes, 0);
    // It caps at the buffer and flags the overflow.
    let t = link_tick(1_000_000_000, 2_000_000_000, 33_554_000, 0, false, 1_000_000_000, 33_554_432, false);
    assert_eq!(t.q_bytes, 33_554_432);
    assert!(t.overflowed);
    // Infinite buffers keep growing.
    let t = link_tick(1_000_000_000, 2_000_000_000, 33_554_000, 0, false, 1_000_000_000, 33_554_432, true);
    assert_eq!(t.q_bytes, 34_554_000);
    assert!(!t.overflowed);
    // 79% is not hot; 80% is.
    assert!(!link_tick(100, 79, 0, 0, false, 1, 0, true).hot);
    assert!(link_tick(100, 80, 0, 0, false, 1, 0, true).hot);
}

#[test]
fn advance_links_counts_hot_time() {
    let g = Graph::generate(256, 8, 1).expect("n32");
    let n = g.links.len();
    let mut load = vec![0u64; n];
    load[0] = g.links[0].capacity_Bps;
    load[1] = g.links[1].capacity_Bps;
    let mut clock = LinkClock { q_bytes: vec![0; n], overflowed: vec![false; n], rate_dt: vec![0; n], hotspot_ps: 5 };
    advance_links(&g, &load, &mut clock, 10);
    assert_eq!(clock.hotspot_ps, 25);
    assert_eq!(clock.rate_dt[0], load[0] as i128 * 10);
    assert_eq!(clock.rate_dt[2], 0);
}

fn spec(id: u32, steps: u32) -> JobSpec {
    JobSpec {
        id: JobId(id),
        arrive: SimTime { ps: 10, seq: 0 },
        gpu_count: 2,
        dp: 2,
        tp: 1,
        pp: 1,
        collective: CollectiveKind::RingAllReduce,
        payload_bytes: 64,
        step_count: steps,
        compute_ps: 100,
        deadline_ps: 1_000,
    }
}

fn rec(id: u32, steps: u32, gpus: [u32; 2]) -> JobRec {
    JobRec {
        spec: spec(id, steps),
        state: JobState::Computing,
        admit_seq: None,
        binding: Some(Binding {
            kind: BindingKind::NaiveFirstFit,
            map: vec![(Rank(0), GpuId(gpus[0])), (Rank(1), GpuId(gpus[1]))],
        }),
        paths: Vec::new(),
        cir: BTreeMap::new(),
        planned: Vec::new(),
        t_pred_ps: 0,
        step_index: 0,
        steps_done: 0,
        reject: None,
    }
}

fn table_of_two() -> JobTable {
    let mut t = JobTable::new();
    t.by_id.insert(1, rec(1, 2, [0, 1]));
    t.by_id.insert(2, rec(2, 1, [2, 3]));
    for g in [0u32, 1] {
        t.occ.by_gpu.insert(g, JobId(1));
    }
    for g in [2u32, 3] {
        t.occ.by_gpu.insert(g, JobId(2));
    }
    t
}

#[test]
fn steps_advance_then_complete() {
    let mut t = table_of_two();
    assert!(begin_step(&mut t, JobId(1), 0));
    assert_eq!(t.by_id[&1].state, JobState::Collecting);
    let e = end_step(&mut t, JobId(1), 0).expect("live");
    assert!(e.more);
    assert_eq!(e.compute_ps, 100);
    assert_eq!(t.by_id[&1].state, JobState::Computing);
    assert_eq!(t.by_id[&1].step_index, 1);
    assert_eq!(t.by_id[&1].steps_done, 1);
    let e = end_step(&mut t, JobId(1), 1).expect("live");
    assert!(!e.more);
    assert_eq!(t.by_id[&1].state, JobState::Completed);
    assert!(!begin_step(&mut t, JobId(9), 0));
    assert!(end_step(&mut t, JobId(9), 0).is_none());
}

#[test]
fn commit_kills_free_gpus_and_reroutes_replace_routes() {
    let mut t = table_of_two();
    let r = Reroute {
        job: JobId(2),
        paths: vec![Path { links: vec![LinkId(4), LinkId(5)] }],
        planned: Vec::new(),
        cir: BTreeMap::from([(4u32, 7u64)]),
        t_pred_ps: 77,
    };
    commit_table(&mut t, &vec![JobId(1)], vec![r]);
    assert_eq!(t.by_id[&1].state, JobState::Killed);
    assert!(t.occ.by_gpu.get(&0).is_none());
    assert!(t.occ.by_gpu.get(&1).is_none());
    assert_eq!(t.occ.by_gpu.get(&2), Some(&JobId(2)));
    assert_eq!(t.by_id[&2].t_pred_ps, 77);
    assert_eq!(t.by_id[&2].paths[0].links, vec![LinkId(4), LinkId(5)]);
    assert_eq!(t.by_id[&2].cir.get(&4), Some(&7));
    assert_eq!(t.by_id[&2].state, JobState::Computing);
    drop_occ(&mut t, JobId(2));
    assert!(t.occ.by_gpu.is_empty());
}

#[test]
fn small_kernel_helpers() {
    assert_eq!(binding_kind_label(BindingKind::NaiveFirstFit), "NaiveFirstFit");
    assert_eq!(binding_kind_label(BindingKind::FirstFitShift { skip_free_gpus: 16 }), "FirstFitShift{16}");
    assert_eq!(binding_kind_label(BindingKind::RailRotate { start_rail: 3 }), "RailRotate{3}");
    assert_eq!(ps_or_none(i128::MAX), None);
    assert_eq!(ps_or_none(-5), Some(-5));
    assert_eq!(admit_b_eff(&vec![flow(0, 0, 0, 1, 0), flow(0, 0, 9, 1, 0), flow(0, 1, 4, 1, 0)]), 4);
    assert_eq!(admit_b_eff(&Vec::new()), 0);
    assert_eq!(step_budget(&spec(1, 3)), 10 + 3 * 1_100);
    assert_eq!(mean_util_ppm(&vec![1_000, 0], &vec![1_000, 0], 1), 500_000);
    assert_eq!(mean_util_ppm(&Vec::new(), &Vec::new(), 10), 0);
}

#[test]
fn report_summary_and_p99() {
    let topo = TopoSummary { gpus: 8, N: 1, L: 8, S: 4, E_host: 8, E_ls: 8, B_bisect_gbps: 1 };
    let mut r = Report::new(7, Policy::Naive, topo);
    assert_eq!(r.policy, "naive");
    assert_eq!(r.spec_version, "0.1");
    assert_eq!(r.metrics.hotspot_threshold_ppm, 800_000);
    r.counts.arrivals = 3;
    r.counts.admits = 2;
    r.rejects_by_code[0].1 = 1;
    let s = r.stdout_summary();
    let mut lines = s.lines();
    assert_eq!(
        lines.next().unwrap(),
        "arrivals admits rejects kills completes slo_misses NoFreeGpus FragmentedGpus ResidualExhausted SloMiss CrossRailUnsupported DeadElementOnPath EpochPrepareFailed MixDoesNotFit OddRingDegenerate ZeroLeftover"
    );
    assert_eq!(lines.next().unwrap(), "3 2 0 0 0 0 1 0 0 0 0 0 0 0 0 0");
    assert_eq!(empty_rejects().len(), 10);
    assert_eq!(join_words(&vec!["a".to_string(), "b".to_string()]), "a b");
    assert_eq!(tail_p99_ps(Vec::new()), 0);
    assert_eq!(tail_p99_ps(vec![5, 9, 1]), 9);
    let xs: Vec<i128> = (1..=200).rev().collect();
    assert_eq!(tail_p99_ps(xs), 198);
    assert_eq!(us_of(2_500_000), 2);
}

#[test]
fn trace_book_caps_and_counts() {
    let mut b = TraceBook::new();
    let row = |t: i64| LinkRow { link_id: 3, t_ps: t, c_Bps: 1, cir_Bps: 0, r_avail_Bps: 0, q_bytes: 0, failed: false };
    b.link(row(0));
    b.link(row(1));
    assert_eq!(b.links.len(), 2);
    assert_eq!(b.link_written[3], 2);
    assert_eq!(b.link_stride[3], 1);
    b.count_admit("admit");
    b.count_admit("reject");
    b.count_admit("other");
    b.event(EventRow {
        t_ps: 0,
        seq: 0,
        kind: "JobArrive".to_string(),
        epoch: 0,
        job_id: Some(1),
        flow_id: None,
        link_id: None,
        spine_id: None,
        leaf_id: None,
        rail_id: None,
        reject: None,
        bytes: None,
    });
    b.job(JobRow {
        job_id: 1,
        arrive_ps: 0,
        exit_ps: 5,
        decision: "kill".to_string(),
        reject: None,
        binding_kind: None,
        t_pred_ps: 0,
        d_j_ps: 0,
        steps_done: 0,
    });
    let r = b.rollup();
    assert_eq!((r.arrivals, r.admits, r.rejects, r.kills, r.completes), (1, 1, 1, 1, 0));
    let r2 = rollup_counts(
        &vec!["JobArrive".to_string(), "FlowArrive".to_string()],
        &vec!["admit".to_string(), "admit".to_string(), "reject".to_string()],
        &vec!["admit".to_string()],
    );
    assert_eq!((r2.arrivals, r2.admits, r2.rejects, r2.kills, r2.completes), (1, 2, 1, 0, 1));
    assert_eq!(ps_i64(i128::MAX), i64::MAX);
    assert_eq!(ps_i64(-3), -3);
}

#[test]
fn trace_book_doubles_stride_at_cap() {
    let mut b = TraceBook::new();
    let row = LinkRow { link_id: 0, t_ps: 0, c_Bps: 1, cir_Bps: 0, r_avail_Bps: 0, q_bytes: 0, failed: false };
    for _ in 0..50_000 {
        b.link(row.clone());
    }
    assert_eq!(b.links.len(), 50_000);
    b.link(row.clone());
    assert_eq!(b.links.len(), 50_000);
    assert_eq!(b.link_stride[0], 2);
    assert_eq!(b.link_tick[0], 0);
    b.link(row.clone());
    assert_eq!(b.links.len(), 50_000);
    assert_eq!(b.link_tick[0], 1);
    // Past the cap rows are still kept, every second one.
    b.link(row.clone());
    assert_eq!(b.links.len(), 50_001);
    assert_eq!(b.link_stride[0], 2);
    b.link(row.clone());
    b.link(row);
    assert_eq!(b.links.len(), 50_002);
}

#[test]
fn trace_book_stride_doubles_again_at_twice_the_cap() {
    let mut b = TraceBook::new();
    let row = LinkRow { link_id: 0, t_ps: 0, c_Bps: 1, cir_Bps: 0, r_avail_Bps: 0, q_bytes: 0, failed: false };
    for _ in 0..150_003 {
        b.link(row.clone());
    }
    assert_eq!(b.links.len(), 100_000);
    assert_eq!(b.link_stride[0], 4);
    for _ in 0..4 {
        b.link(row.clone());
    }
    assert_eq!(b.links.len(), 100_001);
}

#[test]
fn rebuild_without_exchange_needs_no_route() {
    let g = Graph::generate(256, 8, 1).expect("n32");
    let residual = Residual::new(&g);
    let mut r = rec(3, 1, [0, 40]);
    r.spec.dp = 1;
    let out = naive_rebuild(&r, &g, &residual).expect("nothing to route");
    assert_eq!(out.job, JobId(3));
    assert!(out.paths.is_empty());
    assert!(out.planned.is_empty());
    assert!(out.cir.is_empty());
    assert_eq!(out.t_pred_ps, 0);
    r.binding = None;
    assert!(naive_rebuild(&r, &g, &residual).is_none());
}

#[test]
fn rebuild_rides_first_routes_within_leftover() {
    let g = Graph::generate(256, 8, 1).expect("n32");
    let residual = Residual::new(&g);
    let mut r = rec(3, 1, [0, 40]);
    r.spec.deadline_ps = 1_000_000_000_000;
    let out = naive_rebuild(&r, &g, &residual).expect("a route exists");
    assert!(!out.planned.is_empty());
    let left = residual.physical_leftover(&g);
    for f in &out.planned {
        let cands = path_candidates(f.src, f.dst, &g, &residual, PathMode::Ecmp);
        assert_eq!(f.path.links, cands[0].links);
        assert!(f.rate_Bps >= 1);
        for e in &f.path.links {
            assert!(f.rate_Bps <= left[e.0 as usize]);
        }
    }
}

#[test]
fn rebuild_inside_one_node_needs_no_route() {
    let g = Graph::generate(256, 8, 1).expect("n32");
    let residual = Residual::new(&g);
    let r = rec(4, 1, [0, 1]);
    let out = naive_rebuild(&r, &g, &residual).expect("one node");
    assert_eq!(out.job, JobId(4));
    assert!(out.paths.is_empty());
    assert!(out.planned.is_empty());
    assert!(out.cir.is_empty());
    assert_eq!(out.t_pred_ps, 0);
}
