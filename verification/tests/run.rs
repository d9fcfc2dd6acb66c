use fabric_te::engine::{moved_bytes, run_sim, run_sim_snapshot, RunConfig, RunOutcome};
use fabric_te::epoch::{FailKind, FailSpec};
use fabric_te::inv::{i6_holds, LiveCounters};
use fabric_te::mix::{JobSpec, Mix};
use fabric_te::topo::Graph;
use fabric_te::types::{CollectiveKind, JobId, Policy, SimTime, SpineId};

fn n64() -> Graph {
    Graph::generate(512, 8, 1).expect("n64")
}

fn ring40() -> JobSpec {
    JobSpec {
        id: JobId(1),
        arrive: SimTime { ps: 0, seq: 0 },
        gpu_count: 40,
        dp: 40,
        tp: 1,
        pp: 1,
        collective: CollectiveKind::RingAllReduce,
        payload_bytes: 67_108_864,
        step_count: 20,
        compute_ps: 10_000_000_000,
        deadline_ps: 10_000_000_000,
    }
}

fn tiny2(id: u32) -> JobSpec {
    JobSpec {
        id: JobId(id),
        arrive: SimTime { ps: 0, seq: 0 },
        gpu_count: 2,
        dp: 2,
        tp: 1,
        pp: 1,
        collective: CollectiveKind::RingAllReduce,
        payload_bytes: 64,
        step_count: 4,
        compute_ps: 1_000_000_000,
        deadline_ps: 10_000_000_000,
    }
}

fn run_with(jobs: Vec<JobSpec>, horizon_ps: i128, fails: Vec<FailSpec>, policy: Policy, strict: bool) -> RunOutcome {
    let cfg = RunConfig {
        graph: n64(),
        mix: Mix { seed: 1, horizon_ps, jobs },
        policy,
        seed: 1,
        strict,
        mix_hash: "t".to_string(),
        topo_hash: "t".to_string(),
        fails,
    };
    match run_sim_snapshot(cfg) {
        Ok(o) => o,
        Err(e) => panic!("run: {}", e.message()),
    }
}

#[test]
fn epoch_2pc_arc_swap() {
    let snap = run_with(
        vec![ring40()],
        200_000_000_000,
        vec![FailSpec { t_ps: 15_000_000_000, kind: FailKind::Spine(SpineId(3)) }],
        Policy::Joint,
        false,
    );
    assert_eq!(snap.epoch.0, 1, "EpochId increments once");
    let advances: Vec<_> = snap.event_trace.iter().filter(|(k, _)| k == "EpochAdvance").collect();
    assert_eq!(advances.len(), 1);
    assert_eq!(advances[0].1, 1);
    let idx = snap.event_trace.iter().position(|(k, _)| k == "EpochAdvance").expect("EpochAdvance");
    assert!(snap.event_trace[idx..].iter().all(|(_, e)| *e == 1));
    let pre = &snap.event_trace[..idx];
    assert!(pre.iter().any(|(k, e)| k == "SpineFail" && *e == 0));
    assert_eq!(snap.graph.epoch.0, 1);
    assert!(snap.graph.spines[3].failed);
}

fn span16(id: u32) -> JobSpec {
    JobSpec {
        id: JobId(id),
        arrive: SimTime { ps: 0, seq: 0 },
        gpu_count: 16,
        dp: 16,
        tp: 1,
        pp: 1,
        collective: CollectiveKind::RingAllReduce,
        payload_bytes: 1_048_576,
        step_count: 3,
        compute_ps: 1_000_000_000,
        deadline_ps: 100_000_000_000,
    }
}

#[test]
fn run_cross_node_job_completes() {
    let out = run_with(vec![span16(1)], 1_000_000_000_000, vec![], Policy::Naive, true);
    let c = out.report.counts;
    assert_eq!(c.arrivals, 1);
    assert_eq!(c.admits, 1);
    assert_eq!(c.rejects, 0);
    assert_eq!(c.completes, 1);
    assert_eq!(c.kills, 0);
    assert!(out.report.invariants_ok);
    assert_eq!(out.admits.len(), 1);
    assert!(out.admits[0].ok && out.admits[0].gpu_ids.len() == 16);
    assert_eq!(out.report.jobs.len(), 1);
    assert_eq!(out.report.jobs[0].decision, "admit");
    assert_eq!(out.report.jobs[0].steps_done, 3);
    assert!(!out.traces.flows.is_empty());
}

#[test]
fn run_intra_node_jobs_wait_for_horizon() {
    // Both jobs fit on one node: they plan no fabric flow, their collective
    // end is never awaited, and the horizon kills them.
    let out = run_with(vec![tiny2(1), tiny2(2)], 1_000_000_000_000, vec![], Policy::Naive, true);
    let c = out.report.counts;
    assert_eq!(c.arrivals, 2);
    assert_eq!(c.admits, 2);
    assert_eq!(c.completes, 0);
    assert_eq!(c.kills, 2);
    assert_eq!(out.admits.len(), 2);
    assert!(out.admits.iter().all(|a| a.ok && a.gpu_ids.len() == 2));
}

#[test]
fn run_horizon_kills_live_jobs() {
    // The horizon comes before the first step ends: the job is killed.
    let out = run_with(vec![tiny2(7)], 500_000_000, vec![], Policy::Naive, false);
    let c = out.report.counts;
    assert_eq!(c.arrivals, 1);
    assert_eq!(c.admits, 1);
    assert_eq!(c.kills, 1);
    assert_eq!(c.completes, 0);
    assert_eq!(out.report.jobs[0].decision, "kill");
    assert_eq!(out.traces.jobs.len(), 1);
    assert_eq!(out.traces.jobs[0].decision, "kill");
}

#[test]
fn run_rejects_when_no_gpus() {
    let mut big = tiny2(1);
    big.gpu_count = 1024;
    big.dp = 1024;
    let out = run_with(vec![big], 1_000_000_000, vec![], Policy::Naive, false);
    let c = out.report.counts;
    assert_eq!(c.arrivals, 1);
    assert_eq!(c.admits, 0);
    assert_eq!(c.rejects, 1);
    let by: Vec<_> = out.report.rejects_by_code.iter().filter(|(_, n)| *n > 0).collect();
    assert_eq!(by.len(), 1);
    assert_eq!(by[0].0, "NoFreeGpus");
    assert!(!out.admits[0].ok);
}

#[test]
fn run_refuses_bad_shape() {
    let mut bad = tiny2(1);
    bad.dp = 3;
    let cfg = RunConfig {
        graph: n64(),
        mix: Mix { seed: 1, horizon_ps: 1_000, jobs: vec![bad] },
        policy: Policy::Naive,
        seed: 1,
        strict: false,
        mix_hash: String::new(),
        topo_hash: String::new(),
        fails: vec![],
    };
    assert!(run_sim(cfg).is_err());
}

#[test]
fn moved_bytes_cut_at_size() {
    // 1 GB/s for 1 ms moves 1 MB; a smaller flow is capped at its size.
    assert_eq!(moved_bytes(1_000_000_000, 10_000_000, 0, 1_000_000_000), 1_000_000);
    assert_eq!(moved_bytes(1_000_000_000, 500, 0, 1_000_000_000), 500);
    assert_eq!(moved_bytes(1_000_000_000, 500, 10, 5), 0);
}

#[test]
fn run_counters_match_rollup() {
    let out = run_with(vec![span16(1), tiny2(2), tiny2(3)], 5_000_000_000, vec![], Policy::Naive, false);
    let c = out.report.counts;
    let live = LiveCounters { arrivals: c.arrivals, admits: c.admits, rejects: c.rejects, kills: c.kills, completes: c.completes };
    let log = out.traces.rollup();
    assert!(i6_holds(&live, &log));
    assert_eq!(log.arrivals, 3);
}

fn small_cfg() -> RunConfig {
    RunConfig {
        graph: n64(),
        mix: Mix { seed: 1, horizon_ps: 50_000_000_000, jobs: vec![tiny2(1), tiny2(2)] },
        policy: Policy::Naive,
        seed: 7,
        strict: true,
        mix_hash: "m".to_string(),
        topo_hash: "t".to_string(),
        fails: vec![],
    }
}

#[test]
fn same_inputs_give_the_same_report() {
    let a = match run_sim(small_cfg()) {
        Ok(r) => r,
        Err(e) => panic!("run: {}", e.message()),
    };
    let b = match run_sim_snapshot(small_cfg()) {
        Ok(o) => o.report,
        Err(e) => panic!("run: {}", e.message()),
    };
    assert_eq!(a.counts, b.counts);
    assert_eq!(a.metrics, b.metrics);
    assert_eq!(a.jobs.len(), b.jobs.len());
    for (x, y) in a.jobs.iter().zip(b.jobs.iter()) {
        assert_eq!(x.job_id, y.job_id);
        assert_eq!(x.decision, y.decision);
    }
    assert_eq!(a.jobs.iter().map(|r| r.job_id).collect::<Vec<u32>>(), vec![1, 2]);
    assert_eq!(a.counts.arrivals, 2);
    assert_eq!(a.counts.admits + a.counts.rejects, 2);
}

#[test]
fn only_arrivals_by_the_horizon_are_counted() {
    let mut late = tiny2(2);
    late.arrive = SimTime { ps: 80_000_000_000, seq: 0 };
    let mut cfg = small_cfg();
    cfg.mix.jobs = vec![tiny2(1), late];
    let rep = match run_sim(cfg) {
        Ok(r) => r,
        Err(e) => panic!("run: {}", e.message()),
    };
    assert_eq!(rep.counts.arrivals, 1);
    assert_eq!(rep.seed, 7);
    assert_eq!(rep.horizon_ps, 50_000_000_000);
    assert_eq!(rep.policy, "naive");
}
