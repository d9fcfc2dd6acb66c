use fabric_te::epoch::{i2_holds, parse_fail_spec, FailKind};
use fabric_te::fel::{Event, Fel};
use fabric_te::mix::JobSpec;
use fabric_te::naive::naive_admit;
use fabric_te::prepare::prepare;
use fabric_te::residual::Residual;
use fabric_te::table::JobTable;
use fabric_te::topo::Graph;
use fabric_te::types::{
    CollectiveKind, Endpoint, EventKind, EventPayload, GpuId, JobId, JobState, Policy, RejectCode, SimTime,
    SpineId,
};

fn n64() -> Graph {
    Graph::generate(512, 8, 1).expect("n64")
}

fn tiny2(id: u32) -> JobSpec {
    JobSpec {
        id: JobId(id),
        arrive: SimTime { ps: 0, seq: 0 },
        gpu_count: 2,
        dp: 2,
        tp: 1,
        pp: 1,
        collective: CollectiveKind::RingAllReduce,
        payload_bytes: 64,
        step_count: 4,
        compute_ps: 1_000_000_000,
        deadline_ps: 10_000_000_000,
    }
}

fn fail_ev(payload: EventPayload, seq: u64) -> Event {
    let kind = match payload {
        EventPayload::SpineFail { .. } => EventKind::SpineFail,
        EventPayload::LeafFail { .. } => EventKind::LeafFail,
        EventPayload::RailFail { .. } => EventKind::RailFail,
        EventPayload::LinkFail { .. } => EventKind::LinkFail,
        _ => EventKind::SpineFail,
    };
    Event { t: SimTime { ps: 1, seq }, kind, payload }
}

fn bytes_zero(g: &Graph) -> Vec<u64> {
    vec![0; g.links.len()]
}

#[test]
fn parse_fail_default_is_1ps() {
    let f = parse_fail_spec("spine=3").expect("parse");
    assert_eq!(f.t_ps, 1);
    assert_eq!(f.kind, FailKind::Spine(SpineId(3)));
    let f = parse_fail_spec("spine=3@1s").expect("parse");
    assert_eq!(f.t_ps, 1_000_000_000_000);
}

#[test]
fn parse_fail_errors_and_units() {
    assert_eq!(parse_fail_spec("spine3").unwrap_err(), "expected kind=id, got spine3");
    assert_eq!(parse_fail_spec("spine=x").unwrap_err(), "bad fail id x");
    assert_eq!(parse_fail_spec("rail=300").unwrap_err(), "bad fail id 300");
    assert_eq!(parse_fail_spec("node=1").unwrap_err(), "unknown fail kind node");
    assert_eq!(parse_fail_spec("leaf=2@15ms").unwrap().t_ps, 15_000_000_000);
    assert_eq!(parse_fail_spec("link=7@3us").unwrap().t_ps, 3_000_000);
    assert!(parse_fail_spec("link=7@3xs").is_err());
}

#[test]
fn fail_leaf_kills_single_homed() {
    let graph = n64();
    let mut residual = Residual::new(&graph);
    let mut table = JobTable::new();
    let mut fel = Fel::new();
    naive_admit(&tiny2(1), &graph, &mut residual, &mut table, &mut fel).expect("j1");
    naive_admit(&tiny2(2), &graph, &mut residual, &mut table, &mut fel).expect("j2");
    let g1 = table.by_id.get(&1).unwrap().binding.as_ref().unwrap().map[0].1;
    let leaf = graph.leaf_of(g1).expect("leaf");
    let j2_gpus: Vec<GpuId> = table.by_id.get(&2).unwrap().binding.as_ref().unwrap().map.iter().map(|(_, g)| *g).collect();
    assert!(j2_gpus.iter().all(|&g| graph.leaf_of(g) != Some(leaf)));

    let ev = fail_ev(EventPayload::LeafFail { leaf }, 0);
    let plan = prepare(&graph, &residual, &table, &[ev], Policy::Naive, false, &bytes_zero(&graph)).expect("prepare");
    assert!(plan.kills.contains(&JobId(1)), "owner killed {:?}", plan.kills);
    assert!(!plan.kills.contains(&JobId(2)), "other job untouched kills={:?}", plan.kills);
    assert!(!plan.reroutes.iter().any(|r| r.job == JobId(2)));
}

#[test]
fn prepare_spine_failure_marks_links_dead() {
    let graph = n64();
    let mut residual = Residual::new(&graph);
    let mut table = JobTable::new();
    let mut fel = Fel::new();
    naive_admit(&tiny2(1), &graph, &mut residual, &mut table, &mut fel).expect("j1");
    let bytes = vec![99u64; graph.links.len()];
    let ev = fail_ev(EventPayload::SpineFail { spine: SpineId(3) }, 0);
    let plan = prepare(&graph, &residual, &table, &[ev], Policy::Naive, false, &bytes).expect("prepare");
    assert_eq!(plan.from.0, 0);
    assert_eq!(plan.to.0, 1);
    assert!(plan.graph.spines[3].failed);
    assert!(i2_holds(&plan.graph, &vec![0; plan.graph.links.len()]));
    for l in &plan.graph.links {
        assert_eq!(l.bytes_this_epoch, 0);
        if matches!(l.src, Endpoint::Spine(SpineId(3))) || matches!(l.dst, Endpoint::Spine(SpineId(3))) {
            assert!(l.failed);
            assert_eq!(l.capacity_Bps, 0);
        }
    }
    // A spine failure sends every live job to be rerouted or killed; the
    // two-GPU job shares one node and needs no fabric route.
    assert_eq!(plan.kills.len() + plan.reroutes.len(), 1);
    assert_eq!(table.by_id.get(&1).unwrap().state, JobState::Computing);
}

#[test]
fn prepare_strict_refuses_bytes_on_failed_link() {
    let mut graph = n64();
    graph.links[0].failed = true;
    graph.links[0].capacity_Bps = 0;
    let residual = Residual::new(&graph);
    let table = JobTable::new();
    let mut bytes = bytes_zero(&graph);
    bytes[0] = 5;
    let ev = fail_ev(EventPayload::SpineFail { spine: SpineId(0) }, 0);
    let r = prepare(&graph, &residual, &table, &[ev], Policy::Naive, true, &bytes);
    assert!(matches!(r, Err(RejectCode::EpochPrepareFailed)));
    let r = prepare(&graph, &residual, &table, &[ev], Policy::Naive, false, &bytes);
    assert!(r.is_ok());
}

// A forty-GPU ring. Under first-route placement its five cross-node
// transfers of each phase share one spine path, which predicts about 13 ms
// per step, so the deadline here is 20 ms (the joint controller, which
// spreads them, met 10 ms).
fn ring40() -> JobSpec {
    JobSpec {
        id: JobId(1),
        arrive: SimTime { ps: 0, seq: 0 },
        gpu_count: 40,
        dp: 40,
        tp: 1,
        pp: 1,
        collective: CollectiveKind::RingAllReduce,
        payload_bytes: 67_108_864,
        step_count: 20,
        compute_ps: 10_000_000_000,
        deadline_ps: 20_000_000_000,
    }
}

#[test]
fn fail_spine_reroute_or_kill() {
    let graph = n64();
    let mut residual = Residual::new(&graph);
    let mut table = JobTable::new();
    let mut fel = Fel::new();
    naive_admit(&ring40(), &graph, &mut residual, &mut table, &mut fel).expect("admit");
    assert_eq!(table.by_id.get(&1).unwrap().state, JobState::Computing);

    let one = fail_ev(EventPayload::SpineFail { spine: SpineId(3) }, 0);
    let plan = prepare(&graph, &residual, &table, &[one], Policy::Naive, false, &bytes_zero(&graph)).expect("prepare");
    assert!(
        plan.reroutes.iter().any(|r| r.job == JobId(1)),
        "path exists and T≤D_j ⇒ reroute; kills={:?} reroutes={:?}",
        plan.kills,
        plan.reroutes.iter().map(|r| r.job.0).collect::<Vec<_>>()
    );
    assert!(plan.kills.is_empty());
    assert_eq!(plan.to.0, 1);
    assert!(plan.graph.spines[3].failed);
    assert!(plan
        .graph
        .links
        .iter()
        .filter(|l| matches!(l.src, Endpoint::Spine(SpineId(3))) || matches!(l.dst, Endpoint::Spine(SpineId(3))))
        .all(|l| l.failed && l.capacity_Bps == 0 && l.bytes_this_epoch == 0));

    let all: Vec<Event> = (0..8).map(|i| fail_ev(EventPayload::SpineFail { spine: SpineId(i) }, i as u64)).collect();
    let plan = prepare(&graph, &residual, &table, &all, Policy::Naive, false, &bytes_zero(&graph)).expect("prepare all");
    assert!(
        plan.kills.contains(&JobId(1)),
        "no remaining path ⇒ kill; reroutes={:?}",
        plan.reroutes.iter().map(|r| r.job.0).collect::<Vec<_>>()
    );
    assert!(plan.reroutes.is_empty());
}

#[test]
fn fail_dead_zero_bytes() {
    let graph = n64();
    let mut residual = Residual::new(&graph);
    let mut table = JobTable::new();
    let mut fel = Fel::new();
    naive_admit(&ring40(), &graph, &mut residual, &mut table, &mut fel).expect("admit");
    let mut bytes = vec![99u64; graph.links.len()];
    let ev = fail_ev(EventPayload::SpineFail { spine: SpineId(3) }, 0);
    let plan = prepare(&graph, &residual, &table, &[ev], Policy::Naive, false, &bytes).expect("prepare");
    assert!(i2_holds(&plan.graph, &vec![0; plan.graph.links.len()]));
    for l in &plan.graph.links {
        if matches!(l.src, Endpoint::Spine(SpineId(3))) || matches!(l.dst, Endpoint::Spine(SpineId(3))) {
            assert!(l.failed);
            assert_eq!(l.capacity_Bps, 0);
            assert_eq!(l.bytes_this_epoch, 0);
        }
    }
    for (i, l) in plan.graph.links.iter().enumerate() {
        if l.failed {
            bytes[i] = 0;
        }
    }
    assert!(i2_holds(&plan.graph, &bytes));
}
