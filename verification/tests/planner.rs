use fabric_te::kernel::RunError;
use fabric_te::mix::{JobSpec, Mix};
use fabric_te::plan::{
    delayed_rows, fully_admits, gpus_removed, jobs_admitted, jobs_rejected, nodes_removed, parse_delta, row_letter,
    spines_after_percent, Delta, PlanError,
};
use fabric_te::topo::Graph;
use fabric_te::report::{JobRow, Report, TopoSummary};
use fabric_te::types::{CollectiveKind, JobId, Policy, ProcessExit, SimTime};

#[test]
fn parse_delta_grammar() {
    assert_eq!(parse_delta("delay-row=B").unwrap(), Delta::DelayRow(1));
    assert_eq!(parse_delta("spines=3").unwrap(), Delta::Spines(3));
    assert_eq!(parse_delta("spines=-25%").unwrap(), Delta::SpinesPercent(25));
    assert_eq!(parse_delta("oversub=2").unwrap(), Delta::Oversub(2));
    assert!(parse_delta("nope=1").is_err());
    assert!(parse_delta("oversub=3").is_err());
}

#[test]
fn parse_delta_messages() {
    assert_eq!(parse_delta("delay-row=b").unwrap(), Delta::DelayRow(1));
    assert_eq!(parse_delta("spines").unwrap_err(), "expected key=value, got spines");
    assert_eq!(parse_delta("delay-row=BB").unwrap_err(), "bad delay-row BB");
    assert_eq!(parse_delta("spines=-101%").unwrap_err(), "bad spines percent -101%");
    assert_eq!(parse_delta("spines=x").unwrap_err(), "bad spines x");
    assert_eq!(parse_delta("oversub=3").unwrap_err(), "oversub must be one of [1, 2, 4, 8, 16, 32], got 3");
    assert_eq!(parse_delta("nope=1").unwrap_err(), "unknown delta nope=1");
}

#[test]
fn plan_error_codes() {
    let e = PlanError::Delta("bad".to_string());
    assert_eq!(e.exit(), ProcessExit::BadInput);
    assert_eq!(e.e_code(), "E_FAILSPEC");
    assert_eq!(e.message(), "error[E_FAILSPEC]: bad");
    let e = PlanError::Run(RunError::Inv("I3".to_string()));
    assert_eq!(e.exit(), ProcessExit::InvariantFail);
    assert_eq!(e.e_code(), "E_INV");
    assert_eq!(e.message(), "error[E_INV]: I3");
    assert_eq!(RunError::Io("x".to_string()).exit(), ProcessExit::IoAbort);
    assert_eq!(RunError::Usage("x".to_string()).e_code(), "E_USAGE");
}

#[test]
fn row_letters_and_spine_percent() {
    assert_eq!(row_letter(0), "A");
    assert_eq!(row_letter(1), "B");
    assert_eq!(row_letter(25), "Z");
    assert_eq!(row_letter(26), "R26");
    assert_eq!(spines_after_percent(4, 25), 3);
    assert_eq!(spines_after_percent(8, 30), 6);
    assert_eq!(spines_after_percent(8, 100), 0);
}

fn job(id: u32) -> JobSpec {
    JobSpec {
        id: JobId(id),
        arrive: SimTime { ps: 0, seq: 0 },
        gpu_count: 8,
        dp: 8,
        tp: 1,
        pp: 1,
        collective: CollectiveKind::RingAllReduce,
        payload_bytes: 64,
        step_count: 2,
        compute_ps: 1_000_000_000,
        deadline_ps: 10_000_000_000,
    }
}

fn topo() -> TopoSummary {
    TopoSummary { gpus: 256, N: 32, L: 8, S: 4, E_host: 256, E_ls: 256, B_bisect_gbps: 51_200 }
}

#[test]
fn fully_admits_needs_every_mix_job() {
    let mix = Mix { seed: 1, horizon_ps: 1, jobs: vec![job(1), job(2)] };
    let mut report = Report::new(1, Policy::Joint, topo());
    report.jobs.push(JobRow { job_id: 1, decision: "admit".to_string(), steps_done: 2, t_pred_ps: 0, reject: None });
    assert!(!fully_admits(&report, &mix));
    report.jobs.push(JobRow {
        job_id: 2,
        decision: "reject".to_string(),
        steps_done: 0,
        t_pred_ps: 0,
        reject: Some("SloMiss".to_string()),
    });
    assert!(!fully_admits(&report, &mix));
    report.jobs[1].decision = "admit".to_string();
    assert!(fully_admits(&report, &mix));
}

#[test]
fn plan_job_lists() {
    let mut j2 = job(2);
    j2.deadline_ps = 77;
    let mix = Mix { seed: 1, horizon_ps: 1, jobs: vec![job(1), j2] };
    let mut report = Report::new(1, Policy::Joint, topo());
    report.jobs.push(JobRow { job_id: 1, decision: "admit".to_string(), steps_done: 2, t_pred_ps: 5, reject: None });
    report.jobs.push(JobRow {
        job_id: 2,
        decision: "reject".to_string(),
        steps_done: 0,
        t_pred_ps: 9,
        reject: Some("SloMiss".to_string()),
    });
    report.jobs.push(JobRow { job_id: 3, decision: "reject".to_string(), steps_done: 0, t_pred_ps: 1, reject: None });
    assert_eq!(jobs_admitted(&report), vec![1]);
    let rej = jobs_rejected(&report, &mix);
    assert_eq!(rej.len(), 2);
    assert_eq!((rej[0].id, rej[0].code.as_str(), rej[0].T_pred_ps, rej[0].D_j_ps), (2, "SloMiss", 9, 77));
    assert_eq!((rej[1].id, rej[1].code.as_str(), rej[1].D_j_ps), (3, "", 0));
}

#[test]
fn delayed_rows_once_each() {
    let ds = vec![Delta::DelayRow(1), Delta::Spines(3), Delta::DelayRow(0), Delta::DelayRow(1)];
    assert_eq!(delayed_rows(&ds), vec![1, 0]);
    assert!(delayed_rows(&vec![Delta::Oversub(2)]).is_empty());
}

#[test]
fn full_fabric_removes_nothing() {
    let g = Graph::generate(256, 8, 1).expect("n32");
    assert!(nodes_removed(&g).is_empty());
    assert_eq!(gpus_removed(&g), 0);
}
