use fabric_te::mix::{build_mix, check_isolated, MixError, RawJob, RawPattern};
use fabric_te::model::isolated_t_ps;
use fabric_te::types::{CollectiveKind, ProcessExit};

fn s_to_ps(s: f64) -> i128 {
    (s * 1e12).round_ties_even() as i128
}

fn job(id: u32, arrive_s: f64, gpu_count: u32, dp: u32, tp: u32, deadline_s: Option<f64>) -> RawJob {
    RawJob {
        id,
        arrive_ps: s_to_ps(arrive_s),
        gpu_count,
        dp,
        tp,
        pp: 1,
        collective: CollectiveKind::RingAllReduce,
        payload_bytes: 67_108_864,
        step_count: 1,
        compute_ps: 0,
        deadline_ps: deadline_s.map(s_to_ps),
    }
}

#[test]
fn empty_mix_loads() {
    let mix = build_mix(0, s_to_ps(1.0), Vec::new(), Vec::new()).expect("empty");
    assert_eq!(mix.horizon_ps, 1_000_000_000_000);
    assert!(mix.jobs.is_empty());
    assert_eq!(check_isolated(&mix, 256), Ok(()));
}

#[test]
fn shape_mismatch_is_exit_2() {
    let err = build_mix(0, s_to_ps(1.0), vec![job(1, 0.0, 16, 2, 2, None)], Vec::new()).expect_err("shape");
    assert_eq!(err.exit(), ProcessExit::BadInput);
    assert_eq!(err.exit() as i32, 2);
}

#[test]
fn pattern_keeps_ids_and_sorts() {
    let pattern = RawPattern {
        every_ps: s_to_ps(1.0),
        count: 2,
        start_ps: s_to_ps(0.5),
        start_id: 100,
        gpu_count: 2,
        dp: 2,
        tp: 1,
        pp: 1,
        collective: CollectiveKind::RingAllReduce,
        payload_bytes: 67_108_864,
        step_count: 1,
        compute_ps: 0,
        deadline_ps: Some(s_to_ps(0.005)),
    };
    let mix = build_mix(0, s_to_ps(10.0), vec![job(1, 2.0, 2, 2, 1, Some(0.005))], vec![pattern]).expect("pattern mix");
    let ids: Vec<u32> = mix.jobs.iter().map(|j| j.id.0).collect();
    assert_eq!(ids, vec![100, 101, 1]);
    assert_eq!(mix.jobs[0].arrive.ps, s_to_ps(0.5));
    assert_eq!(mix.jobs[0].arrive.seq, 0);
    assert_eq!(mix.jobs[1].arrive.ps, s_to_ps(1.5));
    assert_eq!(mix.jobs[2].arrive.ps, s_to_ps(2.0));
}

#[test]
fn omitted_deadline_is_twice_isolated() {
    let mix = build_mix(0, s_to_ps(1.0), vec![job(7, 0.0, 8, 8, 1, None)], Vec::new()).expect("no deadline");
    let t = isolated_t_ps(CollectiveKind::RingAllReduce, 8, 67_108_864);
    assert_eq!(mix.jobs[0].deadline_ps, 2 * t);
    assert_eq!(check_isolated(&mix, 256), Ok(()));
}

#[test]
fn isolated_slo_exit_4() {
    let mix = build_mix(0, s_to_ps(1.0), vec![job(1, 0.0, 8, 8, 1, Some(0.000001))], Vec::new()).expect("load");
    assert_eq!(check_isolated(&mix, 256), Err(ProcessExit::MixDoesNotFit));
    assert_eq!(ProcessExit::MixDoesNotFit as i32, 4);
}

#[test]
fn gpu_count_over_gtot_exit_4() {
    let mix = build_mix(0, s_to_ps(1.0), vec![job(1, 0.0, 8, 8, 1, Some(1.0))], Vec::new()).expect("load");
    assert_eq!(check_isolated(&mix, 4), Err(ProcessExit::MixDoesNotFit));
}

#[test]
fn joint_reject_slo_miss() {
    let mix = build_mix(0, s_to_ps(1.0), vec![job(1, 0.0, 8, 8, 1, Some(0.001))], Vec::new()).expect("load");
    assert_eq!(check_isolated(&mix, 512), Err(ProcessExit::MixDoesNotFit));
}

#[test]
fn mix_error_messages() {
    let e = MixError::Schema("dp*tp*pp != gpu_count".to_string());
    assert_eq!(e.message(), "error[E_SCHEMA]: dp*tp*pp != gpu_count");
    let e = MixError::Io { path: "m.toml".to_string(), message: "gone".to_string() };
    assert_eq!(e.message(), "error[E_IO]: m.toml: gone");
    assert_eq!(MixError::Parse("x".to_string()).message(), "error[E_PARSE]: x");
}
