use fabric_te::model::{pairwise_alltoall_ps, ring_allreduce_ps};
use fabric_te::types::{ps_to_us, EventKind, ProcessExit};

const M_64_MIB: u64 = 67_108_864;
const B_50: u64 = 50_000_000_000;
const B_47_5: u64 = 47_500_000_000;

/// Seconds to picoseconds, ties to even (test-side reference).
fn s_to_ps(s: f64) -> i128 {
    (s * 1e12).round_ties_even() as i128
}

fn exhaustive_kind_count(k: EventKind) -> usize {
    match k {
        EventKind::JobArrive
        | EventKind::StepBoundary
        | EventKind::CollectiveStart
        | EventKind::CollectiveEnd
        | EventKind::FlowArrive
        | EventKind::FlowDepart
        | EventKind::RateRecompute
        | EventKind::LinkFail
        | EventKind::LeafFail
        | EventKind::RailFail
        | EventKind::SpineFail
        | EventKind::DrainComplete
        | EventKind::EpochAdvance
        | EventKind::HorizonCut => EventKind::COUNT,
    }
}

#[test]
fn event_kind_closed_set_is_14() {
    let n = exhaustive_kind_count(EventKind::JobArrive);
    assert_eq!(n, EventKind::COUNT);
    assert_eq!(n, 14);
}

#[test]
fn process_exit_codes_match_spec() {
    assert_eq!(ProcessExit::Success as i32, 0);
    assert_eq!(ProcessExit::Usage as i32, 1);
    assert_eq!(ProcessExit::BadInput as i32, 2);
    assert_eq!(ProcessExit::InvariantFail as i32, 3);
    assert_eq!(ProcessExit::MixDoesNotFit as i32, 4);
    assert_eq!(ProcessExit::IoAbort as i32, 5);
    assert_eq!(ProcessExit::IoAbort.code(), 5);
    assert_eq!(ProcessExit::Success.code(), 0);
}

#[test]
fn model_ring_8x64mib() {
    assert_eq!(ring_allreduce_ps(8, M_64_MIB, B_50), 2_362_810_240);
}

#[test]
fn model_ring_16x64mib() {
    assert_eq!(ring_allreduce_ps(16, M_64_MIB, B_50), 2_546_582_400);
}

#[test]
fn model_a2a_8x64mib() {
    assert_eq!(pairwise_alltoall_ps(8, M_64_MIB, B_50), 1_181_405_120);
}

#[test]
fn model_ring_8x64mib_47_5() {
    let t = ring_allreduce_ps(8, M_64_MIB, B_47_5);
    assert!((t - 2_486_431_832).abs() <= 1, "got {t}, expected 2_486_431_832 ±1");
}

#[test]
fn model_us_is_ps_div_1e6() {
    assert_eq!(ps_to_us(1_000_000_000_000), 1_000_000);
    assert_ne!(1_000_000_000_000i128 / 1000, 1_000_000);
}

#[test]
fn model_units_bytes_not_bits() {
    let golden = ring_allreduce_ps(8, M_64_MIB, B_50);
    let wrong = ring_allreduce_ps(8, M_64_MIB, 400_000_000_000);
    assert_ne!(wrong, golden);
    let alpha_ps = s_to_ps(14e-6);
    let bw_right = golden - alpha_ps;
    let bw_wrong = wrong - alpha_ps;
    let ratio = bw_right as f64 / bw_wrong as f64;
    assert!((ratio - 8.0).abs() < 1e-6, "ratio={ratio}");
}

/// Phase sum when every phase has the same B_eff.
fn phase_sum_ps(p: u32, payload_bytes: u64, b_eff: f64, n_phases: u32) -> i128 {
    if p < 2 {
        return 0;
    }
    let chunk = (payload_bytes as f64) / f64::from(p);
    let d = 1e-6 + chunk / b_eff;
    s_to_ps(f64::from(n_phases) * d)
}

#[test]
fn model_phase_sum_eq_closed() {
    let closed_ring = ring_allreduce_ps(8, M_64_MIB, B_50);
    let sum_ring = phase_sum_ps(8, M_64_MIB, B_50 as f64, 2 * (8 - 1));
    assert!((sum_ring - closed_ring).abs() <= 1);
    let closed_a2a = pairwise_alltoall_ps(8, M_64_MIB, B_50);
    let sum_a2a = phase_sum_ps(8, M_64_MIB, B_50 as f64, 8 - 1);
    assert!((sum_a2a - closed_a2a).abs() <= 1);
}

#[test]
fn model_p1_zero() {
    assert_eq!(ring_allreduce_ps(1, M_64_MIB, B_50), 0);
    assert_eq!(pairwise_alltoall_ps(1, M_64_MIB, B_50), 0);
    assert_eq!(ring_allreduce_ps(0, M_64_MIB, B_50), 0);
}

#[test]
fn odd_ring_last_hop() {
    let beta = 1.0 / (B_50 as f64);
    let expect = s_to_ps(4.0 * 1e-6 + (4.0 / 3.0) * beta * (M_64_MIB as f64));
    assert_eq!(ring_allreduce_ps(3, M_64_MIB, B_50), expect);
    let p2 = ring_allreduce_ps(2, M_64_MIB, B_50);
    assert_ne!(ring_allreduce_ps(3, M_64_MIB, B_50), p2);
}

#[test]
fn kind_matches_its_payload() {
    let arrive = fabric_te::types::EventPayload::JobArrive { job: fabric_te::types::JobId(1) };
    assert!(fabric_te::types::EventKind::JobArrive.matches_payload(&arrive));
    assert!(!fabric_te::types::EventKind::HorizonCut.matches_payload(&arrive));
    assert!(fabric_te::types::EventKind::HorizonCut.matches_payload(&fabric_te::types::EventPayload::HorizonCut));
}

#[test]
fn ps_to_us_rounds_down_below_zero() {
    assert_eq!(ps_to_us(-1), -1);
    assert_eq!(ps_to_us(-1_000_000), -1);
    assert_eq!(ps_to_us(-1_000_001), -2);
    assert_eq!(ps_to_us(999_999), 0);
    assert_eq!(ps_to_us(0), 0);
}
