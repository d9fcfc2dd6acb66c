//! Collective closed forms in exact integer picoseconds, and the isolated check.
//!
//! A collective of `p` ranks on bandwidth `B` bytes/s with per-hop latency
//! `alpha = 1 us` takes
//!   ring all-reduce:    `2(p-1) alpha + 2(p-1)/p * M / B`
//!   pairwise all-to-all: `(p-1) alpha + (p-1)/p * M / B`
//! seconds. The bandwidth term is an exact rational number of picoseconds,
//! rounded half to even.
use vstd::prelude::*;

use crate::types::CollectiveKind;

verus! {

/// Per-hop latency `alpha`, in picoseconds (1 us).
pub const ALPHA_PS: u64 = 1_000_000;

/// Picoseconds in a second.
pub const PS_PER_S: u64 = 1_000_000_000_000;

/// Bandwidth of the isolated check and of an omitted deadline: 47.5 GB/s
/// (the 400 Gb/s port less its 5% scratch).
pub const ISOLATED_B_EFF_BPS: u64 = 47_500_000_000;

/// `n / d` rounded to the nearest integer, ties to the even neighbour.
pub open spec fn round_half_even(n: nat, d: nat) -> nat
    recommends
        d > 0,
{
    let q = n / d;
    let r = n % d;
    if 2 * r > d {
        q + 1
    } else if 2 * r < d {
        q
    } else if q % 2 == 0 {
        q
    } else {
        q + 1
    }
}

/// Exact rounding of `n / d`, half to even.
pub fn div_round_half_even(n: u128, d: u128) -> (r: u128)
    requires
        d > 0,
    ensures
        r as nat == round_half_even(n as nat, d as nat),
{
    let q = n / d;
    let rem = n % d;
    assert(q as nat * d as nat + rem as nat == n as nat) by (nonlinear_arith)
        requires
            q == n / d,
            rem == n % d,
            d > 0,
    ;
    if rem == 0 {
        return q;
    }
    assert(q < u128::MAX) by (nonlinear_arith)
        requires
            q as nat * d as nat + rem as nat == n as nat,
            rem > 0,
            rem < d,
            n <= u128::MAX,
    ;
    if rem > d - rem {
        q + 1
    } else if rem < d - rem {
        q
    } else if q % 2 == 0 {
        q
    } else {
        q + 1
    }
}

/// Rounding a quotient never exceeds the numerator.
pub proof fn lemma_round_half_even_le(n: nat, d: nat)
    requires
        d >= 1,
    ensures
        round_half_even(n, d) <= n,
{
    let q = n / d;
    let r = n % d;
    assert(q * d + r == n) by (nonlinear_arith)
        requires
            q == n / d,
            r == n % d,
            d >= 1,
    ;
    assert(0 <= r < d);
    if d == 1 {
        assert(q == n);
        assert(r == 0);
    } else {
        assert(q * 2 <= q * d) by (nonlinear_arith)
            requires
                d >= 2,
        ;
        if n == 0 {
            assert(q == 0) by (nonlinear_arith)
                requires
                    q * d + r == 0,
                    d >= 1,
                    r >= 0,
            ;
        }
    }
}

/// Picoseconds of a collective with `hops` latency terms and a bandwidth term of
/// `hops * M / (p * B)` seconds, saturating at `i128::MAX` where the exact value
/// does not fit.
pub open spec fn spec_collective_ps(hops: nat, p: nat, m: nat, b: nat) -> int
    recommends
        p > 0,
        b > 0,
{
    let num = (hops * m * PS_PER_S) as nat;
    if num > u128::MAX {
        i128::MAX as int
    } else {
        let t = hops * ALPHA_PS + round_half_even(num, p * b);
        if t > i128::MAX {
            i128::MAX as int
        } else {
            t
        }
    }
}

/// Ring all-reduce time: `2(p-1)` hops; `p < 2` takes no time.
pub open spec fn spec_ring_allreduce_ps(p: nat, m: nat, b: nat) -> int {
    if p < 2 {
        0
    } else {
        spec_collective_ps((2 * (p - 1)) as nat, p, m, b)
    }
}

/// Pairwise all-to-all time: `p-1` hops; `p < 2` takes no time.
pub open spec fn spec_pairwise_alltoall_ps(p: nat, m: nat, b: nat) -> int {
    if p < 2 {
        0
    } else {
        spec_collective_ps((p - 1) as nat, p, m, b)
    }
}

fn collective_ps(hops: u64, p: u32, payload_bytes: u64, b_eff_bps: u64) -> (r: i128)
    requires
        p > 0,
        b_eff_bps > 0,
        hops <= 2 * (u32::MAX as u64),
    ensures
        r as int == spec_collective_ps(hops as nat, p as nat, payload_bytes as nat, b_eff_bps as nat),
{
    let a = (hops as u128).checked_mul(payload_bytes as u128);
    match a {
        None => {
            assert(hops as nat * payload_bytes as nat * PS_PER_S >= hops as nat
                * payload_bytes as nat) by (nonlinear_arith);
            i128::MAX
        },
        Some(a) => {
            match a.checked_mul(PS_PER_S as u128) {
                None => i128::MAX,
                Some(num) => {
                    assert(p as u128 * b_eff_bps as u128 <= u128::MAX) by (nonlinear_arith)
                        requires
                            p <= u32::MAX,
                            b_eff_bps <= u64::MAX,
                    ;
                    let d = (p as u128) * (b_eff_bps as u128);
                    assert(d > 0) by (nonlinear_arith)
                        requires
                            d == p as u128 * b_eff_bps as u128,
                            p > 0,
                            b_eff_bps > 0,
                    ;
                    let bw = div_round_half_even(num, d);
                    assert(hops as u128 * 1_000_000u128 <= u128::MAX) by (nonlinear_arith)
                        requires
                            hops <= 2 * (u32::MAX as u64),
                    ;
                    let lat = (hops as u128) * (ALPHA_PS as u128);
                    match bw.checked_add(lat) {
                        None => i128::MAX,
                        Some(t) => {
                            if t > i128::MAX as u128 {
                                i128::MAX
                            } else {
                                t as i128
                            }
                        },
                    }
                },
            }
        },
    }
}

/// Ring all-reduce: `T = 2(p-1) alpha + 2(p-1)/p * M / B`. `p < 2` gives 0.
pub fn ring_allreduce_ps(p: u32, payload_bytes: u64, b_eff_bps: u64) -> (r: i128)
    requires
        b_eff_bps > 0,
    ensures
        r as int == spec_ring_allreduce_ps(p as nat, payload_bytes as nat, b_eff_bps as nat),
{
    if p < 2 {
        return 0;
    }
    collective_ps(2 * ((p - 1) as u64), p, payload_bytes, b_eff_bps)
}

/// Pairwise all-to-all: `T = (p-1) alpha + (p-1)/p * M / B`. `p < 2` gives 0.
pub fn pairwise_alltoall_ps(p: u32, payload_bytes: u64, b_eff_bps: u64) -> (r: i128)
    requires
        b_eff_bps > 0,
    ensures
        r as int == spec_pairwise_alltoall_ps(p as nat, payload_bytes as nat, b_eff_bps as nat),
{
    if p < 2 {
        return 0;
    }
    collective_ps((p - 1) as u64, p, payload_bytes, b_eff_bps)
}

/// Closed form of a collective of `p` ranks on bandwidth `b`.
pub open spec fn spec_closed_form_ps(kind: CollectiveKind, p: nat, m: nat, b: nat) -> int {
    match kind {
        CollectiveKind::RingAllReduce => spec_ring_allreduce_ps(p, m, b),
        CollectiveKind::PairwiseAllToAll => spec_pairwise_alltoall_ps(p, m, b),
    }
}

/// Isolated collective time at 47.5 GB/s over the whole fabric (`p = dp`).
pub open spec fn spec_isolated_t_ps(kind: CollectiveKind, dp: nat, m: nat) -> int {
    spec_closed_form_ps(kind, dp, m, ISOLATED_B_EFF_BPS as nat)
}

pub fn isolated_t_ps(collective: CollectiveKind, dp: u32, payload_bytes: u64) -> (r: i128)
    ensures
        r as int == spec_isolated_t_ps(collective, dp as nat, payload_bytes as nat),
        dp >= 2 && collective == CollectiveKind::PairwiseAllToAll && (dp - 1) * payload_bytes * 1_000_000_000_000 <= u128::MAX
            ==> r as int == clamp_to_i128(
            (dp - 1) * 1_000_000 + round_half_even(
                ((dp - 1) * payload_bytes * 1_000_000_000_000) as nat,
                (dp * 47_500_000_000) as nat,
            ),
        ),
        dp >= 2 && collective == CollectiveKind::RingAllReduce && 2 * (dp - 1) * payload_bytes * 1_000_000_000_000
            <= u128::MAX ==> r as int == clamp_to_i128(
            2 * (dp - 1) * 1_000_000 + round_half_even(
                (2 * (dp - 1) * payload_bytes * 1_000_000_000_000) as nat,
                (dp * 47_500_000_000) as nat,
            ),
        ),
        dp < 2 ==> r == 0,
{
    proof {
        law_isolated_closed_forms(dp as nat, payload_bytes as nat);
    }
    match collective {
        CollectiveKind::RingAllReduce => ring_allreduce_ps(dp, payload_bytes, ISOLATED_B_EFF_BPS),
        CollectiveKind::PairwiseAllToAll => pairwise_alltoall_ps(
            dp,
            payload_bytes,
            ISOLATED_B_EFF_BPS,
        ),
    }
}

/// `x`, or `i128::MAX` when it is larger.
pub open spec fn clamp_to_i128(x: int) -> int {
    if x > i128::MAX {
        i128::MAX as int
    } else {
        x
    }
}

/// The isolated time of `p >= 2` ranks moving `m` bytes at 47.5 GB/s: an
/// all-to-all crosses `p - 1` hops, `(p-1) * 1 us + (p-1) * m / (p * 47.5e9)` s;
/// a ring all-reduce twice as many, `2(p-1) * 1 us + 2(p-1) * m / (p * 47.5e9)` s
/// (picoseconds, the bandwidth term rounded half to even, capped at
/// `i128::MAX`). Fewer than two ranks take no time.
pub proof fn law_isolated_closed_forms(p: nat, m: nat)
    ensures
        p >= 2 && (p - 1) * m * 1_000_000_000_000 <= u128::MAX ==> spec_isolated_t_ps(
            CollectiveKind::PairwiseAllToAll,
            p,
            m,
        ) == clamp_to_i128(
            (p - 1) * 1_000_000 + round_half_even(((p - 1) * m * 1_000_000_000_000) as nat, p * 47_500_000_000),
        ),
        p >= 2 && 2 * (p - 1) * m * 1_000_000_000_000 <= u128::MAX ==> spec_isolated_t_ps(
            CollectiveKind::RingAllReduce,
            p,
            m,
        ) == clamp_to_i128(
            2 * (p - 1) * 1_000_000 + round_half_even(((2 * (p - 1)) * m * 1_000_000_000_000) as nat, p * 47_500_000_000),
        ),
        p < 2 ==> spec_isolated_t_ps(CollectiveKind::PairwiseAllToAll, p, m) == 0 && spec_isolated_t_ps(
            CollectiveKind::RingAllReduce,
            p,
            m,
        ) == 0,
{
}

/// One phase: `alpha + chunk / B_eff`, in picoseconds rounded half to even.
/// `B_eff = 0` never finishes: `i128::MAX`.
pub open spec fn spec_phase_duration_ps(chunk: nat, b_eff: nat) -> int {
    if b_eff == 0 {
        i128::MAX as int
    } else {
        ALPHA_PS + round_half_even((chunk * PS_PER_S) as nat, b_eff)
    }
}

pub fn phase_duration_ps(chunk_bytes: u64, b_eff: u64) -> (r: i128)
    ensures
        r as int == spec_phase_duration_ps(chunk_bytes as nat, b_eff as nat),
{
    if b_eff == 0 {
        return i128::MAX;
    }
    assert(chunk_bytes as u128 * 1_000_000_000_000u128 <= 0x1_0000_0000_0000_0000_0000_0000_0000u128)
        by (nonlinear_arith)
        requires
            chunk_bytes <= u64::MAX,
    ;
    let num = (chunk_bytes as u128) * (PS_PER_S as u128);
    let bw = div_round_half_even(num, b_eff as u128);
    proof {
        lemma_round_half_even_le(num as nat, b_eff as nat);
    }
    (bw as i128) + (ALPHA_PS as i128)
}

} // verus!
