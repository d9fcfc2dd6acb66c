//! The event loop's decisions: what each event does to the run's state and
//! what it schedules next. The loop itself, and the traces it writes, are
//! driven from outside.
use vstd::prelude::*;

use crate::arith::{clamp_i128, sat_add_i128, sat_mul_i128};
use crate::mix::JobSpec;
use crate::model::PS_PER_S;
use crate::topo::{Graph, Link};
use crate::prepare::{in_admit_order, live_ids, live_in, Reroute};
use crate::report::JobRow as ReportRow;
use crate::residual::Residual;
use crate::schedule::LiveFlow;
use crate::paths::Path;
use std::collections::BTreeMap;
use crate::table::{map_keys, sorted_map_keys, Flow, JobRec, JobTable};
use crate::text::{decimal, spec_decimal};
use crate::types::{spec_reject_name, BindingKind, JobId, JobState, LinkId, ProcessExit};

verus! {

broadcast use vstd::std_specs::btree::group_btree_axioms, vstd::laws_cmp::group_laws_cmp;

/// Why a run stopped early.
#[derive(Clone, Debug)]
pub enum RunError {
    Usage(String),
    Io(String),
    Inv(String),
}

/// The exit status of a run error.
pub open spec fn spec_run_exit(e: RunError) -> ProcessExit {
    match e {
        RunError::Usage(_) => ProcessExit::Usage,
        RunError::Io(_) => ProcessExit::IoAbort,
        RunError::Inv(_) => ProcessExit::InvariantFail,
    }
}

/// The error code of a run error.
pub open spec fn spec_run_code(e: RunError) -> Seq<char> {
    match e {
        RunError::Usage(_) => "E_USAGE"@,
        RunError::Io(_) => "E_IO"@,
        RunError::Inv(_) => "E_INV"@,
    }
}

/// The message of a run error: `error[<code>]: <message>`.
pub open spec fn spec_run_message(e: RunError) -> Seq<char> {
    let m = match e {
        RunError::Usage(m) => m@,
        RunError::Io(m) => m@,
        RunError::Inv(m) => m@,
    };
    "error["@ + spec_run_code(e) + "]: "@ + m
}

impl RunError {
    pub fn exit(&self) -> (r: ProcessExit)
        ensures
            r == spec_run_exit(*self),
    {
        match self {
            RunError::Usage(_) => ProcessExit::Usage,
            RunError::Io(_) => ProcessExit::IoAbort,
            RunError::Inv(_) => ProcessExit::InvariantFail,
        }
    }

    pub fn e_code(&self) -> (r: &'static str)
        ensures
            r@ == spec_run_code(*self),
    {
        match self {
            RunError::Usage(_) => "E_USAGE",
            RunError::Io(_) => "E_IO",
            RunError::Inv(_) => "E_INV",
        }
    }

    /// The message printed for the error.
    pub fn message(&self) -> (r: String)
        ensures
            r@ == spec_run_message(*self),
    {
        let m = match self {
            RunError::Usage(m) => m,
            RunError::Io(m) => m,
            RunError::Inv(m) => m,
        };
        String::from_str("error[").concat(self.e_code()).concat("]: ").concat(m.as_str())
    }
}

/// How the admission log names a binding kind.
pub open spec fn spec_kind_label(k: BindingKind) -> Seq<char> {
    match k {
        BindingKind::NaiveFirstFit => "NaiveFirstFit"@,
        BindingKind::FirstFitShift { skip_free_gpus } => "FirstFitShift{"@ + spec_decimal(skip_free_gpus as nat)
            + "}"@,
        BindingKind::RailRotate { start_rail } => "RailRotate{"@ + spec_decimal(start_rail as nat) + "}"@,
    }
}

/// The admission log's name of a binding kind, with its parameter in braces.
pub fn binding_kind_label(k: BindingKind) -> (r: String)
    ensures
        r@ == spec_kind_label(k),
{
    match k {
        BindingKind::NaiveFirstFit => String::from_str("NaiveFirstFit"),
        BindingKind::FirstFitShift { skip_free_gpus } => {
            let d = decimal(skip_free_gpus as u128);
            String::from_str("FirstFitShift{").concat(d.as_str()).concat("}")
        },
        BindingKind::RailRotate { start_rail } => {
            let d = decimal(start_rail as u128);
            String::from_str("RailRotate{").concat(d.as_str()).concat("}")
        },
    }
}

/// A time for the admission log: nothing for a time that never comes
/// (`i128::MAX`), else its low 64 bits.
pub fn ps_or_none(t: i128) -> (r: Option<i64>)
    ensures
        r == if t == i128::MAX {
            None
        } else {
            Some(t as i64)
        },
{
    if t == i128::MAX {
        None
    } else {
        Some(#[verifier::truncate] (t as i64))
    }
}

/// The smallest positive planned rate, zero when there is none.
pub open spec fn min_positive(s: Seq<Flow>) -> u64
    decreases s.len(),
{
    if s.len() == 0 {
        0
    } else {
        let rest = min_positive(s.drop_last());
        let x = s.last().rate_Bps;
        if x == 0 {
            rest
        } else if rest == 0 || x < rest {
            x
        } else {
            rest
        }
    }
}

/// The bottleneck the admission log reports: the smallest positive planned
/// rate, zero when no flow has a rate.
pub fn admit_b_eff(planned: &Vec<Flow>) -> (r: u64)
    ensures
        r == min_positive(planned@),
{
    let mut best: u64 = 0;
    let mut i: usize = 0;
    while i < planned.len()
        invariant
            i <= planned@.len(),
            best == min_positive(planned@.take(i as int)),
        decreases planned@.len() - i,
    {
        let x = planned[i].rate_Bps;
        assert(planned@.take(i + 1).drop_last() =~= planned@.take(i as int));
        if x != 0 && (best == 0 || x < best) {
            best = x;
        }
        i = i + 1;
    }
    assert(planned@.take(planned@.len() as int) =~= planned@);
    best
}

/// A job's time budget: arrival plus, per step, its compute time and its
/// deadline (saturating).
pub open spec fn spec_step_budget(job: JobSpec) -> i128 {
    clamp_i128(job.arrive.ps + clamp_i128(job.step_count * clamp_i128(job.compute_ps + job.deadline_ps)))
}

pub fn step_budget(job: &JobSpec) -> (r: i128)
    ensures
        r == spec_step_budget(*job),
{
    let per = sat_add_i128(job.compute_ps, job.deadline_ps);
    let all = sat_mul_i128(job.step_count as i128, per);
    sat_add_i128(job.arrive.ps, all)
}

/// Sum of the per-link utilisation terms `rate_dt * 10^6 / capacity` over
/// links with capacity (each term and the sum saturating).
pub open spec fn util_sum(rate_dt: Seq<i128>, caps: Seq<u64>) -> i128
    decreases rate_dt.len(),
{
    if rate_dt.len() == 0 || caps.len() < rate_dt.len() {
        0
    } else {
        let n = rate_dt.len() - 1;
        let rest = util_sum(rate_dt.drop_last(), caps);
        if caps[n] > 0 {
            clamp_i128(rest + (clamp_i128(rate_dt[n] * 1_000_000) as int) / (caps[n] as int))
        } else {
            rest
        }
    }
}

/// Mean link utilisation in ppm over the horizon: the summed utilisation
/// divided by links times horizon; zero with no links or no horizon.
pub fn mean_util_ppm(rate_dt: &Vec<i128>, caps: &Vec<u64>, horizon_ps: i128) -> (r: i128)
    requires
        rate_dt@.len() == caps@.len(),
        forall|i: int| 0 <= i < rate_dt@.len() ==> rate_dt@[i] >= 0,
        horizon_ps >= 0,
        rate_dt@.len() * horizon_ps <= i128::MAX,
    ensures
        r == if rate_dt@.len() == 0 || horizon_ps == 0 {
            0
        } else {
            (util_sum(rate_dt@, caps@) as int) / (rate_dt@.len() * horizon_ps)
        },
{
    let mut acc: i128 = 0;
    let mut i: usize = 0;
    while i < rate_dt.len()
        invariant
            i <= rate_dt@.len(),
            rate_dt@.len() == caps@.len(),
            forall|k: int| 0 <= k < rate_dt@.len() ==> rate_dt@[k] >= 0,
            acc == util_sum(rate_dt@.take(i as int), caps@),
            acc >= 0,
        decreases rate_dt@.len() - i,
    {
        assert(rate_dt@.take(i + 1).drop_last() =~= rate_dt@.take(i as int));
        let c = caps[i];
        if c > 0 {
            let t = sat_mul_i128(rate_dt[i], 1_000_000);
            let term = t / (c as i128);
            acc = sat_add_i128(acc, term);
        }
        i = i + 1;
    }
    assert(rate_dt@.take(rate_dt@.len() as int) =~= rate_dt@);
    let e = rate_dt.len() as i128;
    if e == 0 || horizon_ps == 0 {
        0
    } else {
        assert(e * horizon_ps >= 1) by (nonlinear_arith)
            requires
                e >= 1,
                horizon_ps >= 1,
        ;
        let den = (e * horizon_ps) as u128;
        let q = (acc as u128) / den;
        assert(q <= acc);
        q as i128
    }
}

/// `a * b`, or `u64::MAX`.
pub open spec fn sat_mul_u64(a: u64, b: u64) -> u64 {
    if a * b <= u64::MAX {
        (a * b) as u64
    } else {
        u64::MAX
    }
}

fn mul_sat_u64(a: u64, b: u64) -> (r: u64)
    ensures
        r == sat_mul_u64(a, b),
{
    match a.checked_mul(b) {
        Some(x) => x,
        None => u64::MAX,
    }
}

/// A link at 80% of capacity or more is a hotspot.
pub open spec fn spec_hot(c: u64, r: u64) -> bool {
    c > 0 && sat_mul_u64(r, 5) >= sat_mul_u64(c, 4)
}

/// Bytes the queue gains (or, negative, drains) over `dt` picoseconds at
/// load `r` on capacity `c`.
pub open spec fn spec_queue_delta(c: u64, r: u64, dt: i128) -> int {
    if r >= c {
        (clamp_i128((r - c) * dt) as int) / (PS_PER_S as int)
    } else {
        -((clamp_i128((c - r) * dt) as int) / (PS_PER_S as int))
    }
}

/// One link's state after an interval.
#[derive(Copy, Clone, Debug, PartialEq, Eq, Structural)]
pub struct LinkTick {
    pub hot: bool,
    pub rate_dt: i128,
    pub q_bytes: u64,
    pub overflowed: bool,
}

/// A link over `dt` picoseconds at load `r` on capacity `c`: whether it runs
/// hot, its accumulated rate-time, its queue (never negative, capped at the
/// buffer unless buffers are infinite) and whether the queue overflowed.
pub open spec fn spec_link_tick(c: u64, r: u64, q: u64, rate_dt: i128, ovf: bool, dt: i128, buf: u64, inf: bool) -> LinkTick {
    let dq = spec_queue_delta(c, r, dt);
    let q1 = q + dq;
    let q2 = if q1 < 0 {
        0
    } else if !inf && q1 > buf {
        buf as int
    } else {
        q1
    };
    LinkTick {
        hot: spec_hot(c, r),
        rate_dt: clamp_i128(rate_dt + clamp_i128(r * dt)),
        q_bytes: q2 as u64,
        overflowed: ovf || (!inf && q2 == buf && dq > 0),
    }
}

pub fn link_tick(c: u64, r: u64, q: u64, rate_dt: i128, ovf: bool, dt: i128, buf: u64, inf: bool) -> (t: LinkTick)
    requires
        dt >= 0,
    ensures
        t == spec_link_tick(c, r, q, rate_dt, ovf, dt, buf, inf),
{
    let hot = c > 0 && mul_sat_u64(r, 5) >= mul_sat_u64(c, 4);
    let rd = sat_add_i128(rate_dt, sat_mul_i128(r as i128, dt));
    let dq: i128 = if r >= c {
        let m = sat_mul_i128((r - c) as i128, dt);
        assert(m >= 0);
        m / 1_000_000_000_000
    } else {
        let m = sat_mul_i128((c - r) as i128, dt);
        assert(m >= 0);
        -(m / 1_000_000_000_000)
    };
    let q1: i128 = q as i128 + dq;
    let q2: i128 = if q1 < 0 {
        0
    } else if !inf && q1 > buf as i128 {
        buf as i128
    } else {
        q1
    };
    let ovf2 = ovf || (!inf && q2 == buf as i128 && dq > 0);
    LinkTick { hot, rate_dt: rd, q_bytes: #[verifier::truncate] (q2 as u64), overflowed: ovf2 }
}

/// Per-link queues, overflow flags and rate-time, and the hotspot time.
#[derive(Clone, Debug)]
pub struct LinkClock {
    pub q_bytes: Vec<u64>,
    pub overflowed: Vec<bool>,
    pub rate_dt: Vec<i128>,
    pub hotspot_ps: i128,
}

/// Links that run hot at the given loads.
pub open spec fn hot_count(links: Seq<Link>, load: Seq<u64>) -> nat
    decreases links.len(),
{
    if links.len() == 0 || load.len() < links.len() {
        0
    } else {
        let n = links.len() - 1;
        hot_count(links.drop_last(), load) + if spec_hot(links[n].capacity_Bps, load[n]) {
            1nat
        } else {
            0nat
        }
    }
}

/// Link `k` after an interval, from the tables as they were.
pub open spec fn tick_at(g: &Graph, load: Seq<u64>, q: Seq<u64>, rd: Seq<i128>, ovf: Seq<bool>, dt: i128, k: int) -> LinkTick {
    spec_link_tick(
        g.links@[k].capacity_Bps,
        load[k],
        q[k],
        rd[k],
        ovf[k],
        dt,
        g.params.buffer_bytes,
        g.params.buffer_infinite,
    )
}

/// Move every link forward by `dt` picoseconds at the given loads; each
/// hot link adds `dt` to the hotspot time (saturating).
pub fn advance_links(graph: &Graph, load: &Vec<u64>, clock: &mut LinkClock, dt: i128)
    requires
        dt >= 0,
        old(clock).hotspot_ps >= 0,
        load@.len() == graph.links@.len(),
        old(clock).q_bytes@.len() == graph.links@.len(),
        old(clock).overflowed@.len() == graph.links@.len(),
        old(clock).rate_dt@.len() == graph.links@.len(),
    ensures
        final(clock).q_bytes@.len() == graph.links@.len(),
        final(clock).overflowed@.len() == graph.links@.len(),
        final(clock).rate_dt@.len() == graph.links@.len(),
        forall|i: int|
            0 <= i < graph.links@.len() ==> #[trigger] final(clock).q_bytes@[i] == tick_at(
                graph,
                load@,
                old(clock).q_bytes@,
                old(clock).rate_dt@,
                old(clock).overflowed@,
                dt,
                i,
            ).q_bytes,
        forall|i: int|
            0 <= i < graph.links@.len() ==> #[trigger] final(clock).overflowed@[i] == tick_at(
                graph,
                load@,
                old(clock).q_bytes@,
                old(clock).rate_dt@,
                old(clock).overflowed@,
                dt,
                i,
            ).overflowed,
        forall|i: int|
            0 <= i < graph.links@.len() ==> #[trigger] final(clock).rate_dt@[i] == tick_at(
                graph,
                load@,
                old(clock).q_bytes@,
                old(clock).rate_dt@,
                old(clock).overflowed@,
                dt,
                i,
            ).rate_dt,
        final(clock).hotspot_ps == clamp_i128(old(clock).hotspot_ps + dt * hot_count(graph.links@, load@)),
{
    let n = graph.links.len();
    let ghost q0 = clock.q_bytes@;
    let ghost o0 = clock.overflowed@;
    let ghost r0 = clock.rate_dt@;
    let ghost h0 = clock.hotspot_ps;
    let mut i: usize = 0;
    assert(graph.links@.take(0).len() == 0);
    assert(dt * 0 == 0);
    while i < n
        invariant
            n == graph.links@.len(),
            dt >= 0,
            h0 >= 0,
            load@.len() == n,
            q0.len() == n,
            o0.len() == n,
            r0.len() == n,
            i <= n,
            clock.q_bytes@.len() == n,
            clock.overflowed@.len() == n,
            clock.rate_dt@.len() == n,
            forall|k: int| 0 <= k < i ==> #[trigger] clock.q_bytes@[k] == tick_at(graph, load@, q0, r0, o0, dt, k).q_bytes,
            forall|k: int|
                0 <= k < i ==> #[trigger] clock.overflowed@[k] == tick_at(graph, load@, q0, r0, o0, dt, k).overflowed,
            forall|k: int| 0 <= k < i ==> #[trigger] clock.rate_dt@[k] == tick_at(graph, load@, q0, r0, o0, dt, k).rate_dt,
            forall|k: int| i <= k < n ==> #[trigger] clock.q_bytes@[k] == q0[k],
            forall|k: int| i <= k < n ==> #[trigger] clock.overflowed@[k] == o0[k],
            forall|k: int| i <= k < n ==> #[trigger] clock.rate_dt@[k] == r0[k],
            clock.hotspot_ps == clamp_i128(h0 + dt * hot_count(graph.links@.take(i as int), load@)),
        decreases n - i,
    {
        let link = graph.links[i];
        let t = link_tick(
            link.capacity_Bps,
            load[i],
            clock.q_bytes[i],
            clock.rate_dt[i],
            clock.overflowed[i],
            dt,
            graph.params.buffer_bytes,
            graph.params.buffer_infinite,
        );
        assert(t == tick_at(graph, load@, q0, r0, o0, dt, i as int));
        proof {
            assert(graph.links@.take(i + 1).drop_last() =~= graph.links@.take(i as int));
            assert(graph.links@.take(i + 1)[i as int] == graph.links@[i as int]);
            assert(dt * hot_count(graph.links@.take(i as int), load@) >= 0) by (nonlinear_arith)
                requires
                    dt >= 0,
            ;
            assert(dt * (hot_count(graph.links@.take(i as int), load@) + 1) == dt * hot_count(
                graph.links@.take(i as int),
                load@,
            ) + dt) by (nonlinear_arith);
        }
        if t.hot {
            clock.hotspot_ps = sat_add_i128(clock.hotspot_ps, dt);
        }
        clock.q_bytes.set(i, t.q_bytes);
        clock.overflowed.set(i, t.overflowed);
        clock.rate_dt.set(i, t.rate_dt);
        i = i + 1;
    }
    assert(graph.links@.take(n as int) =~= graph.links@);
}

/// The record with a new state.
pub open spec fn with_state(r: JobRec, s: JobState) -> JobRec {
    JobRec { state: s, ..r }
}

/// A step boundary: a job that exists and is not killed starts collecting
/// for `step`; the answer says whether its collective should start.
pub fn begin_step(table: &mut JobTable, job: JobId, step: u32) -> (r: bool)
    ensures
        r == (old(table).by_id@.contains_key(job.0) && old(table).by_id@[job.0].state != JobState::Killed),
        r ==> final(table).by_id@ == old(table).by_id@.insert(
            job.0,
            JobRec { state: JobState::Collecting, step_index: step, ..old(table).by_id@[job.0] },
        ),
        !r ==> final(table).by_id@ == old(table).by_id@,
        final(table).occ == old(table).occ,
        final(table).next_admit_seq == old(table).next_admit_seq,
{
    let rec = match table.by_id.remove(&job.0) {
        None => return false,
        Some(x) => x,
    };
    if rec.state == JobState::Killed {
        table.by_id.insert(job.0, rec);
        assert(table.by_id@ =~= old(table).by_id@);
        return false;
    }
    let new = JobRec { state: JobState::Collecting, step_index: step, ..rec };
    table.by_id.insert(job.0, new);
    assert(table.by_id@ =~= old(table).by_id@.insert(
        job.0,
        JobRec { state: JobState::Collecting, step_index: step, ..old(table).by_id@[job.0] },
    ));
    true
}

/// What the end of a step decides.
#[derive(Copy, Clone, Debug, PartialEq, Eq, Structural)]
pub struct StepEnd {
    /// Another step follows.
    pub more: bool,
    pub compute_ps: i128,
    pub deadline_ps: i128,
}

/// The record after its step ends.
pub open spec fn after_step(r: JobRec, step: u32) -> JobRec {
    let more = r.steps_done + 1 < r.spec.step_count;
    JobRec {
        steps_done: if r.steps_done < u32::MAX {
            (r.steps_done + 1) as u32
        } else {
            u32::MAX
        },
        state: if more {
            JobState::Computing
        } else {
            JobState::Completed
        },
        step_index: if more {
            if step < u32::MAX {
                (step + 1) as u32
            } else {
                u32::MAX
            }
        } else {
            r.step_index
        },
        ..r
    }
}

/// A collective ends: a job that exists and is not killed counts the step
/// done, then computes the next step or completes.
pub fn end_step(table: &mut JobTable, job: JobId, step: u32) -> (r: Option<StepEnd>)
    ensures
        !(old(table).by_id@.contains_key(job.0) && old(table).by_id@[job.0].state != JobState::Killed) ==> r is None
            && final(table).by_id@ == old(table).by_id@,
        old(table).by_id@.contains_key(job.0) && old(table).by_id@[job.0].state != JobState::Killed ==> {
            let o = old(table).by_id@[job.0];
            &&& r == Some(
                StepEnd {
                    more: o.steps_done + 1 < o.spec.step_count,
                    compute_ps: o.spec.compute_ps,
                    deadline_ps: o.spec.deadline_ps,
                },
            )
            &&& final(table).by_id@ == old(table).by_id@.insert(job.0, after_step(o, step))
        },
        final(table).occ == old(table).occ,
        final(table).next_admit_seq == old(table).next_admit_seq,
{
    let rec = match table.by_id.remove(&job.0) {
        None => return None,
        Some(x) => x,
    };
    if rec.state == JobState::Killed {
        table.by_id.insert(job.0, rec);
        assert(table.by_id@ =~= old(table).by_id@);
        return None;
    }
    let more = (rec.steps_done as u64) + 1 < rec.spec.step_count as u64;
    let out = StepEnd { more, compute_ps: rec.spec.compute_ps, deadline_ps: rec.spec.deadline_ps };
    let done = if rec.steps_done < u32::MAX {
        rec.steps_done + 1
    } else {
        u32::MAX
    };
    let idx = if more {
        if step < u32::MAX {
            step + 1
        } else {
            u32::MAX
        }
    } else {
        rec.step_index
    };
    let st = if more {
        JobState::Computing
    } else {
        JobState::Completed
    };
    let new = JobRec { steps_done: done, state: st, step_index: idx, ..rec };
    table.by_id.insert(job.0, new);
    assert(table.by_id@ =~= old(table).by_id@.insert(job.0, after_step(old(table).by_id@[job.0], step)));
    Some(out)
}

/// The GPU ids a record's binding holds.
pub open spec fn bound_ids(r: JobRec) -> Set<u32> {
    match r.binding {
        Some(b) => Set::new(|x: u32| exists|k: int| 0 <= k < b.map@.len() && (#[trigger] b.map@[k]).1.0 == x),
        None => Set::empty(),
    }
}

/// Free the GPUs the job's binding holds.
pub fn drop_occ(table: &mut JobTable, id: JobId)
    ensures
        final(table).by_id@ == old(table).by_id@,
        final(table).next_admit_seq == old(table).next_admit_seq,
        final(table).occ.by_gpu@ == if old(table).by_id@.contains_key(id.0) {
            old(table).occ.by_gpu@.remove_keys(bound_ids(old(table).by_id@[id.0]))
        } else {
            old(table).occ.by_gpu@
        },
{
    let gpus: Vec<u32> = match table.by_id.get(&id.0) {
        Some(rec) => match &rec.binding {
            Some(b) => {
                let mut v: Vec<u32> = Vec::new();
                let mut k: usize = 0;
                while k < b.map.len()
                    invariant
                        k <= b.map@.len(),
                        v@.len() == k,
                        forall|q: int| 0 <= q < k ==> #[trigger] v@[q] == b.map@[q].1.0,
                    decreases b.map@.len() - k,
                {
                    v.push(b.map[k].1.0);
                    k = k + 1;
                }
                v
            },
            None => Vec::new(),
        },
        None => Vec::new(),
    };
    let ghost gone: Set<u32> = if old(table).by_id@.contains_key(id.0) {
        bound_ids(old(table).by_id@[id.0])
    } else {
        Set::empty()
    };
    assert forall|x: u32| gone.contains(x) <==> gpus@.contains(x) by {
        if gone.contains(x) {
            let b = old(table).by_id@[id.0].binding->0;
            let k = choose|k: int| 0 <= k < b.map@.len() && (#[trigger] b.map@[k]).1.0 == x;
            assert(gpus@[k] == x);
        }
        if gpus@.contains(x) {
            let k = choose|k: int| 0 <= k < gpus@.len() && gpus@[k] == x;
            let b = old(table).by_id@[id.0].binding->0;
            assert(b.map@[k].1.0 == x);
        }
    }
    let mut i: usize = 0;
    while i < gpus.len()
        invariant
            i <= gpus@.len(),
            table.by_id@ == old(table).by_id@,
            table.next_admit_seq == old(table).next_admit_seq,
            table.occ.by_gpu@ == old(table).occ.by_gpu@.remove_keys(gpus@.take(i as int).to_set()),
        decreases gpus@.len() - i,
    {
        table.occ.by_gpu.remove(&gpus[i]);
        proof {
            let t = gpus@.take(i as int);
            let t1 = gpus@.take(i + 1);
            assert forall|x: u32| t1.contains(x) <==> t.contains(x) || x == gpus@[i as int] by {
                if t.contains(x) {
                    let j = choose|j: int| 0 <= j < t.len() && t[j] == x;
                    assert(t1[j] == x);
                }
                if x == gpus@[i as int] {
                    assert(t1[i as int] == x);
                }
                if t1.contains(x) {
                    let j = choose|j: int| 0 <= j < t1.len() && t1[j] == x;
                    if j < i {
                        assert(t[j] == x);
                    }
                }
            }
            assert(t1.to_set() =~= t.to_set().insert(gpus@[i as int]));
            assert(table.occ.by_gpu@ =~= old(table).occ.by_gpu@.remove_keys(gpus@.take(i + 1).to_set()));
        }
        i = i + 1;
    }
    assert(gpus@.take(gpus@.len() as int) =~= gpus@);
    assert(gpus@.to_set() =~= gone);
    proof {
        if !old(table).by_id@.contains_key(id.0) {
            assert(table.occ.by_gpu@ =~= old(table).occ.by_gpu@);
        }
    }
}

/// The record with a reroute's routes and commitments.
pub open spec fn with_reroute(rec: JobRec, r: Reroute) -> JobRec {
    JobRec { paths: r.paths, planned: r.planned, cir: r.cir, t_pred_ps: r.t_pred_ps, ..rec }
}

/// The GPUs held by the jobs of `kills` that are in the table.
pub open spec fn killed_gpus(by_id: Map<u32, JobRec>, kills: Seq<JobId>) -> Set<u32> {
    Set::new(
        |x: u32|
            exists|k: int|
                0 <= k < kills.len() && by_id.contains_key((#[trigger] kills[k]).0) && bound_ids(by_id[kills[k].0]).contains(
                    x,
                ),
    )
}

/// Install a prepared epoch in the table: each killed job becomes `Killed`
/// and frees its GPUs; each rerouted job takes its new routes, flows,
/// commitments and prediction. Other records stay as they are.
pub fn commit_table(table: &mut JobTable, kills: &Vec<JobId>, reroutes: Vec<Reroute>)
    requires
        forall|a: int, b: int|
            0 <= a < b < reroutes@.len() ==> (#[trigger] reroutes@[a]).job != (#[trigger] reroutes@[b]).job,
        forall|a: int| 0 <= a < reroutes@.len() ==> !kills@.contains(#[trigger] reroutes@[a].job),
    ensures
        final(table).by_id@.dom() == old(table).by_id@.dom(),
        forall|id: u32|
            #[trigger] final(table).by_id@.contains_key(id) && kills@.contains(JobId(id)) ==> final(table).by_id@[id]
                == with_state(old(table).by_id@[id], JobState::Killed),
        forall|a: int|
            0 <= a < reroutes@.len() && old(table).by_id@.contains_key(#[trigger] reroutes@[a].job.0) ==> final(table).by_id@[reroutes@[a].job.0] == with_reroute(old(table).by_id@[reroutes@[a].job.0], reroutes@[a]),
        forall|id: u32|
            #[trigger] final(table).by_id@.contains_key(id) && !kills@.contains(JobId(id)) && !(exists|a: int|
                0 <= a < reroutes@.len() && reroutes@[a].job == JobId(id)) ==> final(table).by_id@[id] == old(table).by_id@[id],
        final(table).occ.by_gpu@ == old(table).occ.by_gpu@.remove_keys(killed_gpus(old(table).by_id@, kills@)),
        final(table).next_admit_seq == old(table).next_admit_seq,
{
    let ghost by0 = table.by_id@;
    let ghost occ0 = table.occ.by_gpu@;
    let mut i: usize = 0;
    proof {
        assert(killed_gpus(by0, kills@.take(0)) =~= Set::empty());
        assert(occ0.remove_keys(Set::empty()) =~= occ0);
    }
    while i < kills.len()
        invariant
            i <= kills@.len(),
            table.by_id@.dom() == by0.dom(),
            forall|id: u32|
                #[trigger] table.by_id@.contains_key(id) ==> table.by_id@[id] == if kills@.take(i as int).contains(
                    JobId(id),
                ) {
                    with_state(by0[id], JobState::Killed)
                } else {
                    by0[id]
                },
            table.occ.by_gpu@ == occ0.remove_keys(killed_gpus(by0, kills@.take(i as int))),
            table.next_admit_seq == old(table).next_admit_seq,
        decreases kills@.len() - i,
    {
        let id = kills[i];
        let ghost occ_before = table.occ.by_gpu@;
        let ghost by_before = table.by_id@;
        match table.by_id.remove(&id.0) {
            Some(rec) => {
                let new = JobRec { state: JobState::Killed, ..rec };
                table.by_id.insert(id.0, new);
            },
            None => {},
        }
        drop_occ(table, id);
        proof {
            let t = kills@.take(i as int);
            let t1 = kills@.take(i + 1);
            assert forall|x: JobId| t1.contains(x) <==> t.contains(x) || x == id by {
                if t.contains(x) {
                    let j = choose|j: int| 0 <= j < t.len() && t[j] == x;
                    assert(t1[j] == x);
                }
                if x == id {
                    assert(t1[i as int] == x);
                }
                if t1.contains(x) {
                    let j = choose|j: int| 0 <= j < t1.len() && t1[j] == x;
                    if j < i {
                        assert(t[j] == x);
                    }
                }
            }
            assert(table.by_id@.dom() =~= by0.dom());
            assert forall|id2: u32| #[trigger] table.by_id@.contains_key(id2) implies table.by_id@[id2] == if t1.contains(
                JobId(id2),
            ) {
                with_state(by0[id2], JobState::Killed)
            } else {
                by0[id2]
            } by {
                if id2 == id.0 {
                    assert(t1.contains(JobId(id2)));
                }
            }
            let add = if by0.contains_key(id.0) {
                bound_ids(by0[id.0])
            } else {
                Set::empty()
            };
            if by_before.contains_key(id.0) {
                assert(bound_ids(by_before[id.0]) == add);
            }
            assert forall|x: u32| killed_gpus(by0, t1).contains(x) <==> killed_gpus(by0, t).contains(x) || add.contains(
                x,
            ) by {
                if killed_gpus(by0, t1).contains(x) {
                    let k = choose|k: int|
                        0 <= k < t1.len() && by0.contains_key((#[trigger] t1[k]).0) && bound_ids(by0[t1[k].0]).contains(x);
                    if k < i {
                        assert(t[k] == t1[k]);
                    }
                }
                if killed_gpus(by0, t).contains(x) {
                    let k = choose|k: int|
                        0 <= k < t.len() && by0.contains_key((#[trigger] t[k]).0) && bound_ids(by0[t[k].0]).contains(x);
                    assert(t1[k] == t[k]);
                }
                if add.contains(x) {
                    assert(t1[i as int] == id);
                }
            }
            assert(table.occ.by_gpu@ =~= occ0.remove_keys(killed_gpus(by0, t1)));
        }
        i = i + 1;
    }
    assert(kills@.take(kills@.len() as int) =~= kills@);
    let ghost mid = table.by_id@;
    let ghost rr = reroutes@;
    let mut rs = reroutes;
    assert(rr.skip(0) =~= rr);
    let total = rs.len();
    assert(rr.len() == total);
    let mut j: usize = 0;
    while rs.len() > 0
        invariant
            j <= rr.len(),
            rr.len() <= usize::MAX,
            rs@ == rr.skip(j as int),
            rs@.len() == rr.len() - j,
            forall|a: int, b: int| 0 <= a < b < rr.len() ==> (#[trigger] rr[a]).job != (#[trigger] rr[b]).job,
            table.by_id@.dom() == mid.dom(),
            forall|id: u32|
                #[trigger] table.by_id@.contains_key(id) ==> table.by_id@[id] == if exists|a: int|
                    0 <= a < j && rr[a].job == JobId(id) {
                    with_reroute(mid[id], rr[choose|a: int| 0 <= a < j && rr[a].job == JobId(id)])
                } else {
                    mid[id]
                },
            table.occ.by_gpu@ == occ0.remove_keys(killed_gpus(by0, kills@)),
            table.next_admit_seq == old(table).next_admit_seq,
        decreases rs@.len(),
    {
        let r = rs.remove(0);
        assert(r == rr[j as int]);
        let key = r.job.0;
        let ghost before = table.by_id@;
        match table.by_id.remove(&key) {
            Some(rec) => {
                let new = JobRec { paths: r.paths, planned: r.planned, cir: r.cir, t_pred_ps: r.t_pred_ps, ..rec };
                table.by_id.insert(key, new);
            },
            None => {},
        }
        proof {
            assert(rr.skip(j + 1) =~= rr.skip(j as int).drop_first());
            assert(table.by_id@.dom() =~= mid.dom());
            assert forall|id: u32| #[trigger] table.by_id@.contains_key(id) implies table.by_id@[id] == if exists|a: int|
                0 <= a < j + 1 && rr[a].job == JobId(id) {
                with_reroute(mid[id], rr[choose|a: int| 0 <= a < j + 1 && rr[a].job == JobId(id)])
            } else {
                mid[id]
            } by {
                if id == key {
                    assert(rr[j as int].job == JobId(id));
                    let a = choose|a: int| 0 <= a < j + 1 && rr[a].job == JobId(id);
                    if a != j {
                        assert(rr[a].job != rr[j as int].job);
                    }
                    assert(!(exists|b: int| 0 <= b < j && rr[b].job == JobId(id))) by {
                        if exists|b: int| 0 <= b < j && rr[b].job == JobId(id) {
                            let b = choose|b: int| 0 <= b < j && rr[b].job == JobId(id);
                            assert(rr[b].job != rr[j as int].job);
                        }
                    }
                } else {
                    if exists|a: int| 0 <= a < j + 1 && rr[a].job == JobId(id) {
                        let a = choose|a: int| 0 <= a < j + 1 && rr[a].job == JobId(id);
                        assert(a != j);
                        assert(exists|b: int| 0 <= b < j && rr[b].job == JobId(id));
                        let b = choose|b: int| 0 <= b < j && rr[b].job == JobId(id);
                        if a != b {
                            if a < b {
                                assert(rr[a].job != rr[b].job);
                            } else {
                                assert(rr[b].job != rr[a].job);
                            }
                        }
                    }
                }
            }
        }
        j = j + 1;
    }
    proof {
        assert(rr.skip(j as int).len() == 0);
        assert forall|a: int| 0 <= a < rr.len() && old(table).by_id@.contains_key(#[trigger] rr[a].job.0) implies table.by_id@[
            rr[a].job.0] == with_reroute(old(table).by_id@[rr[a].job.0], rr[a]) by {
            let id = rr[a].job.0;
            assert(exists|b: int| 0 <= b < j && rr[b].job == JobId(id));
            let b = choose|b: int| 0 <= b < j && rr[b].job == JobId(id);
            if a != b {
                if a < b {
                    assert(rr[a].job != rr[b].job);
                } else {
                    assert(rr[b].job != rr[a].job);
                }
            }
            assert(!kills@.contains(rr[a].job));
            assert(!kills@.take(kills@.len() as int).contains(JobId(id)));
        }
    }
}

/// A job's decision as the report names it.
pub open spec fn spec_decision(s: JobState) -> Seq<char> {
    match s {
        JobState::Rejected => "reject"@,
        JobState::Killed => "kill"@,
        _ => "admit"@,
    }
}

pub fn decision_of(s: JobState) -> (r: &'static str)
    ensures
        r@ == spec_decision(s),
{
    match s {
        JobState::Rejected => "reject",
        JobState::Killed => "kill",
        _ => "admit",
    }
}

/// When the job left, zero when unknown.
pub open spec fn exit_of(exits: Map<u32, i128>, id: u32) -> i128 {
    if exits.contains_key(id) {
        exits[id]
    } else {
        0
    }
}

/// Whether every collective of the job met its deadline; yes when unknown.
pub open spec fn slo_of(slos: Map<u32, bool>, id: u32) -> bool {
    if slos.contains_key(id) {
        slos[id]
    } else {
        true
    }
}

/// Completed jobs among `ids` that left within their budget and met every
/// deadline.
pub open spec fn on_time(table: &JobTable, exits: Map<u32, i128>, slos: Map<u32, bool>, ids: Seq<u32>) -> nat
    decreases ids.len(),
{
    if ids.len() == 0 {
        0
    } else {
        let id = ids.last();
        let r = table.by_id@[id];
        on_time(table, exits, slos, ids.drop_last()) + if r.state == JobState::Completed && exit_of(exits, id)
            <= spec_step_budget(r.spec) && slo_of(slos, id) {
            1nat
        } else {
            0nat
        }
    }
}

/// Completed jobs among `ids` that missed a deadline.
pub open spec fn missed(table: &JobTable, slos: Map<u32, bool>, ids: Seq<u32>) -> nat
    decreases ids.len(),
{
    if ids.len() == 0 {
        0
    } else {
        let id = ids.last();
        let r = table.by_id@[id];
        missed(table, slos, ids.drop_last()) + if r.state == JobState::Completed && !slo_of(slos, id) {
            1nat
        } else {
            0nat
        }
    }
}

/// Marking a job's deadline missed adds one to the miss count of a list that
/// names it once when the job completed and had met its deadlines so far;
/// otherwise the count is unchanged.
pub proof fn law_missed_mark(table: &JobTable, slos: Map<u32, bool>, ids: Seq<u32>, id: u32)
    requires
        ids.no_duplicates(),
    ensures
        missed(table, slos.insert(id, false), ids) == missed(table, slos, ids) + if ids.contains(id)
            && table.by_id@[id].state == JobState::Completed && slo_of(slos, id) {
            1nat
        } else {
            0nat
        },
    decreases ids.len(),
{
    if ids.len() > 0 {
        let d = ids.drop_last();
        assert(d.no_duplicates()) by {
            assert forall|a: int, b: int| 0 <= a < d.len() && 0 <= b < d.len() && a != b implies d[a] != d[b] by {
                assert(d[a] == ids[a] && d[b] == ids[b]);
            }
        }
        law_missed_mark(table, slos, d, id);
        let last = ids.last();
        if last == id {
            assert(!d.contains(id)) by {
                if d.contains(id) {
                    let j = choose|j: int| 0 <= j < d.len() && d[j] == id;
                    assert(ids[j] == ids[ids.len() - 1]);
                }
            }
            assert(ids.contains(id)) by {
                assert(ids[ids.len() - 1] == id);
            }
        } else {
            assert(slo_of(slos.insert(id, false), last) == slo_of(slos, last));
            assert(ids.contains(id) == d.contains(id)) by {
                if ids.contains(id) {
                    let j = choose|j: int| 0 <= j < ids.len() && ids[j] == id;
                    assert(j != ids.len() - 1);
                    assert(d[j] == id);
                }
                if d.contains(id) {
                    let j = choose|j: int| 0 <= j < d.len() && d[j] == id;
                    assert(ids[j] == id);
                }
            }
        }
    }
}

proof fn lemma_counts_le(table: &JobTable, exits: Map<u32, i128>, slos: Map<u32, bool>, ids: Seq<u32>)
    ensures
        on_time(table, exits, slos, ids) <= ids.len(),
        missed(table, slos, ids) <= ids.len(),
    decreases ids.len(),
{
    if ids.len() > 0 {
        lemma_counts_le(table, exits, slos, ids.drop_last());
    }
}

/// The report's view of the jobs.
#[derive(Clone, Debug)]
pub struct JobSummary {
    pub rows: Vec<ReportRow>,
    pub completions_by_deadline: u64,
    pub slo_miss_jobs: u64,
}

/// The report's line of a record.
pub open spec fn row_of(id: u32, r: JobRec, row: ReportRow) -> bool {
    &&& row.job_id == id
    &&& row.decision@ == spec_decision(r.state)
    &&& row.steps_done == r.steps_done
    &&& row.t_pred_ps == r.t_pred_ps
    &&& match r.reject {
        Some(c) => row.reject matches Some(s) && s@ == spec_reject_name(c),
        None => row.reject is None,
    }
}

/// One report line per job in increasing id order, the completed jobs that
/// finished within their budget with every deadline met, and the completed
/// jobs that missed one.
pub fn summarize_jobs(table: &JobTable, job_exit: &BTreeMap<u32, i128>, job_slo_ok: &BTreeMap<u32, bool>) -> (r:
    JobSummary)
    ensures
        exists|ids: Seq<u32>|
            {
                &&& ids.to_set() == table.by_id@.dom()
                &&& forall|a: int, b: int| 0 <= a < b < ids.len() ==> ids[a] < ids[b]
                &&& r.rows@.len() == ids.len()
                &&& forall|k: int| 0 <= k < ids.len() ==> row_of(ids[k], table.by_id@[ids[k]], #[trigger] r.rows@[k])
                &&& r.completions_by_deadline == on_time(table, job_exit@, job_slo_ok@, ids)
                &&& r.slo_miss_jobs == missed(table, job_slo_ok@, ids)
            },
{
    let ids = sorted_map_keys(&table.by_id);
    let mut rows: Vec<ReportRow> = Vec::new();
    let mut done: u64 = 0;
    let mut miss: u64 = 0;
    let mut i: usize = 0;
    while i < ids.len()
        invariant
            i <= ids@.len(),
            ids@.to_set() == table.by_id@.dom(),
            rows@.len() == i,
            forall|k: int| 0 <= k < i ==> row_of(ids@[k], table.by_id@[ids@[k]], #[trigger] rows@[k]),
            done == on_time(table, job_exit@, job_slo_ok@, ids@.take(i as int)),
            miss == missed(table, job_slo_ok@, ids@.take(i as int)),
        decreases ids@.len() - i,
    {
        let id = ids[i];
        assert(ids@.to_set().contains(id));
        proof {
            assert(ids@.take(i + 1).drop_last() =~= ids@.take(i as int));
            lemma_counts_le(table, job_exit@, job_slo_ok@, ids@.take(i as int));
        }
        match table.by_id.get(&id) {
            Some(rec) => {
                let reject = match rec.reject {
                    Some(c) => Some(String::from_str(c.as_str())),
                    None => None,
                };
                rows.push(
                    ReportRow {
                        job_id: id,
                        decision: String::from_str(decision_of(rec.state)),
                        steps_done: rec.steps_done,
                        t_pred_ps: rec.t_pred_ps,
                        reject,
                    },
                );
                if rec.state == JobState::Completed {
                    let exit = match job_exit.get(&id) {
                        Some(x) => *x,
                        None => 0,
                    };
                    let slo = match job_slo_ok.get(&id) {
                        Some(b) => *b,
                        None => true,
                    };
                    if exit <= step_budget(&rec.spec) && slo {
                        done = done + 1;
                    }
                    if !slo {
                        miss = miss + 1;
                    }
                }
            },
            None => {},
        }
        i = i + 1;
    }
    assert(ids@.take(ids@.len() as int) =~= ids@);
    JobSummary { rows, completions_by_deadline: done, slo_miss_jobs: miss }
}

/// Committed rate released and GPUs freed when a job leaves.
pub fn release_job(table: &mut JobTable, residual: &mut Residual, graph: &Graph, id: JobId)
    requires
        old(residual).consistent(graph),
    ensures
        final(residual).consistent(graph),
        final(table).by_id@ == old(table).by_id@,
        final(table).next_admit_seq == old(table).next_admit_seq,
        final(table).occ.by_gpu@ == if old(table).by_id@.contains_key(id.0) {
            old(table).occ.by_gpu@.remove_keys(bound_ids(old(table).by_id@[id.0]))
        } else {
            old(table).occ.by_gpu@
        },
{
    match table.by_id.get(&id.0) {
        Some(rec) => {
            let keys = map_keys(&rec.cir);
            let mut k: usize = 0;
            while k < keys.len()
                invariant
                    residual.consistent(graph),
                decreases keys@.len() - k,
            {
                match rec.cir.get(&keys[k]) {
                    Some(rho) => residual.release_cir(graph, LinkId(keys[k]), *rho),
                    None => {},
                }
                k = k + 1;
            }
        },
        None => {},
    }
    drop_occ(table, id);
}

/// The live jobs in admission order.
pub fn live_in_admit_order(table: &JobTable) -> (r: Vec<u32>)
    ensures
        r@.no_duplicates(),
        in_admit_order(table, r@),
        forall|id: u32| r@.contains(id) <==> live_in(table, id),
{
    live_ids(table)
}

/// Load each link carries from the given flows: the sum of the rates of the
/// flows whose path uses it (saturating), by link index.
pub open spec fn load_of(n: nat, flows: Seq<LiveFlow>) -> Seq<u64>
    decreases flows.len(),
{
    if flows.len() == 0 {
        Seq::new(n, |i: int| 0u64)
    } else {
        add_path(load_of(n, flows.drop_last()), flows.last().path.links@, flows.last().rate_Bps)
    }
}

/// `load` with `rate` added on every link of `links` inside the table.
pub open spec fn add_path(load: Seq<u64>, links: Seq<LinkId>, rate: u64) -> Seq<u64>
    decreases links.len(),
{
    if links.len() == 0 {
        load
    } else {
        let prev = add_path(load, links.drop_last(), rate);
        let e = links.last().0 as int;
        if e < prev.len() {
            prev.update(e, sat_add_u64(prev[e], rate))
        } else {
            prev
        }
    }
}

/// `a + b`, or `u64::MAX`.
pub open spec fn sat_add_u64(a: u64, b: u64) -> u64 {
    if a + b <= u64::MAX {
        (a + b) as u64
    } else {
        u64::MAX
    }
}

proof fn lemma_add_path_len(load: Seq<u64>, links: Seq<LinkId>, rate: u64)
    ensures
        add_path(load, links, rate).len() == load.len(),
    decreases links.len(),
{
    if links.len() > 0 {
        lemma_add_path_len(load, links.drop_last(), rate);
    }
}

pub(crate) proof fn lemma_load_len(n: nat, flows: Seq<LiveFlow>)
    ensures
        load_of(n, flows).len() == n,
    decreases flows.len(),
{
    if flows.len() > 0 {
        lemma_load_len(n, flows.drop_last());
        lemma_add_path_len(load_of(n, flows.drop_last()), flows.last().path.links@, flows.last().rate_Bps);
    }
}

/// The load of the flows in flight on each of `n` links.
pub fn inflight_load(n: usize, flows: &Vec<LiveFlow>) -> (r: Vec<u64>)
    ensures
        r@ == load_of(n as nat, flows@),
{
    let mut load: Vec<u64> = Vec::new();
    let mut z: usize = 0;
    while z < n
        invariant
            z <= n,
            load@ == Seq::new(z as nat, |i: int| 0u64),
        decreases n - z,
    {
        load.push(0);
        z = z + 1;
        assert(load@ =~= Seq::new(z as nat, |i: int| 0u64));
    }
    let mut f: usize = 0;
    assert(flows@.take(0).len() == 0);
    while f < flows.len()
        invariant
            f <= flows@.len(),
            load@ == load_of(n as nat, flows@.take(f as int)),
        decreases flows@.len() - f,
    {
        let p = &flows[f].path;
        let rate = flows[f].rate_Bps;
        let ghost base = load@;
        let mut j: usize = 0;
        while j < p.links.len()
            invariant
                j <= p.links@.len(),
                load@ == add_path(base, p.links@.take(j as int), rate),
            decreases p.links@.len() - j,
        {
            proof {
                lemma_add_path_len(base, p.links@.take(j as int), rate);
                assert(p.links@.take(j + 1).drop_last() =~= p.links@.take(j as int));
            }
            let e = p.links[j].0 as usize;
            if e < load.len() {
                let v = load[e];
                let nv = if v <= u64::MAX - rate {
                    v + rate
                } else {
                    u64::MAX
                };
                load.set(e, nv);
            }
            j = j + 1;
        }
        proof {
            assert(p.links@.take(p.links@.len() as int) =~= p.links@);
            assert(flows@.take(f + 1).drop_last() =~= flows@.take(f as int));
        }
        f = f + 1;
    }
    assert(flows@.take(flows@.len() as int) =~= flows@);
    load
}

/// Load on each of `n` links from flows with these paths and rates.
pub open spec fn load_pr(n: nat, paths: Seq<Path>, rates: Seq<u64>) -> Seq<u64>
    decreases paths.len(),
{
    if paths.len() == 0 || rates.len() < paths.len() {
        Seq::new(n, |i: int| 0u64)
    } else {
        add_path(load_pr(n, paths.drop_last(), rates), paths.last().links@, rates[paths.len() - 1])
    }
}

proof fn lemma_load_pr_len(n: nat, paths: Seq<Path>, rates: Seq<u64>)
    ensures
        load_pr(n, paths, rates).len() == n,
    decreases paths.len(),
{
    if paths.len() > 0 && rates.len() >= paths.len() {
        lemma_load_pr_len(n, paths.drop_last(), rates);
        lemma_add_path_len(load_pr(n, paths.drop_last(), rates), paths.last().links@, rates[paths.len() - 1]);
    }
}

/// The load on each of `n` links of flows with these paths and rates.
pub fn path_load(n: usize, paths: &Vec<Path>, rates: &Vec<u64>) -> (r: Vec<u64>)
    requires
        rates@.len() == paths@.len(),
    ensures
        r@ == load_pr(n as nat, paths@, rates@),
{
    let mut load: Vec<u64> = Vec::new();
    let mut z: usize = 0;
    while z < n
        invariant
            z <= n,
            load@ == Seq::new(z as nat, |i: int| 0u64),
        decreases n - z,
    {
        load.push(0);
        z = z + 1;
        assert(load@ =~= Seq::new(z as nat, |i: int| 0u64));
    }
    let mut f: usize = 0;
    while f < paths.len()
        invariant
            f <= paths@.len(),
            rates@.len() == paths@.len(),
            load@ == load_pr(n as nat, paths@.take(f as int), rates@),
        decreases paths@.len() - f,
    {
        let p = &paths[f];
        let rate = rates[f];
        let ghost base = load@;
        let mut j: usize = 0;
        while j < p.links.len()
            invariant
                j <= p.links@.len(),
                load@ == add_path(base, p.links@.take(j as int), rate),
            decreases p.links@.len() - j,
        {
            proof {
                lemma_add_path_len(base, p.links@.take(j as int), rate);
                assert(p.links@.take(j + 1).drop_last() =~= p.links@.take(j as int));
            }
            let e = p.links[j].0 as usize;
            if e < load.len() {
                let v = load[e];
                let nv = if v <= u64::MAX - rate {
                    v + rate
                } else {
                    u64::MAX
                };
                load.set(e, nv);
            }
            j = j + 1;
        }
        proof {
            assert(p.links@.take(p.links@.len() as int) =~= p.links@);
            assert(paths@.take(f + 1).drop_last() =~= paths@.take(f as int));
        }
        f = f + 1;
    }
    assert(paths@.take(paths@.len() as int) =~= paths@);
    load
}

/// The path runs over link `i`.
pub open spec fn uses(p: Path, i: int) -> bool {
    exists|k: int| 0 <= k < p.links@.len() && p.links@[k].0 == i
}

fn path_uses(p: &Path, i: usize) -> (r: bool)
    ensures
        r == uses(*p, i as int),
{
    let mut k: usize = 0;
    while k < p.links.len()
        invariant
            k <= p.links@.len(),
            forall|q: int| 0 <= q < k ==> p.links@[q].0 != i,
        decreases p.links@.len() - k,
    {
        if p.links[k].0 as usize == i {
            return true;
        }
        k = k + 1;
    }
    false
}

/// A flow's rate after link `i`, of capacity `cap` carrying `ld`: a dead link
/// stops every flow on it; an overloaded one scales each flow on it by
/// `cap / ld` (rounded down).
pub open spec fn scaled_rate(p: Path, rate: u64, i: int, cap: u64, ld: u64) -> u64 {
    if !uses(p, i) {
        rate
    } else if cap == 0 {
        0
    } else if ld > cap {
        ((rate * cap) / (ld as int)) as u64
    } else {
        rate
    }
}

/// Rates after links `0..k` of one scaling round at the round's loads.
pub open spec fn round_upto(links: Seq<Link>, paths: Seq<Path>, rates: Seq<u64>, load: Seq<u64>, k: nat) -> Seq<u64>
    decreases k,
{
    if k == 0 {
        rates
    } else {
        let prev = round_upto(links, paths, rates, load, (k - 1) as nat);
        let i = k - 1;
        let cap = if links[i].failed {
            0
        } else {
            links[i].capacity_Bps
        };
        Seq::new(prev.len(), |f: int| scaled_rate(paths[f], prev[f], i, cap, load[i]))
    }
}

/// One scaling round over every link, loads taken at the round's start.
pub open spec fn scale_round(links: Seq<Link>, paths: Seq<Path>, rates: Seq<u64>) -> Seq<u64> {
    round_upto(links, paths, rates, load_pr(links.len(), paths, rates), links.len())
}

/// Up to `k` rounds, stopping at the first that changes nothing.
pub open spec fn scale_rounds(links: Seq<Link>, paths: Seq<Path>, rates: Seq<u64>, k: nat) -> Seq<u64>
    decreases k,
{
    if k == 0 {
        rates
    } else {
        let next = scale_round(links, paths, rates);
        if next == rates {
            rates
        } else {
            scale_rounds(links, paths, next, (k - 1) as nat)
        }
    }
}

proof fn lemma_round_len(links: Seq<Link>, paths: Seq<Path>, rates: Seq<u64>, load: Seq<u64>, k: nat)
    ensures
        round_upto(links, paths, rates, load, k).len() == rates.len(),
    decreases k,
{
    if k > 0 {
        lemma_round_len(links, paths, rates, load, (k - 1) as nat);
    }
}

/// Scaling keeps one rate per flow.
pub proof fn lemma_rounds_len(links: Seq<Link>, paths: Seq<Path>, rates: Seq<u64>, k: nat)
    ensures
        scale_rounds(links, paths, rates, k).len() == rates.len(),
    decreases k,
{
    if k > 0 {
        let next = scale_round(links, paths, rates);
        lemma_round_len(links, paths, rates, load_pr(links.len(), paths, rates), links.len());
        if next != rates {
            lemma_rounds_len(links, paths, next, (k - 1) as nat);
        }
    }
}

/// Rates of the flows in flight kept within capacity: up to eight rounds in
/// which a dead link stops every flow on it and an overloaded link scales
/// its flows by capacity over load.
pub fn scale_live(graph: &Graph, paths: &Vec<Path>, rates: &mut Vec<u64>)
    requires
        old(rates)@.len() == paths@.len(),
    ensures
        final(rates)@ == scale_rounds(graph.links@, paths@, old(rates)@, 8),
{
    let n = graph.links.len();
    let mut round: usize = 0;
    let ghost r0 = rates@;
    while round < 8
        invariant
            round <= 8,
            r0 == old(rates)@,
            n == graph.links@.len(),
            rates@.len() == paths@.len(),
            scale_rounds(graph.links@, paths@, r0, 8) == scale_rounds(graph.links@, paths@, rates@, (8 - round) as nat),
        decreases 8 - round,
    {
        let load = path_load(n, paths, rates);
        proof {
            lemma_load_pr_len(n as nat, paths@, rates@);
        }
        let ghost start = rates@;
        let mut changed = false;
        let mut i: usize = 0;
        while i < n
            invariant
                i <= n,
                n == graph.links@.len(),
                load@ == load_pr(n as nat, paths@, start),
                load@.len() == n,
                start.len() == paths@.len(),
                rates@ == round_upto(graph.links@, paths@, start, load@, i as nat),
                rates@.len() == start.len(),
                forall|q: int| 0 <= q < rates@.len() ==> #[trigger] rates@[q] <= start[q],
                changed == exists|q: int| 0 <= q < rates@.len() && #[trigger] rates@[q] != start[q],
            decreases n - i,
        {
            proof {
                lemma_round_len(graph.links@, paths@, start, load@, i as nat);
            }
            let link = graph.links[i];
            let cap: u64 = if link.failed {
                0
            } else {
                link.capacity_Bps
            };
            let ld = load[i];
            let ghost before = rates@;
            let mut f: usize = 0;
            while f < rates.len()
                invariant
                    f <= rates@.len(),
                    rates@.len() == before.len(),
                    before.len() == paths@.len(),
                    forall|q: int| 0 <= q < f ==> #[trigger] rates@[q] == scaled_rate(paths@[q], before[q], i as int, cap, ld),
                    forall|q: int| f <= q < rates@.len() ==> #[trigger] rates@[q] == before[q],
                    start.len() == before.len(),
                    forall|q: int| 0 <= q < before.len() ==> #[trigger] before[q] <= start[q],
                    forall|q: int| 0 <= q < rates@.len() ==> #[trigger] rates@[q] <= before[q],
                    changed == exists|q: int| 0 <= q < rates@.len() && #[trigger] rates@[q] != start[q],
                decreases rates@.len() - f,
            {
                if path_uses(&paths[f], i) {
                    let r = rates[f];
                    let nr: u64 = if cap == 0 {
                        0
                    } else if ld > cap {
                        assert((r as u128) * (cap as u128) <= u128::MAX) by (nonlinear_arith)
                            requires
                                r <= u64::MAX,
                                cap <= u64::MAX,
                        ;
                        let q = (r as u128) * (cap as u128) / (ld as u128);
                        assert(q <= r) by (nonlinear_arith)
                            requires
                                q == (r as int) * (cap as int) / (ld as int),
                                ld > cap,
                        ;
                        q as u64
                    } else {
                        r
                    };
                    if nr != r {
                        rates.set(f, nr);
                        changed = true;
                        assert(rates@[f as int] != start[f as int]);
                    }
                }
                f = f + 1;
            }
            proof {
                assert(rates@ =~= round_upto(graph.links@, paths@, start, load@, (i + 1) as nat));
            }
            i = i + 1;
        }
        proof {
            assert(scale_round(graph.links@, paths@, start) == rates@);
        }
        if !changed {
            assert(rates@ =~= start);
            assert(scale_rounds(graph.links@, paths@, start, (8 - round) as nat) == start);
            assert(scale_rounds(graph.links@, paths@, r0, 8) == rates@);
            assert(r0 == old(rates)@);
            return;
        }
        assert(rates@ != start);
        assert(scale_rounds(graph.links@, paths@, start, (8 - round) as nat) == scale_rounds(
            graph.links@,
            paths@,
            rates@,
            (8 - round - 1) as nat,
        ));
        round = round + 1;
    }
}

} // verus!
