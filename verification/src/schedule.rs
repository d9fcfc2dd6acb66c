//! Timing a collective from its planned flows: phases of one communicator run
//! one after another, communicators run side by side, and every flow of a
//! phase moves at the phase's bottleneck rate.
use vstd::prelude::*;

use crate::arith::{clamp_i128, sat_add_i128};
use crate::model::{phase_duration_ps, spec_phase_duration_ps};
use crate::paths::{copy_path, Path};
use crate::table::Flow;
use crate::types::{GpuId, JobId};

verus! {

/// A flow scheduled on the fabric.
#[allow(non_snake_case)]
#[derive(Clone, Debug)]
pub struct LiveFlow {
    pub job: JobId,
    pub phase: u32,
    pub src: GpuId,
    pub dst: GpuId,
    pub path: Path,
    pub rate_Bps: u64,
    pub bytes: u64,
    pub t_arrive_ps: i128,
    pub t_depart_ps: i128,
}

/// The planned flows of phase `p` of communicator `c`, in plan order.
pub open spec fn group(s: Seq<Flow>, c: u32, p: u32) -> Seq<Flow>
    decreases s.len(),
{
    if s.len() == 0 {
        Seq::empty()
    } else {
        let g = group(s.drop_last(), c, p);
        if s.last().comm == c && s.last().phase == p {
            g.push(s.last())
        } else {
            g
        }
    }
}

/// The smallest rate of a list of flows; zero for none.
pub open spec fn min_rate(g: Seq<Flow>) -> u64
    decreases g.len(),
{
    if g.len() == 0 {
        0
    } else if g.len() == 1 {
        g[0].rate_Bps
    } else {
        let m = min_rate(g.drop_last());
        if g.last().rate_Bps < m {
            g.last().rate_Bps
        } else {
            m
        }
    }
}

/// How long phase `p` of communicator `c` takes: its first flow's bytes at
/// its slowest flow's rate.
pub open spec fn phase_d(s: Seq<Flow>, c: u32, p: u32) -> int {
    let g = group(s, c, p);
    spec_phase_duration_ps(g[0].bytes as nat, min_rate(g) as nat)
}

/// The phases of communicator `c` below `phase`, each once, in plan order.
pub open spec fn phases_before(s: Seq<Flow>, c: u32, phase: u32) -> Seq<u32>
    decreases s.len(),
{
    if s.len() == 0 {
        Seq::empty()
    } else {
        let prev = phases_before(s.drop_last(), c, phase);
        let f = s.last();
        if f.comm == c && f.phase < phase && !prev.contains(f.phase) {
            prev.push(f.phase)
        } else {
            prev
        }
    }
}

/// Total duration of the listed phases.
pub open spec fn sum_d(s: Seq<Flow>, c: u32, ps: Seq<u32>) -> int
    decreases ps.len(),
{
    if ps.len() == 0 {
        0
    } else {
        sum_d(s, c, ps.drop_last()) + phase_d(s, c, ps.last())
    }
}

/// Some listed phase never finishes.
pub open spec fn any_stuck(s: Seq<Flow>, c: u32, ps: Seq<u32>) -> bool {
    exists|k: int| 0 <= k < ps.len() && phase_d(s, c, #[trigger] ps[k]) == i128::MAX
}

/// When phase `phase` of communicator `c` starts, after its earlier phases:
/// their total duration (saturating), or `i128::MAX / 4` when one of them
/// never finishes.
pub open spec fn spec_phase_offset(s: Seq<Flow>, c: u32, phase: u32) -> i128 {
    let ps = phases_before(s, c, phase);
    if any_stuck(s, c, ps) {
        (i128::MAX / 4) as i128
    } else {
        clamp_i128(sum_d(s, c, ps))
    }
}

proof fn lemma_group_nonempty(s: Seq<Flow>, c: u32, p: u32, i: int)
    requires
        0 <= i < s.len(),
        s[i].comm == c,
        s[i].phase == p,
    ensures
        group(s, c, p).len() > 0,
    decreases s.len(),
{
    if i < s.len() - 1 {
        lemma_group_nonempty(s.drop_last(), c, p, i);
    }
}

proof fn lemma_phases_before_found(s: Seq<Flow>, c: u32, phase: u32, x: u32)
    ensures
        phases_before(s, c, phase).contains(x) ==> group(s, c, x).len() > 0,
        phases_before(s, c, phase).no_duplicates(),
    decreases s.len(),
{
    if s.len() > 0 {
        lemma_phases_before_found(s.drop_last(), c, phase, x);
        let prev = phases_before(s.drop_last(), c, phase);
        let f = s.last();
        if f.comm == c && f.phase < phase && !prev.contains(f.phase) {
            assert forall|a: int, b: int| 0 <= a < b < prev.push(f.phase).len() implies prev.push(f.phase)[a] != prev.push(
                f.phase,
            )[b] by {
                if b == prev.len() {
                    assert(prev.contains(prev[a]));
                }
            }
            if prev.push(f.phase).contains(x) && !prev.contains(x) {
                let k = choose|k: int| 0 <= k < prev.push(f.phase).len() && prev.push(f.phase)[k] == x;
                if k < prev.len() {
                    assert(prev.contains(x));
                }
            }
        }
    }
}

/// The positions of the flows of phase `p` of communicator `c`, in order.
pub open spec fn key_idx(s: Seq<Flow>, c: u32, p: u32) -> Seq<int>
    decreases s.len(),
{
    if s.len() == 0 {
        Seq::empty()
    } else {
        let prev = key_idx(s.drop_last(), c, p);
        if s.last().comm == c && s.last().phase == p {
            prev.push(s.len() - 1)
        } else {
            prev
        }
    }
}

/// A group is its flows taken at their positions.
pub proof fn lemma_group_at(s: Seq<Flow>, c: u32, p: u32)
    ensures
        group(s, c, p).len() == key_idx(s, c, p).len(),
        forall|q: int|
            0 <= q < key_idx(s, c, p).len() ==> 0 <= #[trigger] key_idx(s, c, p)[q] < s.len() && group(s, c, p)[q]
                == s[key_idx(s, c, p)[q]],
        forall|q: int|
            0 <= q < key_idx(s, c, p).len() ==> s[#[trigger] key_idx(s, c, p)[q]].comm == c && s[key_idx(s, c, p)[q]].phase == p,
        forall|a: int, b: int|
            0 <= a < b < key_idx(s, c, p).len() ==> #[trigger] key_idx(s, c, p)[a] < #[trigger] key_idx(s, c, p)[b],
        forall|k: int|
            0 <= k < s.len() && (#[trigger] s[k]).comm == c && s[k].phase == p ==> key_idx(s, c, p).contains(k),
    decreases s.len(),
{
    if s.len() > 0 {
        lemma_group_at(s.drop_last(), c, p);
        let prev = key_idx(s.drop_last(), c, p);
        assert forall|k: int| 0 <= k < s.len() && (#[trigger] s[k]).comm == c && s[k].phase == p implies key_idx(
            s,
            c,
            p,
        ).contains(k) by {
            if k < s.len() - 1 {
                assert(s.drop_last()[k] == s[k]);
                let w = choose|w: int| 0 <= w < prev.len() && prev[w] == k;
                assert(key_idx(s, c, p)[w] == k);
            } else {
                assert(key_idx(s, c, p)[prev.len() as int] == k);
            }
        }
    }
}

/// Positions of a group depend only on each flow's communicator and phase.
pub proof fn lemma_key_idx_same(s: Seq<Flow>, t: Seq<Flow>, c: u32, p: u32)
    requires
        s.len() == t.len(),
        forall|k: int| 0 <= k < s.len() ==> (#[trigger] s[k]).comm == t[k].comm && s[k].phase == t[k].phase,
    ensures
        key_idx(s, c, p) == key_idx(t, c, p),
    decreases s.len(),
{
    if s.len() > 0 {
        lemma_key_idx_same(s.drop_last(), t.drop_last(), c, p);
    }
}

/// A group is unchanged by changes to flows outside it.
pub proof fn lemma_group_frame(s: Seq<Flow>, t: Seq<Flow>, c: u32, p: u32)
    requires
        s.len() == t.len(),
        forall|k: int| 0 <= k < s.len() ==> (#[trigger] s[k]).comm == t[k].comm && s[k].phase == t[k].phase,
        forall|k: int| 0 <= k < s.len() && (#[trigger] s[k]).comm == c && s[k].phase == p ==> s[k] == t[k],
    ensures
        group(s, c, p) == group(t, c, p),
    decreases s.len(),
{
    if s.len() > 0 {
        lemma_group_frame(s.drop_last(), t.drop_last(), c, p);
    }
}

/// The flows of one group, in plan order.
pub(crate) fn group_of(planned: &Vec<Flow>, c: u32, p: u32) -> (g: Vec<usize>)
    ensures
        g@.len() == group(planned@, c, p).len(),
        forall|k: int| 0 <= k < g@.len() ==> (#[trigger] g@[k]) < planned@.len() && planned@[g@[k] as int] == group(planned@, c, p)[k],
        forall|k: int| 0 <= k < g@.len() ==> (#[trigger] g@[k]) as int == key_idx(planned@, c, p)[k],
{
    let mut out: Vec<usize> = Vec::new();
    let mut i: usize = 0;
    while i < planned.len()
        invariant
            i <= planned@.len(),
            out@.len() == group(planned@.take(i as int), c, p).len(),
            out@.len() == key_idx(planned@.take(i as int), c, p).len(),
            forall|k: int|
                0 <= k < out@.len() ==> (#[trigger] out@[k]) < planned@.len() && planned@[out@[k] as int] == group(
                    planned@.take(i as int),
                    c,
                    p,
                )[k],
            forall|k: int| 0 <= k < out@.len() ==> (#[trigger] out@[k]) as int == key_idx(planned@.take(i as int), c, p)[k],
        decreases planned@.len() - i,
    {
        assert(planned@.take(i + 1).drop_last() =~= planned@.take(i as int));
        assert(planned@.take(i + 1).last() == planned@[i as int]);
        proof {
            lemma_group_at(planned@.take(i as int), c, p);
        }
        if planned[i].comm == c && planned[i].phase == p {
            out.push(i);
        }
        i = i + 1;
    }
    assert(planned@.take(planned@.len() as int) =~= planned@);
    out
}

/// Duration of a group's phase.
fn group_duration(planned: &Vec<Flow>, c: u32, p: u32, g: &Vec<usize>) -> (d: i128)
    requires
        g@.len() > 0,
        g@.len() == group(planned@, c, p).len(),
        forall|k: int| 0 <= k < g@.len() ==> (#[trigger] g@[k]) < planned@.len() && planned@[g@[k] as int] == group(planned@, c, p)[k],
    ensures
        d == phase_d(planned@, c, p),
{
    let ghost gs = group(planned@, c, p);
    let mut m: u64 = planned[g[0]].rate_Bps;
    let mut k: usize = 1;
    assert(gs.take(1).len() == 1);
    while k < g.len()
        invariant
            1 <= k <= g@.len(),
            gs == group(planned@, c, p),
            g@.len() == gs.len(),
            forall|q: int| 0 <= q < g@.len() ==> (#[trigger] g@[q]) < planned@.len() && planned@[g@[q] as int] == gs[q],
            m == min_rate(gs.take(k as int)),
        decreases g@.len() - k,
    {
        assert(gs.take(k + 1).drop_last() =~= gs.take(k as int));
        let r = planned[g[k]].rate_Bps;
        if r < m {
            m = r;
        }
        k = k + 1;
    }
    assert(gs.take(g@.len() as int) =~= gs);
    phase_duration_ps(planned[g[0]].bytes, m)
}

/// When phase `phase` of communicator `comm` starts relative to the
/// collective: the summed durations of the communicator's earlier phases
/// (saturating), or `i128::MAX / 4` when one of them never finishes.
pub fn phase_offset(planned: &Vec<Flow>, comm: u32, phase: u32) -> (r: i128)
    ensures
        r == spec_phase_offset(planned@, comm, phase),
{
    // The earlier phases, each once, in plan order.
    let mut phis: Vec<u32> = Vec::new();
    let mut i: usize = 0;
    while i < planned.len()
        invariant
            i <= planned@.len(),
            phis@ == phases_before(planned@.take(i as int), comm, phase),
        decreases planned@.len() - i,
    {
        assert(planned@.take(i + 1).drop_last() =~= planned@.take(i as int));
        let f = &planned[i];
        if f.comm == comm && f.phase < phase {
            let mut seen = false;
            let mut k: usize = 0;
            while k < phis.len()
                invariant
                    k <= phis@.len(),
                    seen == exists|q: int| 0 <= q < k && phis@[q] == f.phase,
                decreases phis@.len() - k,
            {
                if phis[k] == f.phase {
                    seen = true;
                }
                k = k + 1;
            }
            if !seen {
                phis.push(f.phase);
            }
        }
        i = i + 1;
    }
    assert(planned@.take(planned@.len() as int) =~= planned@);
    let ghost ps = phis@;
    let mut acc: i128 = 0;
    let mut j: usize = 0;
    while j < phis.len()
        invariant
            ps == phis@,
            ps == phases_before(planned@, comm, phase),
            j <= ps.len(),
            !any_stuck(planned@, comm, ps.take(j as int)),
            sum_d(planned@, comm, ps.take(j as int)) >= 0,
            acc == clamp_i128(sum_d(planned@, comm, ps.take(j as int))),
        decreases ps.len() - j,
    {
        let p = phis[j];
        proof {
            lemma_phases_before_found(planned@, comm, phase, p);
            assert(ps.contains(p));
        }
        let g = group_of(planned, comm, p);
        let d = group_duration(planned, comm, p, &g);
        assert(ps.take(j + 1).drop_last() =~= ps.take(j as int));
        assert(ps.take(j + 1).last() == p);
        if d == i128::MAX {
            assert(any_stuck(planned@, comm, ps)) by {
                assert(phase_d(planned@, comm, ps[j as int]) == i128::MAX);
            }
            return i128::MAX / 4;
        }
        acc = sat_add_i128(acc, d);
        assert forall|k: int| 0 <= k < j + 1 implies phase_d(planned@, comm, #[trigger] ps.take(j + 1)[k]) != i128::MAX by {
            if k < j {
                assert(ps.take(j + 1)[k] == ps.take(j as int)[k]);
            }
        }
        j = j + 1;
    }
    assert(ps.take(ps.len() as int) =~= ps);
    acc
}

/// Lexicographic order on (communicator, phase).
pub open spec fn key_lt(a: (u32, u32), b: (u32, u32)) -> bool {
    a.0 < b.0 || (a.0 == b.0 && a.1 < b.1)
}

/// Some planned flow belongs to phase `k.1` of communicator `k.0`.
pub open spec fn has_key(s: Seq<Flow>, k: (u32, u32)) -> bool {
    exists|i: int| 0 <= i < s.len() && (#[trigger] s[i]).comm == k.0 && s[i].phase == k.1
}

/// `ks` lists the planned (communicator, phase) pairs, each once, in order.
pub open spec fn keys_in_order(s: Seq<Flow>, ks: Seq<(u32, u32)>) -> bool {
    &&& forall|a: int, b: int| 0 <= a < b < ks.len() ==> key_lt(#[trigger] ks[a], #[trigger] ks[b])
    &&& forall|k: (u32, u32)| ks.contains(k) <==> has_key(s, k)
}

/// The flows of the listed phases that finish, each with its start and end:
/// a phase starts after its communicator's earlier phases and lasts its
/// duration (both saturating).
pub open spec fn sched_of(s: Seq<Flow>, ks: Seq<(u32, u32)>, now: i128) -> Seq<(Flow, i128, i128)>
    decreases ks.len(),
{
    if ks.len() == 0 {
        Seq::empty()
    } else {
        let prev = sched_of(s, ks.drop_last(), now);
        let k = ks.last();
        let d = phase_d(s, k.0, k.1);
        if d == i128::MAX {
            prev
        } else {
            let t0 = clamp_i128(now + spec_phase_offset(s, k.0, k.1));
            let t1 = clamp_i128(t0 + d);
            prev + group(s, k.0, k.1).map_values(|f: Flow| (f, t0, t1))
        }
    }
}

/// The latest end among the scheduled flows, and `now`.
pub open spec fn last_end(xs: Seq<(Flow, i128, i128)>, now: i128) -> i128
    decreases xs.len(),
{
    if xs.len() == 0 {
        now
    } else {
        let m = last_end(xs.drop_last(), now);
        if xs.last().2 > m {
            xs.last().2
        } else {
            m
        }
    }
}

/// `flows` are the planned flows that finish, as flows of `job` in phase
/// order with their start and end times, and `end` is the latest end (`now`
/// when none is scheduled).
pub open spec fn scheduled(planned: Seq<Flow>, job: JobId, now: i128, flows: Seq<LiveFlow>, end: i128) -> bool {
    exists|ks: Seq<(u32, u32)>|
        {
            &&& keys_in_order(planned, ks)
            &&& flows.len() == sched_of(planned, ks, now).len()
            &&& forall|k: int| 0 <= k < flows.len() ==> live_from(#[trigger] flows[k], sched_of(planned, ks, now)[k], job)
            &&& end == last_end(sched_of(planned, ks, now), now)
        }
}

/// A scheduled flow of job `job` made from a planned one with its times.
pub open spec fn live_from(l: LiveFlow, x: (Flow, i128, i128), job: JobId) -> bool {
    &&& l.job == job
    &&& l.phase == x.0.phase
    &&& l.src == x.0.src
    &&& l.dst == x.0.dst
    &&& l.path.links@ == x.0.path.links@
    &&& l.rate_Bps == x.0.rate_Bps
    &&& l.bytes == x.0.bytes
    &&& l.t_arrive_ps == x.1
    &&& l.t_depart_ps == x.2
}

/// The flows a collective puts on the fabric, in scheduling order, and
/// when it ends.
#[derive(Clone, Debug)]
pub struct CollectivePlan {
    pub flows: Vec<LiveFlow>,
    pub end_ps: i128,
}

/// The distinct planned (communicator, phase) pairs in order.
pub(crate) fn sorted_keys(planned: &Vec<Flow>) -> (ks: Vec<(u32, u32)>)
    ensures
        keys_in_order(planned@, ks@),
{
    let mut ks: Vec<(u32, u32)> = Vec::new();
    let mut i: usize = 0;
    while i < planned.len()
        invariant
            i <= planned@.len(),
            forall|a: int, b: int| 0 <= a < b < ks@.len() ==> key_lt(#[trigger] ks@[a], #[trigger] ks@[b]),
            forall|k: (u32, u32)| ks@.contains(k) <==> has_key(planned@.take(i as int), k),
        decreases planned@.len() - i,
    {
        let key = (planned[i].comm, planned[i].phase);
        let mut p: usize = 0;
        while p < ks.len()
            invariant
                p <= ks@.len(),
                forall|q: int| 0 <= q < p ==> key_lt(#[trigger] ks@[q], key),
            ensures
                p <= ks@.len(),
                forall|q: int| 0 <= q < p ==> key_lt(#[trigger] ks@[q], key),
                p < ks@.len() ==> !key_lt(ks@[p as int], key),
            decreases ks@.len() - p,
        {
            let k = ks[p];
            if !(k.0 < key.0 || (k.0 == key.0 && k.1 < key.1)) {
                break;
            }
            p = p + 1;
        }
        let ghost before = ks@;
        proof {
            assert forall|k: (u32, u32)| has_key(planned@.take(i + 1), k) <==> has_key(planned@.take(i as int), k) || k
                == key by {
                let t = planned@.take(i as int);
                let t1 = planned@.take(i + 1);
                if has_key(t, k) {
                    let j = choose|j: int| 0 <= j < t.len() && (#[trigger] t[j]).comm == k.0 && t[j].phase == k.1;
                    assert(t1[j] == t[j]);
                }
                if k == key {
                    assert(t1[i as int] == planned@[i as int]);
                }
                if has_key(t1, k) {
                    let j = choose|j: int| 0 <= j < t1.len() && (#[trigger] t1[j]).comm == k.0 && t1[j].phase == k.1;
                    if j < i {
                        assert(t[j] == t1[j]);
                    }
                }
            }
        }
        if p < ks.len() && ks[p].0 == key.0 && ks[p].1 == key.1 {
            assert(ks@[p as int] == key);
            assert(ks@.contains(key));
            assert forall|k: (u32, u32)| ks@.contains(k) <==> has_key(planned@.take(i + 1), k) by {
                assert(has_key(planned@.take(i + 1), k) <==> has_key(planned@.take(i as int), k) || k == key);
                assert(ks@.contains(k) <==> has_key(planned@.take(i as int), k));
            }
        } else {
            ks.insert(p, key);
            proof {
                assert forall|a: int, b: int| 0 <= a < b < ks@.len() implies key_lt(#[trigger] ks@[a], #[trigger] ks@[b]) by {
                    if b < p {
                    } else if a < p && b == p {
                    } else if a < p && b > p {
                        assert(ks@[b] == before[b - 1]);
                        if b - 1 > p {
                            assert(key_lt(before[p as int], before[b - 1]));
                        }
                    } else if a == p {
                        assert(ks@[b] == before[b - 1]);
                        if b - 1 > p {
                            assert(key_lt(before[p as int], before[b - 1]));
                        }
                    } else {
                        assert(ks@[a] == before[a - 1]);
                        assert(ks@[b] == before[b - 1]);
                    }
                }
                assert forall|k: (u32, u32)| ks@.contains(k) <==> before.contains(k) || k == key by {
                    if before.contains(k) {
                        let j = choose|j: int| 0 <= j < before.len() && before[j] == k;
                        if j < p {
                            assert(ks@[j] == k);
                        } else {
                            assert(ks@[j + 1] == k);
                        }
                    }
                    if k == key {
                        assert(ks@[p as int] == key);
                    }
                    if ks@.contains(k) {
                        let j = choose|j: int| 0 <= j < ks@.len() && ks@[j] == k;
                        if j < p {
                            assert(before[j] == k);
                        } else if j > p {
                            assert(before[j - 1] == k);
                        }
                    }
                }
                assert forall|k: (u32, u32)| ks@.contains(k) <==> has_key(planned@.take(i + 1), k) by {
                    assert(has_key(planned@.take(i + 1), k) <==> has_key(planned@.take(i as int), k) || k == key);
                    assert(before.contains(k) <==> has_key(planned@.take(i as int), k));
                }
            }
        }
        i = i + 1;
    }
    assert(planned@.take(planned@.len() as int) =~= planned@);
    ks
}

/// Time a collective that starts at `now`: for each planned
/// (communicator, phase) in order, the phase starts after the
/// communicator's earlier phases and lasts its first flow's bytes at its
/// slowest rate; a phase that never finishes is left out. Every flow of a
/// phase is scheduled over the phase's interval. The collective ends with
/// the latest flow, or at once when nothing is scheduled.
pub fn schedule_collective(planned: &Vec<Flow>, job: JobId, now: i128) -> (r: CollectivePlan)
    ensures
        exists|ks: Seq<(u32, u32)>|
            {
                &&& keys_in_order(planned@, ks)
                &&& r.flows@.len() == sched_of(planned@, ks, now).len()
                &&& forall|k: int|
                    0 <= k < r.flows@.len() ==> live_from(
                        #[trigger] r.flows@[k],
                        sched_of(planned@, ks, now)[k],
                        job,
                    )
                &&& r.end_ps == last_end(sched_of(planned@, ks, now), now)
            },
{
    let ks = sorted_keys(planned);
    let mut flows: Vec<LiveFlow> = Vec::new();
    let mut end: i128 = now;
    let mut j: usize = 0;
    while j < ks.len()
        invariant
            j <= ks@.len(),
            keys_in_order(planned@, ks@),
            flows@.len() == sched_of(planned@, ks@.take(j as int), now).len(),
            forall|k: int|
                0 <= k < flows@.len() ==> live_from(#[trigger] flows@[k], sched_of(planned@, ks@.take(j as int), now)[k], job),
            end == last_end(sched_of(planned@, ks@.take(j as int), now), now),
        decreases ks@.len() - j,
    {
        let (c, p) = ks[j];
        let ghost prev = sched_of(planned@, ks@.take(j as int), now);
        assert(ks@.take(j + 1).drop_last() =~= ks@.take(j as int));
        assert(ks@.take(j + 1).last() == (c, p));
        let g = group_of(planned, c, p);
        if g.len() > 0 {
            let d = group_duration(planned, c, p, &g);
            if d != i128::MAX {
                let off = phase_offset(planned, c, p);
                let t0 = sat_add_i128(now, off);
                let t1 = sat_add_i128(t0, d);
                let ghost gs = group(planned@, c, p);
                let ghost add = gs.map_values(|f: Flow| (f, t0, t1));
                let mut q: usize = 0;
                while q < g.len()
                    invariant
                        q <= g@.len(),
                        g@.len() == gs.len(),
                        gs == group(planned@, c, p),
                        add == gs.map_values(|f: Flow| (f, t0, t1)),
                        forall|k: int| 0 <= k < g@.len() ==> (#[trigger] g@[k]) < planned@.len() && planned@[g@[k] as int] == gs[k],
                        flows@.len() == prev.len() + q,
                        forall|k: int| 0 <= k < prev.len() ==> live_from(#[trigger] flows@[k], prev[k], job),
                        forall|k: int| 0 <= k < q ==> live_from(#[trigger] flows@[prev.len() + k], add[k], job),
                        end == last_end(prev + add.take(q as int), now),
                    decreases g@.len() - q,
                {
                    let f = &planned[g[q]];
                    flows.push(
                        LiveFlow {
                            job,
                            phase: f.phase,
                            src: f.src,
                            dst: f.dst,
                            path: copy_path(&f.path),
                            rate_Bps: f.rate_Bps,
                            bytes: f.bytes,
                            t_arrive_ps: t0,
                            t_depart_ps: t1,
                        },
                    );
                    proof {
                        assert((prev + add.take(q + 1)).drop_last() =~= prev + add.take(q as int));
                        assert((prev + add.take(q + 1)).last() == add[q as int]);
                    }
                    if t1 > end {
                        end = t1;
                    }
                    q = q + 1;
                }
                proof {
                    assert(add.take(g@.len() as int) =~= add);
                    assert(sched_of(planned@, ks@.take(j + 1), now) == prev + add);
                    assert forall|k: int| 0 <= k < flows@.len() implies live_from(
                        #[trigger] flows@[k],
                        sched_of(planned@, ks@.take(j + 1), now)[k],
                        job,
                    ) by {
                        if k >= prev.len() {
                            assert(flows@[k] == flows@[prev.len() + (k - prev.len())]);
                        }
                    }
                }
            } else {
                assert(sched_of(planned@, ks@.take(j + 1), now) == prev);
            }
        } else {
            proof {
                assert(ks@.contains((c, p)));
                let i = choose|i: int| 0 <= i < planned@.len() && (#[trigger] planned@[i]).comm == c && planned@[i].phase == p;
                lemma_group_nonempty(planned@, c, p, i);
            }
        }
        j = j + 1;
    }
    assert(ks@.take(ks@.len() as int) =~= ks@);
    CollectivePlan { flows, end_ps: end }
}

} // verus!
