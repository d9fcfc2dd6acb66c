//! A job mix: jobs listed one by one plus expanded patterns, ordered by arrival.
//!
//! Reading the TOML text and turning its seconds into picoseconds happen outside
//! the library; this module takes the file's rows with their times in
//! picoseconds and builds the mix.
use vstd::prelude::*;

use crate::arith::{clamp_i128, sat_add_i128, sat_mul_i128};
use crate::model::{isolated_t_ps, spec_isolated_t_ps};
use crate::types::{CollectiveKind, JobId, ProcessExit, SimTime};

verus! {

/// Upper bound on the number of jobs a mix may expand to.
pub const MAX_JOBS: usize = 1_000_000;

/// Loaded mix: seed, horizon, jobs in admit order `(arrive_ps, file_index)`.
#[derive(Clone, Debug, PartialEq, Eq)]
pub struct Mix {
    pub seed: u64,
    pub horizon_ps: i128,
    pub jobs: Vec<JobSpec>,
}

/// A job after load. Its id is the one the file gives; it is never reassigned.
#[derive(Copy, Clone, Debug, PartialEq, Eq, Structural)]
pub struct JobSpec {
    pub id: JobId,
    pub arrive: SimTime,
    pub gpu_count: u32,
    pub dp: u32,
    pub tp: u32,
    pub pp: u32,
    pub collective: CollectiveKind,
    pub payload_bytes: u64,
    pub step_count: u32,
    pub compute_ps: i128,
    pub deadline_ps: i128,
}

/// One `[[jobs]]` row, times in picoseconds. `deadline_ps: None` means the file
/// gave no deadline.
#[derive(Copy, Clone, Debug, PartialEq, Eq, Structural)]
pub struct RawJob {
    pub id: u32,
    pub arrive_ps: i128,
    pub gpu_count: u32,
    pub dp: u32,
    pub tp: u32,
    pub pp: u32,
    pub collective: CollectiveKind,
    pub payload_bytes: u64,
    pub step_count: u32,
    pub compute_ps: i128,
    pub deadline_ps: Option<i128>,
}

/// One `[[pattern]]` row: `count` jobs with ids `start_id..`, the `i`-th
/// arriving at `start_ps + i * every_ps`.
#[derive(Copy, Clone, Debug, PartialEq, Eq, Structural)]
pub struct RawPattern {
    pub every_ps: i128,
    pub count: u32,
    pub start_ps: i128,
    pub start_id: u32,
    pub gpu_count: u32,
    pub dp: u32,
    pub tp: u32,
    pub pp: u32,
    pub collective: CollectiveKind,
    pub payload_bytes: u64,
    pub step_count: u32,
    pub compute_ps: i128,
    pub deadline_ps: Option<i128>,
}

/// A mix that could not be read or is malformed.
#[derive(Clone, Debug, PartialEq, Eq)]
pub enum MixError {
    Io { path: String, message: String },
    Parse(String),
    Schema(String),
}

impl MixError {
    pub fn exit(&self) -> (r: ProcessExit)
        ensures
            r == (match self {
                MixError::Io { .. } => ProcessExit::IoAbort,
                _ => ProcessExit::BadInput,
            }),
    {
        match self {
            MixError::Io { .. } => ProcessExit::IoAbort,
            MixError::Parse(_) | MixError::Schema(_) => ProcessExit::BadInput,
        }
    }

    /// The message printed for the error: its code, then the path and
    /// cause of a read failure, or the parse or schema message.
    pub fn message(&self) -> (r: String)
        ensures
            r@ == (match self {
                MixError::Io { path, message } => "error[E_IO]: "@ + path@ + ": "@ + message@,
                MixError::Parse(m) => "error[E_PARSE]: "@ + m@,
                MixError::Schema(m) => "error[E_SCHEMA]: "@ + m@,
            }),
    {
        match self {
            MixError::Io { path, message } => String::from_str("error[E_IO]: ").concat(path.as_str()).concat(
                ": ",
            ).concat(message.as_str()),
            MixError::Parse(m) => String::from_str("error[E_PARSE]: ").concat(m.as_str()),
            MixError::Schema(m) => String::from_str("error[E_SCHEMA]: ").concat(m.as_str()),
        }
    }
}

/// The `i`-th job of a pattern.
pub open spec fn pattern_job(p: RawPattern, i: nat) -> RawJob {
    RawJob {
        id: (p.start_id + i) as u32,
        arrive_ps: clamp_i128(p.start_ps + clamp_i128(i * p.every_ps)),
        gpu_count: p.gpu_count,
        dp: p.dp,
        tp: p.tp,
        pp: p.pp,
        collective: p.collective,
        payload_bytes: p.payload_bytes,
        step_count: p.step_count,
        compute_ps: p.compute_ps,
        deadline_ps: p.deadline_ps,
    }
}

/// The jobs of one pattern, in order.
pub open spec fn pattern_jobs(p: RawPattern) -> Seq<RawJob> {
    Seq::new(p.count as nat, |i: int| pattern_job(p, i as nat))
}

/// The jobs of a list of patterns, pattern after pattern.
pub open spec fn patterns_jobs(ps: Seq<RawPattern>) -> Seq<RawJob>
    decreases ps.len(),
{
    if ps.len() == 0 {
        Seq::empty()
    } else {
        patterns_jobs(ps.drop_last()) + pattern_jobs(ps.last())
    }
}

/// The flattened file: listed jobs first, then each pattern expanded.
pub open spec fn expand(jobs: Seq<RawJob>, ps: Seq<RawPattern>) -> Seq<RawJob> {
    jobs + patterns_jobs(ps)
}

/// Pattern `k` keeps the total at or under the cap and its ids fit in `u32`.
pub open spec fn pattern_ok(n_jobs: nat, ps: Seq<RawPattern>, k: int) -> bool {
    &&& n_jobs + patterns_jobs(ps.take(k)).len() + ps[k].count <= MAX_JOBS
    &&& ps[k].count == 0 || ps[k].start_id + ps[k].count - 1 <= u32::MAX
}

/// Every pattern expands without passing the cap or overflowing an id.
pub open spec fn patterns_ok(n_jobs: nat, ps: Seq<RawPattern>) -> bool {
    forall|k: int| 0 <= k < ps.len() ==> pattern_ok(n_jobs, ps, k)
}

/// A job's shape covers its GPUs exactly: `dp * tp * pp == gpu_count`.
pub open spec fn shape_ok(j: RawJob) -> bool {
    j.dp * j.tp * j.pp == j.gpu_count
}

/// `perm` lists every index of `jobs` once, in `(arrive_ps, index)` order.
pub open spec fn is_arrival_order(jobs: Seq<RawJob>, perm: Seq<int>) -> bool {
    &&& perm.len() == jobs.len()
    &&& forall|k: int| 0 <= k < perm.len() ==> 0 <= #[trigger] perm[k] < jobs.len()
    &&& forall|a: int, b: int|
        0 <= a < b < perm.len() ==> (jobs[perm[a]].arrive_ps < jobs[perm[b]].arrive_ps || (
        jobs[perm[a]].arrive_ps == jobs[perm[b]].arrive_ps && perm[a] < perm[b]))
}

/// The deadline of a job: the file's, or twice its isolated collective time.
pub open spec fn spec_deadline(j: RawJob) -> int {
    match j.deadline_ps {
        Some(d) => d as int,
        None => clamp_i128(2 * spec_isolated_t_ps(j.collective, j.dp as nat, j.payload_bytes as nat)) as int,
    }
}

/// The job spec a row becomes when it is the `seq`-th to arrive.
pub open spec fn spec_finalize(j: RawJob, seq: nat) -> JobSpec {
    JobSpec {
        id: JobId(j.id),
        arrive: SimTime { ps: j.arrive_ps, seq: seq as u64 },
        gpu_count: j.gpu_count,
        dp: j.dp,
        tp: j.tp,
        pp: j.pp,
        collective: j.collective,
        payload_bytes: j.payload_bytes,
        step_count: j.step_count,
        compute_ps: j.compute_ps,
        deadline_ps: spec_deadline(j) as i128,
    }
}

proof fn lemma_patterns_jobs_push(ps: Seq<RawPattern>, k: int)
    requires
        0 <= k < ps.len(),
    ensures
        patterns_jobs(ps.take(k + 1)) == patterns_jobs(ps.take(k)) + pattern_jobs(ps[k]),
{
    assert(ps.take(k + 1).drop_last() =~= ps.take(k));
}

fn expand_pattern(out: &mut Vec<RawJob>, p: RawPattern)
    requires
        p.count == 0 || p.start_id + p.count - 1 <= u32::MAX,
    ensures
        final(out)@ == old(out)@ + pattern_jobs(p),
{
    let mut i: u32 = 0;
    while i < p.count
        invariant
            i <= p.count,
            p.count == 0 || p.start_id + p.count - 1 <= u32::MAX,
            out@ == old(out)@ + pattern_jobs(p).take(i as int),
        decreases p.count - i,
    {
        let id = p.start_id + i;
        let off = sat_mul_i128(i as i128, p.every_ps);
        let arrive_ps = sat_add_i128(p.start_ps, off);
        let j = RawJob {
            id,
            arrive_ps,
            gpu_count: p.gpu_count,
            dp: p.dp,
            tp: p.tp,
            pp: p.pp,
            collective: p.collective,
            payload_bytes: p.payload_bytes,
            step_count: p.step_count,
            compute_ps: p.compute_ps,
            deadline_ps: p.deadline_ps,
        };
        assert(j == pattern_job(p, i as nat));
        out.push(j);
        assert(pattern_jobs(p).take(i + 1) =~= pattern_jobs(p).take(i as int).push(j));
        i = i + 1;
    }
    assert(pattern_jobs(p).take(p.count as int) =~= pattern_jobs(p));
}

/// Indices of `jobs` in arrival order, ties broken by index.
pub fn arrival_order(jobs: &Vec<RawJob>) -> (perm: Vec<usize>)
    ensures
        is_arrival_order(jobs@, perm@.map_values(|x: usize| x as int)),
{
    let mut perm: Vec<usize> = Vec::new();
    let n = jobs.len();
    let mut i: usize = 0;
    while i < n
        invariant
            n == jobs.len(),
            i <= n,
            perm.len() == i,
            forall|k: int| 0 <= k < perm.len() ==> #[trigger] perm@[k] < i,
            forall|a: int, b: int|
                0 <= a < b < perm.len() ==> (jobs@[perm@[a] as int].arrive_ps
                    < jobs@[perm@[b] as int].arrive_ps || (jobs@[perm@[a] as int].arrive_ps
                    == jobs@[perm@[b] as int].arrive_ps && perm@[a] < perm@[b])),
        decreases n - i,
    {
        let t = jobs[i].arrive_ps;
        let mut pos: usize = 0;
        while pos < perm.len() && jobs[perm[pos]].arrive_ps <= t
            invariant
                n == jobs.len(),
                i < n,
                t == jobs@[i as int].arrive_ps,
                pos <= perm.len(),
                forall|k: int| 0 <= k < perm.len() ==> #[trigger] perm@[k] < i,
                forall|k: int| 0 <= k < pos ==> jobs@[#[trigger] perm@[k] as int].arrive_ps <= t,
            decreases perm.len() - pos,
        {
            pos = pos + 1;
        }
        let ghost old_perm = perm@;
        proof {
            assert forall|k: int| pos <= k < old_perm.len() implies jobs@[old_perm[k] as int].arrive_ps
                > t by {
                if pos < old_perm.len() {
                    assert(jobs@[old_perm[pos as int] as int].arrive_ps > t);
                    if k > pos {
                        assert(jobs@[old_perm[pos as int] as int].arrive_ps
                            <= jobs@[old_perm[k] as int].arrive_ps);
                    }
                }
            }
        }
        perm.insert(pos, i);
        assert forall|k: int| 0 <= k < perm.len() implies #[trigger] perm@[k] < i + 1 by {
            if k < pos {
                assert(perm@[k] == old_perm[k]);
            } else if k > pos {
                assert(perm@[k] == old_perm[k - 1]);
            }
        }
        assert forall|a: int, b: int| 0 <= a < b < perm.len() implies (jobs@[perm@[a] as int].arrive_ps
            < jobs@[perm@[b] as int].arrive_ps || (jobs@[perm@[a] as int].arrive_ps
            == jobs@[perm@[b] as int].arrive_ps && perm@[a] < perm@[b])) by {
            if a < pos && b < pos {
                assert(perm@[a] == old_perm[a] && perm@[b] == old_perm[b]);
            } else if a < pos && b == pos {
                assert(perm@[a] == old_perm[a]);
                assert(old_perm[a] < i);
            } else if a < pos && b > pos {
                assert(perm@[a] == old_perm[a] && perm@[b] == old_perm[b - 1]);
            } else if a == pos {
                assert(perm@[b] == old_perm[b - 1]);
            } else {
                assert(perm@[a] == old_perm[a - 1] && perm@[b] == old_perm[b - 1]);
            }
        }
        i = i + 1;
    }
    let ghost p = perm@.map_values(|x: usize| x as int);
    assert(is_arrival_order(jobs@, p)) by {
        assert forall|k: int| 0 <= k < p.len() implies 0 <= #[trigger] p[k] < jobs@.len() by {
            assert(perm@[k] < n);
        }
    }
    perm
}

fn finalize(j: RawJob, seq: usize) -> (r: JobSpec)
    ensures
        r == spec_finalize(j, seq as nat),
{
    let deadline_ps = match j.deadline_ps {
        Some(d) => d,
        None => sat_mul_i128(isolated_t_ps(j.collective, j.dp, j.payload_bytes), 2),
    };
    JobSpec {
        id: JobId(j.id),
        arrive: SimTime { ps: j.arrive_ps, seq: seq as u64 },
        gpu_count: j.gpu_count,
        dp: j.dp,
        tp: j.tp,
        pp: j.pp,
        collective: j.collective,
        payload_bytes: j.payload_bytes,
        step_count: j.step_count,
        compute_ps: j.compute_ps,
        deadline_ps,
    }
}

/// What a successful build gives: the flattened rows in arrival order, each
/// finalized with its position as its `seq`.
pub open spec fn mix_built_from(mix: Mix, seed: u64, horizon_ps: i128, all: Seq<RawJob>) -> bool {
    &&& mix.seed == seed
    &&& mix.horizon_ps == horizon_ps
    &&& mix.jobs.len() == all.len()
    &&& exists|perm: Seq<int>|
        #![trigger is_arrival_order(all, perm)]
        is_arrival_order(all, perm) && forall|k: int|
            0 <= k < all.len() ==> #[trigger] mix.jobs@[k] == spec_finalize(all[perm[k]], k as nat)
}

/// Flatten `[[jobs]]` then expanded `[[pattern]]`, order by `(arrive_ps, file_index)`,
/// check shapes and fill omitted deadlines with twice the isolated time.
pub fn build_mix(seed: u64, horizon_ps: i128, jobs: Vec<RawJob>, patterns: Vec<RawPattern>) -> (r:
    Result<Mix, MixError>)
    ensures
        match r {
            Ok(mix) => {
                &&& patterns_ok(jobs@.len(), patterns@)
                &&& forall|k: int|
                    0 <= k < expand(jobs@, patterns@).len() ==> shape_ok(
                        #[trigger] expand(jobs@, patterns@)[k],
                    )
                &&& mix_built_from(mix, seed, horizon_ps, expand(jobs@, patterns@))
            },
            Err(e) => {
                &&& e is Schema
                &&& (!patterns_ok(jobs@.len(), patterns@) || exists|k: int|
                    0 <= k < expand(jobs@, patterns@).len() && !shape_ok(
                        #[trigger] expand(jobs@, patterns@)[k],
                    ))
            },
        },
{
    let n_jobs = jobs.len();
    let mut raw: Vec<RawJob> = jobs;
    let mut k: usize = 0;
    while k < patterns.len()
        invariant
            k <= patterns.len(),
            n_jobs == jobs@.len(),
            raw@ == jobs@ + patterns_jobs(patterns@.take(k as int)),
            forall|j: int| 0 <= j < k ==> pattern_ok(n_jobs as nat, patterns@, j),
        decreases patterns.len() - k,
    {
        let p = patterns[k];
        proof {
            lemma_patterns_jobs_push(patterns@, k as int);
        }
        if raw.len() > MAX_JOBS || p.count as usize > MAX_JOBS - raw.len() {
            assert(!pattern_ok(n_jobs as nat, patterns@, k as int));
            return Err(MixError::Schema("pattern expands past 1000000 jobs".to_string()));
        }
        if p.count > 0 && p.start_id > u32::MAX - (p.count - 1) {
            assert(!pattern_ok(n_jobs as nat, patterns@, k as int));
            return Err(MixError::Schema("pattern start_id + i overflows u32".to_string()));
        }
        expand_pattern(&mut raw, p);
        k = k + 1;
    }
    assert(patterns@.take(patterns@.len() as int) =~= patterns@);
    let perm = arrival_order(&raw);
    let ghost pm = perm@.map_values(|x: usize| x as int);
    let mut out: Vec<JobSpec> = Vec::new();
    let mut s: usize = 0;
    while s < perm.len()
        invariant
            s <= perm.len(),
            perm.len() == raw.len(),
            raw@ == expand(jobs@, patterns@),
            pm == perm@.map_values(|x: usize| x as int),
            is_arrival_order(raw@, pm),
            out.len() == s,
            forall|q: int| 0 <= q < s ==> #[trigger] out@[q] == spec_finalize(raw@[pm[q]], q as nat),
            forall|q: int| 0 <= q < s ==> shape_ok(#[trigger] raw@[pm[q]]),
        decreases perm.len() - s,
    {
        let j = raw[perm[s]];
        assert(pm[s as int] == perm@[s as int] as int);
        assert(j.dp as u64 * j.tp as u64 <= u64::MAX) by (nonlinear_arith)
            requires
                j.dp <= u32::MAX,
                j.tp <= u32::MAX,
        ;
        let prod = (j.dp as u64) * (j.tp as u64);
        let shape_good = match prod.checked_mul(j.pp as u64) {
            Some(x) => x == j.gpu_count as u64,
            None => false,
        };
        if !shape_good {
            assert(!shape_ok(raw@[pm[s as int]])) by (nonlinear_arith)
                requires
                    raw@[pm[s as int]] == j,
                    prod == j.dp as u64 * j.tp as u64,
                    match (prod as u128 * j.pp as u128) <= u64::MAX as u128 {
                        true => prod * j.pp != j.gpu_count,
                        false => true,
                    },
            ;
            return Err(MixError::Schema("dp*tp*pp != gpu_count".to_string()));
        }
        let spec = finalize(j, s);
        out.push(spec);
        s = s + 1;
    }
    assert forall|k: int| 0 <= k < raw@.len() implies shape_ok(#[trigger] raw@[k]) by {
        lemma_perm_covers(raw@, pm, k);
        let q = choose|q: int| 0 <= q < pm.len() && pm[q] == k;
        assert(shape_ok(raw@[pm[q]]));
    }
    let mix = Mix { seed, horizon_ps, jobs: out };
    assert(is_arrival_order(raw@, pm));
    Ok(mix)
}

/// An arrival order lists every index: the map `k -> perm[k]` is onto.
pub proof fn lemma_perm_covers(jobs: Seq<RawJob>, perm: Seq<int>, i: int)
    requires
        is_arrival_order(jobs, perm),
        0 <= i < jobs.len(),
    ensures
        exists|q: int| 0 <= q < perm.len() && perm[q] == i,
{
    lemma_perm_injective(jobs, perm);
    lemma_injective_onto(perm, jobs.len() as int, i);
}

proof fn lemma_perm_injective(jobs: Seq<RawJob>, perm: Seq<int>)
    requires
        is_arrival_order(jobs, perm),
    ensures
        forall|a: int, b: int| 0 <= a < b < perm.len() ==> perm[a] != perm[b],
{
    assert forall|a: int, b: int| 0 <= a < b < perm.len() implies perm[a] != perm[b] by {
        assert(jobs[perm[a]].arrive_ps < jobs[perm[b]].arrive_ps || perm[a] < perm[b]);
    }
}

/// A sequence of `n` distinct values in `0..n` takes every value in `0..n`.
proof fn lemma_injective_onto(perm: Seq<int>, n: int, i: int)
    requires
        perm.len() == n,
        forall|k: int| 0 <= k < perm.len() ==> 0 <= #[trigger] perm[k] < n,
        forall|a: int, b: int| 0 <= a < b < perm.len() ==> perm[a] != perm[b],
        0 <= i < n,
    ensures
        exists|q: int| 0 <= q < perm.len() && perm[q] == i,
    decreases n,
{
    if !(exists|q: int| 0 <= q < perm.len() && perm[q] == i) {
        // Map every value above `i` one down: n distinct values in 0..n-1.
        let f = perm.map_values(|x: int| if x > i { x - 1 } else { x });
        assert forall|k: int| 0 <= k < f.len() implies 0 <= #[trigger] f[k] < n - 1 by {
            assert(perm[k] != i);
        }
        assert(n >= 1);
        lemma_pigeonhole(f, n - 1);
        let (a, b) = choose|a: int, b: int| 0 <= a < b < f.len() && f[a] == f[b];
        assert(perm[a] != i && perm[b] != i);
        assert(perm[a] != perm[b]);
    }
}

/// `m + 1` values in `0..m` hold a repeat.
proof fn lemma_pigeonhole(s: Seq<int>, m: int)
    requires
        s.len() == m + 1,
        m >= 0,
        forall|k: int| 0 <= k < s.len() ==> 0 <= #[trigger] s[k] < m,
    ensures
        exists|a: int, b: int| 0 <= a < b < s.len() && s[a] == s[b],
    decreases m,
{
    if m == 0 {
        let x = s[0];
        assert(0 <= x && x < 0);
    } else {
        let top = m - 1;
        if exists|a: int, b: int| 0 <= a < b < s.len() && s[a] == s[b] {
        } else if exists|q: int| 0 <= q < s.len() && s[q] == top {
            let q = choose|q: int| 0 <= q < s.len() && s[q] == top;
            let t = s.remove(q);
            assert forall|k: int| 0 <= k < t.len() implies 0 <= #[trigger] t[k] < m - 1 by {
                if k < q {
                    assert(t[k] == s[k]);
                    assert(s[k] != s[q]);
                } else {
                    assert(t[k] == s[k + 1]);
                    assert(s[k + 1] != s[q]);
                }
            }
            lemma_pigeonhole(t, m - 1);
            let (a, b) = choose|a: int, b: int| 0 <= a < b < t.len() && t[a] == t[b];
            let sa = if a < q { a } else { a + 1 };
            let sb = if b < q { b } else { b + 1 };
            assert(t[a] == s[sa] && t[b] == s[sb]);
            assert(s[sa] == s[sb]);
        } else {
            let t = s.drop_last();
            assert forall|k: int| 0 <= k < t.len() implies 0 <= #[trigger] t[k] < m - 1 by {
                assert(t[k] == s[k]);
            }
            lemma_pigeonhole(t, m - 1);
            let (a, b) = choose|a: int, b: int| 0 <= a < b < t.len() && t[a] == t[b];
            assert(s[a] == s[b]);
        }
    }
}
/// Isolated time above the deadline, or more GPUs than the cluster has.
pub open spec fn job_does_not_fit(j: JobSpec, g_tot: u32) -> bool {
    j.gpu_count > g_tot || spec_isolated_t_ps(j.collective, j.dp as nat, j.payload_bytes as nat)
        > j.deadline_ps
}

/// Isolated T at 47.5 GB/s, `p = dp`, over the full fabric. `T > deadline` or
/// `gpu_count > g_tot` for any job: `MixDoesNotFit`.
pub fn check_isolated(mix: &Mix, g_tot: u32) -> (r: Result<(), ProcessExit>)
    ensures
        r is Err <==> exists|i: int|
            0 <= i < mix.jobs@.len() && job_does_not_fit(#[trigger] mix.jobs@[i], g_tot),
        r matches Err(e) ==> e == ProcessExit::MixDoesNotFit,
{
    let mut i: usize = 0;
    while i < mix.jobs.len()
        invariant
            i <= mix.jobs.len(),
            forall|k: int| 0 <= k < i ==> !job_does_not_fit(#[trigger] mix.jobs@[k], g_tot),
        decreases mix.jobs.len() - i,
    {
        let job = &mix.jobs[i];
        if job.gpu_count > g_tot {
            return Err(ProcessExit::MixDoesNotFit);
        }
        let t = isolated_t_ps(job.collective, job.dp, job.payload_bytes);
        if t > job.deadline_ps {
            return Err(ProcessExit::MixDoesNotFit);
        }
        i = i + 1;
    }
    Ok(())
}

} // verus!
