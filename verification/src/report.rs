//! The run report: counts, metrics, per-job rows, the failure log and the
//! planner's section, with the one-row summary printed on stdout.
#![allow(non_snake_case)]
use vstd::prelude::*;

use crate::text::{push_decimal, spec_decimal};
use crate::types::{ps_to_us, spec_all_rejects, spec_ps_to_us, spec_reject_name, Policy, RejectCode};

verus! {

/// The planner's section of the report.
#[derive(Clone, Debug)]
pub struct PlanReport {
    pub deltas: Vec<String>,
    pub nodes_removed: Vec<u32>,
    pub gpus_removed: u32,
    pub S_before: u32,
    pub S_after: u32,
    pub jobs_admitted: Vec<u32>,
    pub jobs_rejected: Vec<PlanReject>,
    pub new_hotspots: Vec<u32>,
    pub restore: PlanRestore,
    pub vs_baseline: PlanBaseline,
}

/// A job the planned fabric rejects.
#[derive(Clone, Debug)]
pub struct PlanReject {
    pub id: u32,
    pub code: String,
    pub T_pred_ps: i128,
    pub D_j_ps: i128,
}

/// What would restore full admission.
#[derive(Clone, Debug)]
pub struct PlanRestore {
    pub extra_spines: Option<u32>,
    pub rows_needed: Vec<String>,
}

/// Admits and rejects on the unchanged fabric.
#[derive(Copy, Clone, Debug, PartialEq, Eq, Structural)]
pub struct PlanBaseline {
    pub admits: u64,
    pub rejects: u64,
}

/// Size of the fabric.
#[derive(Copy, Clone, Debug, PartialEq, Eq, Structural)]
pub struct TopoSummary {
    pub gpus: u32,
    pub N: u32,
    pub L: u32,
    pub S: u32,
    pub E_host: u32,
    pub E_ls: u32,
    pub B_bisect_gbps: u64,
}

/// Job outcomes.
#[derive(Copy, Clone, Debug, Default, PartialEq, Eq, Structural)]
pub struct Counts {
    pub arrivals: u64,
    pub admits: u64,
    pub rejects: u64,
    pub kills: u64,
    pub completes: u64,
    pub slo_misses: u64,
}

/// Run metrics in whole microseconds and parts per million.
#[derive(Copy, Clone, Debug, Default, PartialEq, Eq, Structural)]
pub struct Metrics {
    pub hotspot_us: i128,
    pub hotspot_threshold_ppm: u64,
    pub completions_by_deadline: u64,
    pub tail_collective_us_p99: i128,
    pub last_flow_collective_us_max: i128,
    pub slo_miss_us: i128,
    pub disrupted_step_us: i128,
    pub mean_link_util_ppm: i128,
}

/// One job's line in the report.
#[derive(Clone, Debug)]
pub struct JobRow {
    pub job_id: u32,
    pub decision: String,
    pub steps_done: u32,
    pub t_pred_ps: i128,
    pub reject: Option<String>,
}

/// One failure epoch as the report logs it.
#[derive(Clone, Debug)]
pub struct FailRecord {
    pub t_ps: i64,
    pub kills: Vec<u32>,
    pub reroutes: Vec<u32>,
    pub epoch_from: u32,
    pub epoch_to: u32,
    pub dead_link_bytes: u64,
}

/// The run report. Rejects are counted per reject code, every code listed
/// in declaration order.
#[derive(Clone, Debug)]
pub struct Report {
    pub spec_version: String,
    pub seed: u64,
    pub policy: String,
    pub topo: TopoSummary,
    pub mix_hash: String,
    pub topo_hash: String,
    pub horizon_ps: i128,
    pub counts: Counts,
    pub rejects_by_code: Vec<(String, u64)>,
    pub metrics: Metrics,
    pub jobs: Vec<JobRow>,
    pub fails: Vec<FailRecord>,
    pub invariants_ok: bool,
    pub plan: Option<PlanReport>,
}

/// Threshold of a hotspot: 80% utilisation.
pub const HOTSPOT_THRESHOLD_PPM: u64 = 800_000;

/// Every reject code's name with a zero count, in declaration order.
pub open spec fn zero_rejects(m: Seq<(String, u64)>) -> bool {
    &&& m.len() == spec_all_rejects().len()
    &&& forall|i: int|
        0 <= i < m.len() ==> (#[trigger] m[i]).0@ == spec_reject_name(spec_all_rejects()[i]) && m[i].1 == 0
}

/// The count of the first entry named `name`, zero when there is none.
pub open spec fn count_of(m: Seq<(String, u64)>, name: Seq<char>) -> u64
    decreases m.len(),
{
    if m.len() == 0 {
        0
    } else if m[0].0@ == name {
        m[0].1
    } else {
        count_of(m.drop_first(), name)
    }
}

/// Words joined by single spaces.
pub open spec fn spec_join(ws: Seq<Seq<char>>) -> Seq<char>
    decreases ws.len(),
{
    if ws.len() == 0 {
        Seq::empty()
    } else if ws.len() == 1 {
        ws[0]
    } else {
        spec_join(ws.drop_last()) + seq![' '] + ws.last()
    }
}

/// The summary's column names: the counts, then every reject code.
pub open spec fn summary_keys() -> Seq<Seq<char>> {
    seq!["arrivals"@, "admits"@, "rejects"@, "kills"@, "completes"@, "slo_misses"@] + spec_all_rejects().map_values(
        |c: RejectCode| spec_reject_name(c),
    )
}

/// The summary's values, in the order of its columns.
pub open spec fn summary_vals(r: &Report) -> Seq<Seq<char>> {
    seq![
        spec_decimal(r.counts.arrivals as nat),
        spec_decimal(r.counts.admits as nat),
        spec_decimal(r.counts.rejects as nat),
        spec_decimal(r.counts.kills as nat),
        spec_decimal(r.counts.completes as nat),
        spec_decimal(r.counts.slo_misses as nat),
    ] + spec_all_rejects().map_values(
        |c: RejectCode| spec_decimal(count_of(r.rejects_by_code@, spec_reject_name(c)) as nat),
    )
}

/// Every reject code with a zero count.
pub fn empty_rejects() -> (m: Vec<(String, u64)>)
    ensures
        zero_rejects(m@),
{
    let all = RejectCode::all();
    let mut m: Vec<(String, u64)> = Vec::new();
    let mut i: usize = 0;
    while i < all.len()
        invariant
            all@ == spec_all_rejects(),
            i <= all@.len(),
            m@.len() == i,
            forall|k: int| 0 <= k < i ==> (#[trigger] m@[k]).0@ == spec_reject_name(all@[k]) && m@[k].1 == 0,
        decreases all@.len() - i,
    {
        m.push((String::from_str(all[i].as_str()), 0));
        i = i + 1;
    }
    m
}

fn count_by_name(m: &Vec<(String, u64)>, name: &str) -> (r: u64)
    ensures
        r == count_of(m@, name@),
{
    let mut i: usize = 0;
    assert(m@.skip(0) =~= m@);
    while i < m.len()
        invariant
            i <= m@.len(),
            count_of(m@, name@) == count_of(m@.skip(i as int), name@),
        decreases m@.len() - i,
    {
        let a = crate::cli_text::chars_of(m[i].0.as_str());
        assert(m@.skip(i as int).drop_first() =~= m@.skip(i + 1));
        if crate::cli_text::is_word(&a, name) {
            return m[i].1;
        }
        i = i + 1;
    }
    assert(m@.skip(i as int).len() == 0);
    0
}

impl Report {
    /// A fresh report: version `0.1`, the policy's name, no counts, every
    /// reject code at zero, the hotspot threshold set, no jobs, no failures,
    /// invariants fine, no planner section.
    pub fn new(seed: u64, policy: Policy, topo: TopoSummary) -> (r: Report)
        ensures
            r.spec_version@ == "0.1"@,
            r.seed == seed,
            r.policy@ == (match policy {
                Policy::Naive => "naive"@,
                Policy::Joint => "joint"@,
            }),
            r.topo == topo,
            r.mix_hash@.len() == 0,
            r.topo_hash@.len() == 0,
            r.horizon_ps == 0,
            r.counts == (Counts { arrivals: 0, admits: 0, rejects: 0, kills: 0, completes: 0, slo_misses: 0 }),
            zero_rejects(r.rejects_by_code@),
            r.metrics == (Metrics {
                hotspot_us: 0,
                hotspot_threshold_ppm: HOTSPOT_THRESHOLD_PPM,
                completions_by_deadline: 0,
                tail_collective_us_p99: 0,
                last_flow_collective_us_max: 0,
                slo_miss_us: 0,
                disrupted_step_us: 0,
                mean_link_util_ppm: 0,
            }),
            r.jobs@.len() == 0,
            r.fails@.len() == 0,
            r.invariants_ok,
            (r.plan is None),
    {
        Report {
            spec_version: String::from_str("0.1"),
            seed,
            policy: String::from_str(policy.as_str()),
            topo,
            mix_hash: String::new(),
            topo_hash: String::new(),
            horizon_ps: 0,
            counts: Counts { arrivals: 0, admits: 0, rejects: 0, kills: 0, completes: 0, slo_misses: 0 },
            rejects_by_code: empty_rejects(),
            metrics: Metrics {
                hotspot_us: 0,
                hotspot_threshold_ppm: HOTSPOT_THRESHOLD_PPM,
                completions_by_deadline: 0,
                tail_collective_us_p99: 0,
                last_flow_collective_us_max: 0,
                slo_miss_us: 0,
                disrupted_step_us: 0,
                mean_link_util_ppm: 0,
            },
            jobs: Vec::new(),
            fails: Vec::new(),
            invariants_ok: true,
            plan: None,
        }
    }

    /// Two lines: the count names then every reject code, and under them
    /// the values, space-separated.
    pub fn stdout_summary(&self) -> (r: String)
        ensures
            r@ == spec_join(summary_keys()) + seq!['\n'] + spec_join(summary_vals(self)),
    {
        let all = RejectCode::all();
        let mut keys: Vec<String> = Vec::new();
        keys.push(String::from_str("arrivals"));
        keys.push(String::from_str("admits"));
        keys.push(String::from_str("rejects"));
        keys.push(String::from_str("kills"));
        keys.push(String::from_str("completes"));
        keys.push(String::from_str("slo_misses"));
        let mut vals: Vec<String> = Vec::new();
        vals.push(dec(self.counts.arrivals));
        vals.push(dec(self.counts.admits));
        vals.push(dec(self.counts.rejects));
        vals.push(dec(self.counts.kills));
        vals.push(dec(self.counts.completes));
        vals.push(dec(self.counts.slo_misses));
        let ghost k0 = strs(keys@);
        let ghost v0 = strs(vals@);
        let mut i: usize = 0;
        while i < all.len()
            invariant
                all@ == spec_all_rejects(),
                i <= all@.len(),
                keys@.len() == 6 + i,
                vals@.len() == 6 + i,
                strs(keys@) == k0 + all@.take(i as int).map_values(|c: RejectCode| spec_reject_name(c)),
                strs(vals@) == v0 + all@.take(i as int).map_values(
                    |c: RejectCode| spec_decimal(count_of(self.rejects_by_code@, spec_reject_name(c)) as nat),
                ),
            decreases all@.len() - i,
        {
            let name = all[i].as_str();
            let n = count_by_name(&self.rejects_by_code, name);
            let ghost ok = keys@;
            let ghost ov = vals@;
            keys.push(String::from_str(name));
            vals.push(dec(n));
            proof {
                assert(all@.take(i + 1) =~= all@.take(i as int).push(all@[i as int]));
                assert(strs(keys@) =~= strs(ok).push(name@));
                assert(strs(vals@) =~= strs(ov).push(spec_decimal(n as nat)));
                assert(all@.take(i + 1).map_values(|c: RejectCode| spec_reject_name(c)) =~= all@.take(
                    i as int,
                ).map_values(|c: RejectCode| spec_reject_name(c)).push(spec_reject_name(all@[i as int])));
                assert(all@.take(i + 1).map_values(
                    |c: RejectCode| spec_decimal(count_of(self.rejects_by_code@, spec_reject_name(c)) as nat),
                ) =~= all@.take(i as int).map_values(
                    |c: RejectCode| spec_decimal(count_of(self.rejects_by_code@, spec_reject_name(c)) as nat),
                ).push(spec_decimal(n as nat)));
            }
            i = i + 1;
        }
        proof {
            assert(all@.take(all@.len() as int) =~= all@);
            reveal_strlit("arrivals");
            reveal_strlit("admits");
            reveal_strlit("rejects");
            reveal_strlit("kills");
            reveal_strlit("completes");
            reveal_strlit("slo_misses");
            assert(strs(keys@) =~= summary_keys());
            assert(strs(vals@) =~= summary_vals(self));
        }
        let mut out = join_words(&keys);
        out.append("\n");
        let second = join_words(&vals);
        out.append(second.as_str());
        proof {
            reveal_strlit("\n");
        }
        out
    }
}

/// The views of a list of strings.
pub open spec fn strs(v: Seq<String>) -> Seq<Seq<char>> {
    v.map_values(|s: String| s@)
}

fn dec(n: u64) -> (r: String)
    ensures
        r@ == spec_decimal(n as nat),
{
    let mut s = String::new();
    push_decimal(&mut s, n as u128);
    s
}

/// The strings joined by single spaces.
pub fn join_words(ws: &Vec<String>) -> (r: String)
    ensures
        r@ == spec_join(strs(ws@)),
{
    let mut out = String::new();
    let mut i: usize = 0;
    while i < ws.len()
        invariant
            i <= ws@.len(),
            out@ == spec_join(strs(ws@.take(i as int))),
        decreases ws@.len() - i,
    {
        let ghost before = out@;
        if i > 0 {
            out.append(" ");
            proof {
                reveal_strlit(" ");
            }
        }
        out.append(ws[i].as_str());
        proof {
            assert(strs(ws@.take(i + 1)).drop_last() =~= strs(ws@.take(i as int)));
            assert(strs(ws@.take(i + 1)).last() == ws@[i as int]@);
            if i == 0 {
                assert(strs(ws@.take(1)) =~= seq![ws@[0]@]);
            }
        }
        i = i + 1;
    }
    assert(ws@.take(ws@.len() as int) =~= ws@);
    out
}

/// Whole microseconds of a picosecond count.
pub fn us_of(ps: i128) -> (r: i128)
    ensures
        r == spec_ps_to_us(ps as int),
{
    ps_to_us(ps)
}

/// Non-decreasing.
pub open spec fn ascending(s: Seq<i128>) -> bool {
    forall|i: int, j: int| 0 <= i < j < s.len() ==> s[i] <= s[j]
}

/// The p99 rank of `n` values: `ceil(99 n / 100) - 1`, at least 0.
pub open spec fn p99_index(n: nat) -> int {
    let c = (n * 99 + 99) / 100;
    if c >= 1 {
        c - 1
    } else {
        0
    }
}

/// The values in ascending order.
fn sorted_copy(xs: &Vec<i128>) -> (r: Vec<i128>)
    ensures
        r@.to_multiset() == xs@.to_multiset(),
        ascending(r@),
{
    let mut out: Vec<i128> = Vec::new();
    let mut i: usize = 0;
    assert(xs@.take(0) =~= out@);
    while i < xs.len()
        invariant
            i <= xs@.len(),
            out@.to_multiset() == xs@.take(i as int).to_multiset(),
            ascending(out@),
        decreases xs@.len() - i,
    {
        let x = xs[i];
        let mut p: usize = 0;
        while p < out.len()
            invariant
                p <= out@.len(),
                forall|q: int| 0 <= q < p ==> out@[q] <= x,
            ensures
                p <= out@.len(),
                forall|q: int| 0 <= q < p ==> out@[q] <= x,
                p < out@.len() ==> out@[p as int] > x,
            decreases out@.len() - p,
        {
            if out[p] > x {
                break;
            }
            p = p + 1;
        }
        let ghost before = out@;
        out.insert(p, x);
        assert forall|a: int, b: int| 0 <= a < b < out@.len() implies out@[a] <= out@[b] by {
            if b < p {
            } else if a < p && b == p {
            } else if a < p && b > p {
                assert(out@[b] == before[b - 1]);
                assert(before[p as int] > x);
            } else if a == p {
                assert(out@[b] == before[b - 1]);
                assert(before[p as int] > x);
                if b - 1 > p {
                    assert(before[p as int] <= before[b - 1]);
                }
            } else {
                assert(out@[a] == before[a - 1]);
                assert(out@[b] == before[b - 1]);
            }
        }
        assert(xs@.take(i + 1) == xs@.take(i as int).push(x));
        proof {
            vstd::seq_lib::to_multiset_insert(before, p as int, x);
            vstd::seq_lib::to_multiset_build(xs@.take(i as int), x);
        }
        i = i + 1;
    }
    assert(xs@.take(xs@.len() as int) == xs@);
    out
}

/// `r` is the p99 of `xs`: zero for none, the largest of fewer than 100,
/// otherwise the value at rank `ceil(99 n / 100) - 1` in ascending order.
pub open spec fn p99_of(xs: Seq<i128>, r: i128) -> bool {
    &&& xs.len() == 0 ==> r == 0
    &&& xs.len() > 0 ==> exists|s: Seq<i128>|
        s.to_multiset() == xs.to_multiset() && ascending(s) && r == if s.len() < 100 {
            s.last()
        } else {
            s[p99_index(s.len())]
        }
}

/// The largest value, or zero when none is larger.
pub open spec fn max_or0(xs: Seq<i128>) -> i128
    decreases xs.len(),
{
    if xs.len() == 0 {
        0
    } else {
        let m = max_or0(xs.drop_last());
        if xs.last() > m {
            xs.last()
        } else {
            m
        }
    }
}

/// The p99 of collective durations: under 100 values the largest; none gives
/// zero. Otherwise the value at rank `ceil(99 n / 100) - 1` in ascending order.
pub fn tail_p99_ps(xs: Vec<i128>) -> (r: i128)
    ensures
        p99_of(xs@, r),
        xs@.len() == 0 ==> r == 0,
        xs@.len() > 0 ==> exists|s: Seq<i128>|
            s.to_multiset() == xs@.to_multiset() && ascending(s) && r == if s.len() < 100 {
                s.last()
            } else {
                s[p99_index(s.len())]
            },
{
    if xs.len() == 0 {
        return 0;
    }
    let s = sorted_copy(&xs);
    proof {
        vstd::seq_lib::to_multiset_len(s@);
        vstd::seq_lib::to_multiset_len(xs@);
    }
    let n = s.len();
    if n < 100 {
        return s[n - 1];
    }
    let c: u128 = ((n as u128) * 99 + 99) / 100;
    let idx: u128 = if c >= 1 {
        c - 1
    } else {
        0
    };
    let idx: usize = if idx < (n - 1) as u128 {
        idx as usize
    } else {
        n - 1
    };
    assert(idx == p99_index(n as nat));
    s[idx]
}

} // verus!
