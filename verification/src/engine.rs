//! The run: a discrete-event loop over the future-event list. Jobs arrive and
//! are admitted or rejected, step through compute and collectives whose flows
//! cross the fabric, and leave; failures open a new epoch. The run records
//! trace rows and admission records and ends with the report.
#![allow(non_snake_case)]
use vstd::prelude::*;
use std::collections::BTreeMap;

use crate::fel::{Event, Fel};
use crate::epoch::{i2_broken, i3_broken, FailSpec};
use crate::mix::Mix;
use crate::naive::naive_admit;
use crate::prepare::{prepare, plan_sound, EpochPlan, Reroute};
use crate::kernel::{begin_step, end_step, drop_occ, release_job, commit_table, live_in_admit_order, summarize_jobs, mean_util_ppm};
use crate::schedule::schedule_collective;
use crate::report::{tail_p99_ps, us_of, Metrics, Report, TopoSummary, HOTSPOT_THRESHOLD_PPM, empty_rejects};
use crate::trace::{link_offer, FlowRow};
use crate::types::{EpochId, LinkId, SimTime};
use crate::kernel::{after_step, load_of};
use crate::residual::{cir_at, cir_injected, inj_val, spec_admissible};
use crate::arith::sat_sub_i128;
use crate::kernel::{LinkClock, RunError};
use crate::mix::JobSpec;
use crate::prepare::table_wf;
use crate::report::{Counts, FailRecord};
use crate::residual::Residual;
use crate::schedule::LiveFlow;
use crate::table::JobTable;
use crate::text::push_decimal;
use crate::topo::{graph_wf, Graph};
use crate::trace::{ps_i64, EventRow, LinkRow, TraceBook};
use crate::arith::{clamp_i128, sat_add_i128};
use crate::cli_text::{chars_of, is_word};
use crate::kernel::{advance_links, inflight_load};
use crate::paths::copy_path;
use crate::table::{sorted_map_keys, Flow, JobRec};
use crate::schedule::{group_of, sorted_keys};
use crate::paths::Path;
use crate::waterfill::water_fill;
use crate::kernel::{admit_b_eff, min_positive, scale_live};
use crate::trace::{spec_ps_i64, count_word, decisions_of, kinds_of, JobRow as TraceJob};
use crate::types::{spec_event_kind_name, spec_matches_payload, spec_is_fail, spec_reject_name, BindingKind, EventKind, EventPayload, JobId, JobState, Policy, RecomputeReason, RejectCode};

verus! {

broadcast use vstd::std_specs::btree::group_btree_axioms;

/// A scheduled flow and whether it is on the wire.
#[derive(Clone, Debug)]
pub struct Flight {
    pub id: u64,
    pub flow: LiveFlow,
    pub inflight: bool,
}

/// One link a job committed rate on, as the admission record shows it.
#[derive(Copy, Clone, Debug)]
pub struct AdmitLink {
    pub link_id: u32,
    pub c_Bps: u64,
    pub cir_Bps: u64,
    pub r_avail_Bps: u64,
    pub rho_job: u64,
}

/// What the admission log records of one arrival.
#[derive(Clone, Debug)]
pub struct AdmitRecord {
    pub job_id: u32,
    pub admit_seq: Option<u64>,
    pub ok: bool,
    pub reject: Option<RejectCode>,
    pub free_at_arrive: u64,
    pub gpu_ids: Vec<u32>,
    pub map: Vec<(u32, u32)>,
    pub binding_kind: Option<BindingKind>,
    pub t_pred_ps: i128,
    pub deadline_ps: i128,
    pub per_link: Vec<AdmitLink>,
    pub waterfill: Vec<u64>,
    pub b_eff_Bps: u64,
}

/// The admission log's row for one link of a record: the job's commitment
/// there, the link's capacity (zero when unknown), and the link's
/// commitments and available rate after admission (zero past the tables).
pub open spec fn link_row_of(x: AdmitLink, rec: JobRec, graph: &Graph, residual: &Residual) -> bool {
    &&& rec.cir@.contains_key(x.link_id)
    &&& x.rho_job == rec.cir@[x.link_id]
    &&& x.c_Bps == (match crate::topo::spec_link(graph, LinkId(x.link_id)) {
        Some(l) => l.capacity_Bps,
        None => 0,
    })
    &&& x.cir_Bps == cir_at(residual.cir@, x.link_id as int)
    &&& x.r_avail_Bps == cir_at(residual.r_avail@, x.link_id as int)
}

/// The sizes the run's arithmetic relies on.
pub open spec fn graph_fits(g: &Graph) -> bool {
    &&& g.links@.len() < u32::MAX
    &&& g.leaves@.len() <= u32::MAX
    &&& g.gpus@.len() <= u32::MAX
    &&& g.params.nodes * g.params.gpus_per_node <= u32::MAX + 1
    &&& g.params.nodes * g.params.rails <= u32::MAX
    &&& g.leaves@.len() * g.params.up <= u32::MAX
    &&& g.leaves@.len() * g.params.up * g.params.port_speed_gbps <= u64::MAX
}

/// Whether the graph is within the sizes the run handles.
pub fn fits(g: &Graph) -> (r: bool)
    ensures
        r == graph_fits(g),
{
    let nl = g.links.len() as u128;
    let nv = g.leaves.len() as u128;
    let ng = g.gpus.len() as u128;
    let nodes = g.params.nodes as u128;
    let per = g.params.gpus_per_node as u128;
    let rails = g.params.rails as u128;
    let up = g.params.up as u128;
    let speed = g.params.port_speed_gbps as u128;
    if !(nl < u32::MAX as u128 && nv <= u32::MAX as u128 && ng <= u32::MAX as u128) {
        return false;
    }
    assert(nodes * per <= u64::MAX) by (nonlinear_arith)
        requires
            nodes <= u32::MAX,
            per <= u32::MAX,
    ;
    assert(nodes * rails <= u64::MAX) by (nonlinear_arith)
        requires
            nodes <= u32::MAX,
            rails <= u32::MAX,
    ;
    assert(nv * up <= u64::MAX) by (nonlinear_arith)
        requires
            nv <= u32::MAX,
            up <= u32::MAX,
    ;
    let vu = nv * up;
    assert(vu * speed <= u128::MAX) by (nonlinear_arith)
        requires
            vu <= u64::MAX,
            speed <= u32::MAX,
    ;
    nodes * per <= u32::MAX as u128 + 1 && nodes * rails <= u32::MAX as u128 && vu <= u32::MAX as u128 && vu
        * speed <= u64::MAX as u128
}

/// A job whose shape naive admission can place.
pub open spec fn spec_placeable(j: JobSpec) -> bool {
    &&& (j.pp as int) * (j.dp as int) * (j.tp as int) == j.gpu_count
    &&& j.dp >= 1 ==> 2 * (j.dp - 1) <= u32::MAX
}

pub fn placeable(j: &JobSpec) -> (r: bool)
    ensures
        r == spec_placeable(*j),
{
    let a = j.pp as u128;
    let b = j.dp as u128;
    let c = j.tp as u128;
    assert(a * b <= u64::MAX) by (nonlinear_arith)
        requires
            a <= u32::MAX,
            b <= u32::MAX,
    ;
    let ab = a * b;
    assert(ab * c <= u128::MAX) by (nonlinear_arith)
        requires
            ab <= u64::MAX,
            c <= u32::MAX,
    ;
    ab * c == j.gpu_count as u128 && (j.dp == 0 || 2 * ((j.dp - 1) as u128) <= u32::MAX as u128)
}

/// Every spec sits under its own id and is placeable.
pub open spec fn specs_ok(m: Map<u32, JobSpec>) -> bool {
    forall|id: u32| #[trigger] m.contains_key(id) ==> m[id].id.0 == id && spec_placeable(m[id])
}

/// No failed link has carried bytes this epoch.
pub open spec fn dead_links_idle(g: &Graph, bytes: Seq<u64>) -> bool {
    forall|i: int| 0 <= i < g.links@.len() && (#[trigger] g.links@[i]).failed ==> bytes[i] == 0
}

/// Flights come in increasing id order, every id below the next to give.
pub open spec fn flights_ordered(fl: Seq<Flight>, next: u64) -> bool {
    &&& forall|a: int, b: int| 0 <= a < b < fl.len() ==> (#[trigger] fl[a]).id < (#[trigger] fl[b]).id
    &&& forall|k: int| 0 <= k < fl.len() ==> (#[trigger] fl[k]).id < next
}

/// Every pending event's payload belongs to its kind.
pub open spec fn fel_ok(f: &Fel) -> bool {
    forall|i: int| 0 <= i < f@.len() ==> spec_matches_payload(#[trigger] f@[i].kind, f@[i].payload)
}

/// Every pending arrival names a job of the mix.
pub open spec fn arrivals_known(f: &Fel, specs: Map<u32, JobSpec>) -> bool {
    forall|i: int|
        0 <= i < f@.len() ==> ((#[trigger] f@[i]).payload matches EventPayload::JobArrive { job } ==> specs.contains_key(
            job.0,
        ))
}

/// The arrival events of `s` that come before time `t`.
pub open spec fn arrivals_before(s: Seq<Event>, t: SimTime) -> nat
    decreases s.len(),
{
    if s.len() == 0 {
        0
    } else {
        arrivals_before(s.drop_last(), t) + if s.last().kind is JobArrive && crate::types::time_lt(s.last().t, t) {
            1nat
        } else {
            0nat
        }
    }
}

/// The job an event announces, when it is an arrival before time `t`.
pub open spec fn arrival_id(e: Event, t: SimTime) -> Set<u32> {
    if e.kind is JobArrive && crate::types::time_lt(e.t, t) {
        match e.payload {
            EventPayload::JobArrive { job } => set![job.0],
            _ => Set::empty(),
        }
    } else {
        Set::empty()
    }
}

/// The jobs announced by the arrival events of `s` that come before `t`.
pub open spec fn arrival_ids_before(s: Seq<Event>, t: SimTime) -> Set<u32>
    decreases s.len(),
{
    if s.len() == 0 {
        Set::empty()
    } else {
        arrival_ids_before(s.drop_last(), t).union(arrival_id(s.last(), t))
    }
}

/// From event list `a` to `b` no arrival came or went, and the horizon cuts
/// are the same.
pub open spec fn arrivals_kept(a: Seq<Event>, b: Seq<Event>) -> bool {
    &&& forall|t: SimTime| #[trigger] arrivals_before(b, t) == arrivals_before(a, t)
    &&& forall|t: SimTime| #[trigger] arrival_ids_before(b, t) == arrival_ids_before(a, t)
    &&& forall|e: Event|
        #![trigger a.contains(e)]
        #![trigger b.contains(e)]
        e.kind is HorizonCut ==> (b.contains(e) <==> a.contains(e))
}

/// What a step of the run never changes: the run's settings, the mix, the
/// fabric's shape, the pending arrivals and the horizon cut.
pub open spec fn same_setup(a: &Kernel, b: &Kernel) -> bool {
    &&& same_run(a, b)
    &&& arrivals_kept(a.fel@, b.fel@)
}

/// The run's settings, its mix and its fabric's shape agree, and the epoch
/// moved on once per failure batch logged in between.
pub open spec fn same_run(a: &Kernel, b: &Kernel) -> bool {
    &&& same_shape(a, b)
    &&& b.fail_log@.len() >= a.fail_log@.len()
    &&& b.graph.epoch.0 == epoch_after(a.graph.epoch.0, b.fail_log@.len() - a.fail_log@.len())
}

/// The run's settings, its mix and its fabric's shape agree.
pub open spec fn same_shape(a: &Kernel, b: &Kernel) -> bool {
    &&& b.seed == a.seed
    &&& b.policy == a.policy
    &&& b.mix_hash == a.mix_hash
    &&& b.topo_hash == a.topo_hash
    &&& b.horizon_ps == a.horizon_ps
    &&& b.specs@ == a.specs@
    &&& b.graph.params == a.graph.params
    &&& b.graph.gpus@.len() == a.graph.gpus@.len()
    &&& b.graph.leaves@.len() == a.graph.leaves@.len()
    &&& b.graph.spines@.len() == a.graph.spines@.len()
}

/// The epoch `n` commits after `e`, held at the largest.
pub open spec fn epoch_after(e: u32, n: int) -> u32 {
    if e + n <= u32::MAX {
        (e + n) as u32
    } else {
        u32::MAX
    }
}

/// Arrivals before a time add up over a concatenation.
pub proof fn lemma_arrivals_split(a: Seq<Event>, b: Seq<Event>, t: SimTime)
    ensures
        arrivals_before(a + b, t) == arrivals_before(a, t) + arrivals_before(b, t),
    decreases b.len(),
{
    if b.len() == 0 {
        assert(a + b =~= a);
    } else {
        lemma_arrivals_split(a, b.drop_last(), t);
        assert((a + b).drop_last() =~= a + b.drop_last());
    }
}

/// Announced jobs gather over a concatenation.
pub proof fn lemma_ids_split(a: Seq<Event>, b: Seq<Event>, t: SimTime)
    ensures
        arrival_ids_before(a + b, t) == arrival_ids_before(a, t).union(arrival_ids_before(b, t)),
    decreases b.len(),
{
    if b.len() == 0 {
        assert(a + b =~= a);
        assert(arrival_ids_before(a, t).union(Set::empty()) =~= arrival_ids_before(a, t));
    } else {
        lemma_ids_split(a, b.drop_last(), t);
        assert((a + b).drop_last() =~= a + b.drop_last());
        assert(arrival_ids_before(a + b, t) =~= arrival_ids_before(a, t).union(arrival_ids_before(b, t)));
    }
}

/// The jobs announced by one event.
pub proof fn lemma_ids_one(e: Event, t: SimTime)
    ensures
        arrival_ids_before(seq![e], t) == arrival_id(e, t),
{
    assert(seq![e].drop_last() =~= Seq::<Event>::empty());
    reveal_with_fuel(arrival_ids_before, 2);
    assert(Set::<u32>::empty().union(arrival_id(e, t)) =~= arrival_id(e, t));
}

/// Announced jobs, gathered from the front.
pub proof fn lemma_ids_first(s: Seq<Event>, t: SimTime)
    requires
        s.len() > 0,
    ensures
        arrival_ids_before(s, t) == arrival_id(s[0], t).union(arrival_ids_before(s.drop_first(), t)),
{
    assert(s =~= seq![s[0]] + s.drop_first());
    lemma_ids_split(seq![s[0]], s.drop_first(), t);
    lemma_ids_one(s[0], t);
}

/// Inserting an event adds the job it announces before `t`.
pub proof fn lemma_ids_insert(s: Seq<Event>, pos: int, e: Event, t: SimTime)
    requires
        0 <= pos <= s.len(),
    ensures
        arrival_ids_before(s.insert(pos, e), t) == arrival_ids_before(s, t).union(arrival_id(e, t)),
{
    assert(s.insert(pos, e) =~= s.take(pos) + (seq![e] + s.skip(pos)));
    assert(s =~= s.take(pos) + s.skip(pos));
    lemma_ids_split(s.take(pos), seq![e] + s.skip(pos), t);
    lemma_ids_split(seq![e], s.skip(pos), t);
    lemma_ids_split(s.take(pos), s.skip(pos), t);
    lemma_ids_one(e, t);
    assert(arrival_ids_before(s.insert(pos, e), t) =~= arrival_ids_before(s, t).union(arrival_id(e, t)));
}

/// No event before a time: no job announced before it.
pub proof fn lemma_ids_none(s: Seq<Event>, t: SimTime)
    requires
        forall|i: int| 0 <= i < s.len() ==> !crate::types::time_lt(#[trigger] s[i].t, t),
    ensures
        arrival_ids_before(s, t) == Set::<u32>::empty(),
    decreases s.len(),
{
    if s.len() > 0 {
        lemma_ids_none(s.drop_last(), t);
        assert(!crate::types::time_lt(s[s.len() - 1].t, t));
        assert(arrival_ids_before(s, t) =~= Set::<u32>::empty());
    }
}

/// Dropping failure events keeps the jobs announced before every time.
pub proof fn lemma_ids_filter_fails(s: Seq<Event>, t: SimTime)
    ensures
        arrival_ids_before(s.filter(|e: Event| !spec_is_fail(e.kind)), t) == arrival_ids_before(s, t),
    decreases s.len(),
{
    reveal(Seq::filter);
    if s.len() > 0 {
        lemma_ids_filter_fails(s.drop_last(), t);
        let f = s.drop_last().filter(|e: Event| !spec_is_fail(e.kind));
        if !spec_is_fail(s.last().kind) {
            assert(f.push(s.last()).drop_last() =~= f);
        } else {
            assert(arrival_id(s.last(), t) =~= Set::<u32>::empty());
            assert(arrival_ids_before(s, t) =~= arrival_ids_before(s.drop_last(), t));
        }
    }
}

/// Arrivals before a time, counted from the front.
pub proof fn lemma_arrivals_first(s: Seq<Event>, t: SimTime)
    requires
        s.len() > 0,
    ensures
        arrivals_before(s, t) == arrivals_before(s.drop_first(), t) + if s[0].kind is JobArrive && crate::types::time_lt(
            s[0].t,
            t,
        ) {
            1nat
        } else {
            0nat
        },
{
    assert(s =~= seq![s[0]] + s.drop_first());
    lemma_arrivals_split(seq![s[0]], s.drop_first(), t);
    assert(seq![s[0]].drop_last() =~= Seq::<Event>::empty());
    reveal_with_fuel(arrivals_before, 2);
}

/// No event before a time: no arrival before it.
pub proof fn lemma_arrivals_none(s: Seq<Event>, t: SimTime)
    requires
        forall|i: int| 0 <= i < s.len() ==> !crate::types::time_lt(#[trigger] s[i].t, t),
    ensures
        arrivals_before(s, t) == 0,
    decreases s.len(),
{
    if s.len() > 0 {
        lemma_arrivals_none(s.drop_last(), t);
        assert(!crate::types::time_lt(s[s.len() - 1].t, t));
    }
}

/// Inserting an event adds it to the arrivals before each time it precedes.
pub proof fn lemma_arrivals_insert(s: Seq<Event>, pos: int, e: Event, t: SimTime)
    requires
        0 <= pos <= s.len(),
    ensures
        arrivals_before(s.insert(pos, e), t) == arrivals_before(s, t) + if e.kind is JobArrive && crate::types::time_lt(
            e.t,
            t,
        ) {
            1nat
        } else {
            0nat
        },
{
    assert(s.insert(pos, e) =~= s.take(pos) + (seq![e] + s.skip(pos)));
    assert(s =~= s.take(pos) + s.skip(pos));
    lemma_arrivals_split(s.take(pos), seq![e] + s.skip(pos), t);
    lemma_arrivals_split(seq![e], s.skip(pos), t);
    lemma_arrivals_split(s.take(pos), s.skip(pos), t);
    assert(seq![e].drop_last() =~= Seq::<Event>::empty());
    reveal_with_fuel(arrivals_before, 2);
}

/// Inserting an event changes no membership but its own.
pub proof fn lemma_insert_member(s: Seq<Event>, pos: int, e: Event, x: Event)
    requires
        0 <= pos <= s.len(),
        x != e,
    ensures
        s.insert(pos, e).contains(x) <==> s.contains(x),
{
    let t = s.insert(pos, e);
    if s.contains(x) {
        let i = choose|i: int| 0 <= i < s.len() && s[i] == x;
        if i < pos {
            assert(t[i] == x);
        } else {
            assert(t[i + 1] == x);
        }
    }
    if t.contains(x) {
        let i = choose|i: int| 0 <= i < t.len() && t[i] == x;
        if i < pos {
            assert(s[i] == x);
        } else if i > pos {
            assert(s[i - 1] == x);
        }
    }
}

/// Inserting anything but an arrival or a horizon cut keeps the arrivals and
/// the cuts.
pub proof fn lemma_insert_kept(s: Seq<Event>, pos: int, e: Event)
    requires
        0 <= pos <= s.len(),
        !(e.kind is JobArrive),
        !(e.kind is HorizonCut),
    ensures
        arrivals_kept(s, s.insert(pos, e)),
{
    assert forall|t: SimTime| #[trigger] arrivals_before(s.insert(pos, e), t) == arrivals_before(s, t) by {
        lemma_arrivals_insert(s, pos, e, t);
    }
    assert forall|t: SimTime| #[trigger] arrival_ids_before(s.insert(pos, e), t) == arrival_ids_before(s, t) by {
        lemma_ids_insert(s, pos, e, t);
        assert(arrival_ids_before(s, t).union(arrival_id(e, t)) =~= arrival_ids_before(s, t));
    }
    assert forall|x: Event| x.kind is HorizonCut implies (s.insert(pos, e).contains(x) <==> s.contains(x)) by {
        lemma_insert_member(s, pos, e, x);
    }
}

/// Dropping failure events keeps the arrivals before every time.
pub proof fn lemma_arrivals_filter_fails(s: Seq<Event>, t: SimTime)
    ensures
        arrivals_before(s.filter(|e: Event| !spec_is_fail(e.kind)), t) == arrivals_before(s, t),
    decreases s.len(),
{
    reveal(Seq::filter);
    if s.len() > 0 {
        lemma_arrivals_filter_fails(s.drop_last(), t);
        let f = s.drop_last().filter(|e: Event| !spec_is_fail(e.kind));
        if !spec_is_fail(s.last().kind) {
            assert(f.push(s.last()).drop_last() =~= f);
        }
    }
}

/// Room left in the event list: unused sequence numbers plus pending events.
/// Every step of the run lowers it.
pub open spec fn fel_budget(f: &Fel) -> int {
    (u64::MAX - f.next_seq_spec()) + f@.len()
}

/// Adding a word to a list adds one to its count exactly when it is the word.
pub proof fn lemma_count_push(s: Seq<Seq<char>>, x: Seq<char>, w: Seq<char>)
    ensures
        count_word(s.push(x), w) == count_word(s, w) + if x == w {
            1int
        } else {
            0int
        },
{
    assert(s.push(x).drop_last() =~= s);
}

/// Only an arrival is named `JobArrive`.
pub proof fn lemma_arrive_name(k: EventKind)
    ensures
        (spec_event_kind_name(k) == "JobArrive"@) <==> (k is JobArrive),
{
    reveal_strlit("JobArrive");
    reveal_strlit("StepBoundary");
    reveal_strlit("CollectiveStart");
    reveal_strlit("CollectiveEnd");
    reveal_strlit("FlowArrive");
    reveal_strlit("FlowDepart");
    reveal_strlit("RateRecompute");
    reveal_strlit("LinkFail");
    reveal_strlit("LeafFail");
    reveal_strlit("RailFail");
    reveal_strlit("SpineFail");
    reveal_strlit("DrainComplete");
    reveal_strlit("EpochAdvance");
    reveal_strlit("HorizonCut");
    if !(k is JobArrive) {
        assert(spec_event_kind_name(k)[0] != "JobArrive"@[0]);
    }
}

/// The invariant names and the preparation failure differ from `I2` and `I3`.
pub proof fn lemma_inv_names()
    ensures
        "I1"@ != "I2"@,
        "I3"@ != "I2"@,
        "I1"@ != "I3"@,
        spec_reject_name(RejectCode::EpochPrepareFailed) != "I2"@,
        spec_reject_name(RejectCode::EpochPrepareFailed) != "I3"@,
{
    reveal_strlit("I1");
    reveal_strlit("I2");
    reveal_strlit("I3");
    reveal_strlit("EpochPrepareFailed");
    assert("I1"@[1] != "I2"@[1]);
    assert("I3"@[1] != "I2"@[1]);
    assert("I1"@[1] != "I3"@[1]);
    assert(spec_reject_name(RejectCode::EpochPrepareFailed)[0] != "I2"@[0]);
    assert(spec_reject_name(RejectCode::EpochPrepareFailed)[0] != "I3"@[0]);
}

/// The job-row words are distinct.
pub proof fn lemma_decision_words()
    ensures
        "kill"@ != "admit"@,
        "reject"@ != "admit"@,
        "reject"@ != "kill"@,
{
    reveal_strlit("kill");
    reveal_strlit("admit");
    reveal_strlit("reject");
    assert("kill"@[0] != "admit"@[0]);
    assert("reject"@[0] != "admit"@[0]);
    assert("reject"@[0] != "kill"@[0]);
}

/// The run's state.
pub struct Kernel {
    pub graph: Graph,
    pub residual: Residual,
    pub table: JobTable,
    pub fel: Fel,
    pub traces: TraceBook,
    pub specs: BTreeMap<u32, JobSpec>,
    /// Flows scheduled and not yet departed, by increasing id.
    pub flights: Vec<Flight>,
    pub next_flow: u64,
    pub now: i128,
    pub recompute_at: Option<i128>,
    pub need_cir_replay: bool,
    pub strict: bool,
    pub clock: LinkClock,
    pub bytes_epoch: Vec<u64>,
    pub last_periodic_ps: i128,
    pub snap_period_ps: i128,
    pub disrupted_ps: i128,
    pub invariants_ok: bool,
    pub collective_start: BTreeMap<u32, i128>,
    pub collective_durs: Vec<i128>,
    pub job_slo_ok: BTreeMap<u32, bool>,
    pub job_exit: BTreeMap<u32, i128>,
    pub job_slo_miss_ps: i128,
    pub counts: Counts,
    pub rejects_by_code: Vec<(String, u64)>,
    pub seed: u64,
    pub policy: Policy,
    pub mix_hash: String,
    pub topo_hash: String,
    pub horizon_ps: i128,
    pub pending_end_seq: BTreeMap<u32, u64>,
    pub fail_log: Vec<FailRecord>,
    pub event_trace: Vec<(String, u32)>,
    pub admits: Vec<AdmitRecord>,
    /// Set when an event could not be scheduled: the sequence numbers ran out.
    pub exhausted: bool,
}

impl Kernel {
    /// The tables agree with the graph and with each other, and the
    /// counters with the trace rows: arrivals with `JobArrive` event rows,
    /// admits and rejects with the admission log, kills and completions
    /// with `kill` and `admit` job rows.
    pub open spec fn wf(&self) -> bool {
        &&& self.wf_core()
        &&& self.counts.arrivals == count_word(kinds_of(self.traces.events@), "JobArrive"@)
    }

    /// Everything `wf` holds but the arrival count.
    pub open spec fn wf_core(&self) -> bool {
        &&& fel_ok(&self.fel)
        &&& arrivals_known(&self.fel, self.specs@)
        &&& (self.exhausted || self.counts.admits + self.counts.rejects == self.counts.arrivals)
        &&& self.counts.admits == self.traces.admit_ok
        &&& self.counts.rejects == self.traces.admit_reject
        &&& self.counts.kills == count_word(decisions_of(self.traces.jobs@), "kill"@)
        &&& self.counts.completes == count_word(decisions_of(self.traces.jobs@), "admit"@)
        &&& graph_wf(&self.graph)
        &&& graph_fits(&self.graph)
        &&& self.residual.consistent(&self.graph)
        &&& table_wf(&self.table)
        &&& specs_ok(self.specs@)
        &&& self.clock.q_bytes@.len() == self.graph.links@.len()
        &&& self.clock.overflowed@.len() == self.graph.links@.len()
        &&& self.clock.rate_dt@.len() == self.graph.links@.len()
        &&& forall|i: int| 0 <= i < self.clock.rate_dt@.len() ==> #[trigger] self.clock.rate_dt@[i] >= 0
        &&& self.clock.hotspot_ps >= 0
        &&& self.bytes_epoch@.len() == self.graph.links@.len()
        &&& dead_links_idle(&self.graph, self.bytes_epoch@)
        &&& flights_ordered(self.flights@, self.next_flow)
        &&& self.traces.wf()
        &&& self.snap_period_ps > 0
        &&& self.now >= 0
    }
}

/// The flows on the wire, as flows.
pub open spec fn wire_flows(fl: Seq<Flight>) -> Seq<LiveFlow> {
    on_wire(fl).map_values(|f: Flight| f.flow)
}

/// Some link carries more than its capacity from the flows on the wire.
pub open spec fn i1_load_breach(k: &Kernel) -> bool {
    exists|i: int|
        #![trigger k.graph.links@[i]]
        0 <= i < k.graph.links@.len() && load_of(k.graph.links@.len(), wire_flows(k.flights@))[i] > k.graph.links@[i].capacity_Bps
}

/// Capacity is exceeded: by the load on the wire, or, under the joint
/// policy, by a link's commitments above its admissible rate.
pub open spec fn i1_breach(k: &Kernel) -> bool {
    ||| i1_load_breach(k)
    ||| (k.policy is Joint && exists|i: int|
        #![trigger k.graph.links@[i]]
        0 <= i < k.graph.links@.len() && cir_at(k.residual.cir@, i) > spec_admissible(&k.graph, k.graph.links@[i].id))
}

/// Loads depend on the flows' routes and rates alone.
proof fn lemma_load_same(n: nat, a: Seq<LiveFlow>, b: Seq<LiveFlow>)
    requires
        a.len() == b.len(),
        forall|k: int| 0 <= k < a.len() ==> (#[trigger] a[k]).path.links@ == b[k].path.links@ && a[k].rate_Bps == b[k].rate_Bps,
    ensures
        load_of(n, a) == load_of(n, b),
    decreases a.len(),
{
    if a.len() > 0 {
        assert forall|k: int| 0 <= k < a.drop_last().len() implies (#[trigger] a.drop_last()[k]).path.links@ == b.drop_last()[k].path.links@
            && a.drop_last()[k].rate_Bps == b.drop_last()[k].rate_Bps by {
            assert(a.drop_last()[k] == a[k] && b.drop_last()[k] == b[k]);
        }
        lemma_load_same(n, a.drop_last(), b.drop_last());
        assert(a.last() == a[a.len() - 1] && b.last() == b[b.len() - 1]);
    }
}

/// What commitments are replayed against: the admissible rates left under
/// the joint policy, the physical leftover under the naive one.
pub open spec fn leftover_of(k: &Kernel) -> Seq<u64> {
    if k.policy is Joint {
        k.residual.r_avail@
    } else {
        Seq::new(
            k.graph.links@.len(),
            |i: int| crate::residual::spec_physical(k.graph.links@[i], cir_at(k.residual.cir@, k.graph.links@[i].id.0 as int)),
        )
    }
}

/// `b` is `a` with its flows' rates filled again group by group over
/// `leftover`, and its commitments those of the fill.
pub open spec fn refilled(a: JobRec, b: JobRec, leftover: Seq<u64>) -> bool {
    &&& b == (JobRec { planned: b.planned, cir: b.cir, ..a })
    &&& b.planned@.len() == a.planned@.len()
    &&& forall|k: int| 0 <= k < a.planned@.len() ==> same_but_rate(#[trigger] b.planned@[k], a.planned@[k])
    &&& forall|c: u32, p: u32| #[trigger] crate::schedule::has_key(a.planned@, (c, p)) ==> group_filled(b.planned@, c, p, leftover)
    &&& forall|e: u32| #[trigger] b.cir@.contains_key(e) ==> b.cir@[e] > 0
}

/// The commitment on link `i` in a record's table, zero when it has none.
pub open spec fn cir_entry(c: Map<u32, u64>, i: int) -> u64 {
    if 0 <= i <= u32::MAX && c.contains_key(i as u32) && c[i as u32] > 0 {
        c[i as u32]
    } else {
        0
    }
}

/// The commitments the listed jobs hold on link `i`, added in list order
/// (saturating).
pub open spec fn cir_total(m: Map<u32, JobRec>, ids: Seq<u32>, i: int) -> u64
    decreases ids.len(),
{
    if ids.len() == 0 {
        0
    } else {
        crate::residual::sat_add(cir_total(m, ids.drop_last(), i), cir_entry(m[ids.last()].cir@, i))
    }
}

proof fn lemma_cir_total_insert(m: Map<u32, JobRec>, x: u32, r: JobRec, ids: Seq<u32>, i: int)
    requires
        !ids.contains(x),
    ensures
        cir_total(m.insert(x, r), ids, i) == cir_total(m, ids, i),
    decreases ids.len(),
{
    if ids.len() > 0 {
        assert(ids.drop_last().contains(x) ==> ids.contains(x)) by {
            if ids.drop_last().contains(x) {
                let j = choose|j: int| 0 <= j < ids.drop_last().len() && ids.drop_last()[j] == x;
                assert(ids[j] == x);
            }
        }
        lemma_cir_total_insert(m, x, r, ids.drop_last(), i);
        assert(ids.last() != x) by {
            assert(ids[ids.len() - 1] == ids.last());
        }
    }
}

/// `pos` lists, in increasing order, exactly the positions of the flights
/// on the wire.
pub open spec fn wire_positions(fl: Seq<Flight>, pos: Seq<int>) -> bool {
    &&& forall|q: int| 0 <= q < pos.len() ==> 0 <= #[trigger] pos[q] < fl.len() && fl[pos[q]].inflight
    &&& forall|a: int, b: int| 0 <= a < b < pos.len() ==> (#[trigger] pos[a]) < (#[trigger] pos[b])
    &&& forall|j: int| 0 <= j < fl.len() && (#[trigger] fl[j]).inflight ==> exists|q: int| 0 <= q < pos.len() && pos[q] == j
}

/// The flights at `pos`, the ones on the wire, carry the rates that
/// `base` scaled down for up to eight rounds gives, where `base` is a
/// feasible fill (each flow at least one unit) over the live capacities, or
/// all zero, and `ps` holds their routes.
pub open spec fn realized_by(
    old: Seq<Flight>,
    new: Seq<Flight>,
    links: Seq<crate::topo::Link>,
    pos: Seq<int>,
    ps: Seq<Path>,
    base: Seq<u64>,
) -> bool {
    &&& wire_positions(old, pos)
    &&& ps.len() == pos.len()
    &&& forall|q: int| 0 <= q < pos.len() ==> (#[trigger] ps[q]).links@ == old[pos[q]].flow.path.links@
    &&& base.len() == pos.len()
    &&& (forall|f: int| 0 <= f < base.len() ==> #[trigger] base[f] == 0) || ((forall|f: int|
        0 <= f < base.len() ==> #[trigger] base[f] >= 1) && crate::waterfill::feasible(
        crate::paths::paths_view(ps),
        base,
        live_capacity(links),
    ))
    &&& forall|q: int| 0 <= q < pos.len() ==> new[#[trigger] pos[q]].flow.rate_Bps == crate::kernel::scale_rounds(links, ps, base, 8)[q]
}

/// Room for `n` more flows: neither flow ids nor event numbers run out.
pub open spec fn room_for(k: &Kernel, n: int) -> bool {
    &&& k.next_flow + n < u64::MAX
    &&& k.fel.next_seq_spec() + 2 * n + 1 < u64::MAX
}

/// Two flows alike in every field (routes compared by their links).
pub open spec fn same_live(a: LiveFlow, b: LiveFlow) -> bool {
    &&& a.job == b.job
    &&& a.phase == b.phase
    &&& a.src == b.src
    &&& a.dst == b.dst
    &&& a.path.links@ == b.path.links@
    &&& a.rate_Bps == b.rate_Bps
    &&& a.bytes == b.bytes
    &&& a.t_arrive_ps == b.t_arrive_ps
    &&& a.t_depart_ps == b.t_depart_ps
}

/// The list holds flow `id`'s arrival and departure, at the flow's times,
/// under sequence numbers `seq` and `seq + 1`.
pub open spec fn flow_events(fel: Seq<Event>, id: u64, seq: int, f: LiveFlow) -> bool {
    &&& fel.contains(
        Event {
            t: SimTime { ps: f.t_arrive_ps, seq: seq as u64 },
            kind: EventKind::FlowArrive,
            payload: EventPayload::FlowArrive { flow: crate::types::FlowId(id) },
        },
    )
    &&& fel.contains(
        Event {
            t: SimTime { ps: f.t_depart_ps, seq: (seq + 1) as u64 },
            kind: EventKind::FlowDepart,
            payload: EventPayload::FlowDepart { flow: crate::types::FlowId(id) },
        },
    )
}

/// `b` is `a` with the collective started: one flight per scheduled flow,
/// off the wire and numbered from `a.next_flow`, with its arrival and
/// departure on the list, and the collective's end on the list at `end`,
/// awaited under its sequence number.
pub open spec fn started(a: &Kernel, b: &Kernel, ps: Seq<LiveFlow>, end: i128, job: JobId, step: u32) -> bool {
    let n = ps.len() as int;
    let m = a.flights@.len() as int;
    let s0 = a.fel.next_seq_spec() as int;
    &&& b.flights@.len() == m + n
    &&& b.next_flow == a.next_flow + n
    &&& forall|i: int| m <= i < m + n ==> (#[trigger] b.flights@[i]).id == a.next_flow + (i - m)
    &&& forall|q: int|
        0 <= q < n ==> {
            &&& !b.flights@[m + q].inflight
            &&& same_live(b.flights@[m + q].flow, #[trigger] ps[q])
            &&& flow_events(b.fel@, (a.next_flow + q) as u64, s0 + 2 * q, ps[q])
        }
    &&& b.fel@.contains(
        Event {
            t: SimTime { ps: end, seq: (s0 + 2 * n) as u64 },
            kind: EventKind::CollectiveEnd,
            payload: EventPayload::CollectiveEnd { job, step },
        },
    )
    &&& b.pending_end_seq@[job.0] == (s0 + 2 * n) as u64
}

/// Putting an event in its place keeps what the list held and adds it.
proof fn lemma_insert_contains(s: Seq<Event>, pos: int, x: Event, y: Event)
    requires
        0 <= pos <= s.len(),
        s.contains(y) || y == x,
    ensures
        s.insert(pos, x).contains(y),
{
    let t = s.insert(pos, x);
    if y == x {
        assert(t[pos] == x);
    } else {
        let j = choose|j: int| 0 <= j < s.len() && s[j] == y;
        if j < pos {
            assert(t[j] == y);
        } else {
            assert(t[j + 1] == y);
        }
    }
}

/// The job exists and is not killed: its step can begin or end.
pub open spec fn can_step(t: &JobTable, job: JobId) -> bool {
    t.by_id@.contains_key(job.0) && t.by_id@[job.0].state != JobState::Killed
}

/// The job exists and is neither killed nor rejected: its collective runs.
pub open spec fn can_collect(t: &JobTable, job: JobId) -> bool {
    &&& t.by_id@.contains_key(job.0)
    &&& t.by_id@[job.0].state != JobState::Killed
    &&& t.by_id@[job.0].state != JobState::Rejected
}

/// `b` is `a` with the event put in its place under the next sequence
/// number, or `a` itself when no number is left.
pub open spec fn pushed_ev(a: Fel, b: Fel, ps: i128, kind: EventKind, payload: EventPayload) -> bool {
    if a.next_seq_spec() < u64::MAX {
        &&& b.next_seq_spec() == a.next_seq_spec() + 1
        &&& exists|pos: int|
            0 <= pos <= a@.len() && b@ == a@.insert(pos, Event { t: SimTime { ps, seq: a.next_seq_spec() }, kind, payload })
    } else {
        b == a
    }
}

/// Schedule an event, or mark the run exhausted when no sequence number is left.
fn push_ev(fel: &mut Fel, exhausted: &mut bool, ps: i128, kind: EventKind, payload: EventPayload)
    requires
        spec_matches_payload(kind, payload),
    ensures
        pushed_ev(*old(fel), *final(fel), ps, kind, payload),
        fel_ok(&*old(fel)) ==> fel_ok(&*final(fel)),
        forall|specs: Map<u32, JobSpec>|
            #![trigger arrivals_known(&*final(fel), specs)]
            arrivals_known(&*old(fel), specs) && (payload matches EventPayload::JobArrive { job } ==> specs.contains_key(job.0))
                ==> arrivals_known(&*final(fel), specs),
        !(kind is JobArrive) && !(kind is HorizonCut) ==> arrivals_kept(old(fel)@, final(fel)@),
        fel_budget(&*final(fel)) <= fel_budget(&*old(fel)),
        old(fel).next_seq_spec() < u64::MAX ==> final(fel)@.len() == old(fel)@.len() + 1,
        *final(exhausted) == (*old(exhausted) || old(fel).next_seq_spec() == u64::MAX),
{
    if fel.next_seq() < u64::MAX {
        let ghost f0 = fel@;
        fel.push(ps, kind, payload);
        proof {
            let ev = Event { t: SimTime { ps, seq: old(fel).next_seq_spec() }, kind, payload };
            let pos = choose|pos: int| 0 <= pos <= f0.len() && fel@ == f0.insert(pos, ev);
            if !(kind is JobArrive) && !(kind is HorizonCut) {
                lemma_insert_kept(f0, pos, ev);
            }
            assert forall|specs: Map<u32, JobSpec>|
                arrivals_known(&*old(fel), specs) && (payload matches EventPayload::JobArrive { job } ==> specs.contains_key(job.0))
                implies #[trigger] arrivals_known(&*fel, specs) by {
                assert forall|i: int| 0 <= i < fel@.len() implies ((#[trigger] fel@[i]).payload matches EventPayload::JobArrive {
                    job,
                } ==> specs.contains_key(job.0)) by {
                    if i < pos {
                        assert(fel@[i] == f0[i]);
                    } else if i > pos {
                        assert(fel@[i] == f0[i - 1]);
                    }
                }
            }
        }
    } else {
        *exhausted = true;
    }
}


/// A flow with the same fields.
pub fn copy_live(l: &LiveFlow) -> (r: LiveFlow)
    ensures
        r.job == l.job,
        r.phase == l.phase,
        r.src == l.src,
        r.dst == l.dst,
        r.path.links@ == l.path.links@,
        r.rate_Bps == l.rate_Bps,
        r.bytes == l.bytes,
        r.t_arrive_ps == l.t_arrive_ps,
        r.t_depart_ps == l.t_depart_ps,
{
    LiveFlow {
        job: l.job,
        phase: l.phase,
        src: l.src,
        dst: l.dst,
        path: copy_path(&l.path),
        rate_Bps: l.rate_Bps,
        bytes: l.bytes,
        t_arrive_ps: l.t_arrive_ps,
        t_depart_ps: l.t_depart_ps,
    }
}

/// The position of the flight with this id, if any.
pub fn find_flight(flights: &Vec<Flight>, id: u64) -> (r: Option<usize>)
    ensures
        r matches Some(i) ==> i < flights@.len() && flights@[i as int].id == id && forall|k: int|
            0 <= k < i ==> (#[trigger] flights@[k]).id != id,
        r is None ==> forall|k: int| 0 <= k < flights@.len() ==> (#[trigger] flights@[k]).id != id,
{
    let mut i: usize = 0;
    while i < flights.len()
        invariant
            i <= flights@.len(),
            forall|k: int| 0 <= k < i ==> (#[trigger] flights@[k]).id != id,
        decreases flights@.len() - i,
    {
        if flights[i].id == id {
            return Some(i);
        }
        i = i + 1;
    }
    None
}

/// The flows on the wire, in flight order.
pub open spec fn on_wire(fl: Seq<Flight>) -> Seq<Flight>
    decreases fl.len(),
{
    if fl.len() == 0 {
        Seq::empty()
    } else if fl.last().inflight {
        on_wire(fl.drop_last()).push(fl.last())
    } else {
        on_wire(fl.drop_last())
    }
}

/// The flows on the wire, copied out in flight order.
pub fn live_flows(flights: &Vec<Flight>) -> (r: Vec<LiveFlow>)
    ensures
        r@.len() == on_wire(flights@).len(),
        forall|k: int|
            0 <= k < r@.len() ==> (#[trigger] r@[k]).path.links@ == on_wire(flights@)[k].flow.path.links@
                && r@[k].rate_Bps == on_wire(flights@)[k].flow.rate_Bps,
{
    let mut out: Vec<LiveFlow> = Vec::new();
    let mut i: usize = 0;
    while i < flights.len()
        invariant
            i <= flights@.len(),
            out@.len() == on_wire(flights@.take(i as int)).len(),
            forall|k: int|
                0 <= k < out@.len() ==> (#[trigger] out@[k]).path.links@ == on_wire(flights@.take(i as int))[k].flow.path.links@
                    && out@[k].rate_Bps == on_wire(flights@.take(i as int))[k].flow.rate_Bps,
        decreases flights@.len() - i,
    {
        assert(flights@.take(i + 1).drop_last() =~= flights@.take(i as int));
        if flights[i].inflight {
            out.push(copy_live(&flights[i].flow));
        }
        i = i + 1;
    }
    assert(flights@.take(flights@.len() as int) =~= flights@);
    out
}

/// Record a snapshot of the links at `t`: every link, or only those with
/// committed rate, load or a queue.
fn snapshot_links(
    traces: &mut TraceBook,
    graph: &Graph,
    residual: &Residual,
    q: &Vec<u64>,
    t: i128,
    load: &Vec<u64>,
    all: bool,
)
    requires
        old(traces).wf(),
        graph_wf(graph),
        graph.links@.len() < u32::MAX,
        q@.len() == graph.links@.len(),
    ensures
        final(traces).wf(),
        final(traces).events@ == old(traces).events@,
        final(traces).flows@ == old(traces).flows@,
        final(traces).jobs@ == old(traces).jobs@,
        final(traces).admit_ok == old(traces).admit_ok,
        final(traces).admit_reject == old(traces).admit_reject,
        offered_all(*old(traces), snap_rows(graph, residual, q@, t, load@, all, graph.links@.len() as int), *final(traces)),
{
    let t_ps = ps_i64(t);
    let n = graph.links.len();
    let mut i: usize = 0;
    while i < n
        invariant
            i <= n,
            n == graph.links@.len(),
            n < u32::MAX,
            q@.len() == n,
            graph_wf(graph),
            t_ps == spec_ps_i64(t),
            traces.wf(),
            traces.events@ == old(traces).events@,
            traces.flows@ == old(traces).flows@,
            traces.jobs@ == old(traces).jobs@,
            traces.admit_ok == old(traces).admit_ok,
            traces.admit_reject == old(traces).admit_reject,
            offered_all(*old(traces), snap_rows(graph, residual, q@, t, load@, all, i as int), *traces),
        decreases n - i,
    {
        let link = &graph.links[i];
        let cir = if i < residual.cir.len() {
            residual.cir[i]
        } else {
            0
        };
        let live = if i < load.len() {
            load[i]
        } else {
            0
        };
        let ra = if i < residual.r_avail.len() {
            residual.r_avail[i]
        } else {
            0
        };
        let ghost rows = snap_rows(graph, residual, q@, t, load@, all, i as int);
        let ghost pre = *traces;
        if all || cir != 0 || live != 0 || q[i] != 0 {
            assert(link.id.0 == i);
            let row = LinkRow {
                link_id: link.id.0,
                t_ps,
                c_Bps: link.capacity_Bps,
                cir_Bps: cir,
                r_avail_Bps: ra,
                q_bytes: q[i],
                failed: link.failed,
            };
            traces.link(row);
            proof {
                let r2 = snap_rows(graph, residual, q@, t, load@, all, i + 1);
                assert(row == snap_row(graph, residual, q@, t, i as int));
                assert(r2 == rows.push(row));
                assert(r2.drop_last() =~= rows);
                assert(offered_all(*old(traces), r2.drop_last(), pre) && link_offer(pre, r2.last(), *traces));
            }
        }
        i = i + 1;
    }
}

/// The row a snapshot writes for link `i`.
pub open spec fn snap_row(graph: &Graph, residual: &Residual, q: Seq<u64>, t: i128, i: int) -> LinkRow {
    LinkRow {
        link_id: graph.links@[i].id.0,
        t_ps: spec_ps_i64(t),
        c_Bps: graph.links@[i].capacity_Bps,
        cir_Bps: cir_at(residual.cir@, i),
        r_avail_Bps: cir_at(residual.r_avail@, i),
        q_bytes: q[i],
        failed: graph.links@[i].failed,
    }
}

/// The rows a snapshot offers for the first `n` links, in link order: every
/// link when `all`, else those with a commitment, a load or a queue.
pub open spec fn snap_rows(
    graph: &Graph,
    residual: &Residual,
    q: Seq<u64>,
    t: i128,
    load: Seq<u64>,
    all: bool,
    n: int,
) -> Seq<LinkRow>
    decreases n,
{
    if n <= 0 {
        Seq::empty()
    } else {
        let prev = snap_rows(graph, residual, q, t, load, all, n - 1);
        let i = n - 1;
        if all || cir_at(residual.cir@, i) != 0 || cir_at(load, i) != 0 || q[i] != 0 {
            prev.push(snap_row(graph, residual, q, t, i))
        } else {
            prev
        }
    }
}

/// `b` is `a` after offering the rows in turn.
pub open spec fn offered_all(a: TraceBook, rows: Seq<LinkRow>, b: TraceBook) -> bool
    decreases rows.len(),
{
    if rows.len() == 0 {
        b == a
    } else {
        exists|m: TraceBook| offered_all(a, rows.drop_last(), m) && #[trigger] link_offer(m, rows.last(), b)
    }
}

/// The ids an event row carries: job, flow, link, spine, leaf and rail.
pub open spec fn spec_event_ids(p: EventPayload, flow_job: Option<u32>) -> (
    Option<u32>,
    Option<u64>,
    Option<u32>,
    Option<u32>,
    Option<u32>,
    Option<u8>,
) {
    match p {
        EventPayload::JobArrive { job } => (Some(job.0), None, None, None, None, None),
        EventPayload::StepBoundary { job, .. } => (Some(job.0), None, None, None, None, None),
        EventPayload::CollectiveStart { job, .. } => (Some(job.0), None, None, None, None, None),
        EventPayload::CollectiveEnd { job, .. } => (Some(job.0), None, None, None, None, None),
        EventPayload::DrainComplete { job } => (Some(job.0), None, None, None, None, None),
        EventPayload::FlowArrive { flow } => (flow_job, Some(flow.0), None, None, None, None),
        EventPayload::FlowDepart { flow } => (flow_job, Some(flow.0), None, None, None, None),
        EventPayload::RateRecompute { reason } => (
            match reason {
                RecomputeReason::Admit(j) => Some(j.0),
                RecomputeReason::JobExit(j) => Some(j.0),
                RecomputeReason::EpochCommit => None,
            },
            None,
            None,
            None,
            None,
            None,
        ),
        EventPayload::LinkFail { link } => (None, None, Some(link.0), None, None, None),
        EventPayload::LeafFail { leaf } => (None, None, None, None, Some(leaf.0), None),
        EventPayload::RailFail { rail } => (None, None, None, None, None, Some(rail.0)),
        EventPayload::SpineFail { spine } => (None, None, None, Some(spine.0), None, None),
        EventPayload::EpochAdvance { .. } => (None, None, None, None, None, None),
        EventPayload::HorizonCut => (None, None, None, None, None, None),
    }
}

/// The ids an event row carries; a flow event names the job of the flow,
/// when the flow is still scheduled.
pub fn event_ids(p: &EventPayload, flow_job: Option<u32>) -> (r: (
    Option<u32>,
    Option<u64>,
    Option<u32>,
    Option<u32>,
    Option<u32>,
    Option<u8>,
))
    ensures
        r == spec_event_ids(*p, flow_job),
{
    match *p {
        EventPayload::JobArrive { job } => (Some(job.0), None, None, None, None, None),
        EventPayload::StepBoundary { job, .. } => (Some(job.0), None, None, None, None, None),
        EventPayload::CollectiveStart { job, .. } => (Some(job.0), None, None, None, None, None),
        EventPayload::CollectiveEnd { job, .. } => (Some(job.0), None, None, None, None, None),
        EventPayload::DrainComplete { job } => (Some(job.0), None, None, None, None, None),
        EventPayload::FlowArrive { flow } => (flow_job, Some(flow.0), None, None, None, None),
        EventPayload::FlowDepart { flow } => (flow_job, Some(flow.0), None, None, None, None),
        EventPayload::RateRecompute { reason } => (
            match reason {
                RecomputeReason::Admit(j) => Some(j.0),
                RecomputeReason::JobExit(j) => Some(j.0),
                RecomputeReason::EpochCommit => None,
            },
            None,
            None,
            None,
            None,
            None,
        ),
        EventPayload::LinkFail { link } => (None, None, Some(link.0), None, None, None),
        EventPayload::LeafFail { leaf } => (None, None, None, None, Some(leaf.0), None),
        EventPayload::RailFail { rail } => (None, None, None, None, None, Some(rail.0)),
        EventPayload::SpineFail { spine } => (None, None, None, Some(spine.0), None, None),
        EventPayload::EpochAdvance { .. } => (None, None, None, None, None, None),
        EventPayload::HorizonCut => (None, None, None, None, None, None),
    }
}

/// Record the event: its kind and epoch in the event list, and its row.
fn trace_event(
    traces: &mut TraceBook,
    event_trace: &mut Vec<(String, u32)>,
    flights: &Vec<Flight>,
    epoch: u32,
    e: &Event,
)
    requires
        old(traces).wf(),
    ensures
        final(traces).wf(),
        kinds_of(final(traces).events@) == kinds_of(old(traces).events@).push(spec_event_kind_name(e.kind)),
        final(traces).admit_ok == old(traces).admit_ok,
        final(traces).admit_reject == old(traces).admit_reject,
        final(traces).flows@ == old(traces).flows@,
        final(traces).jobs@ == old(traces).jobs@,
{
    let flow_job = match e.payload {
        EventPayload::FlowArrive { flow } | EventPayload::FlowDepart { flow } => match find_flight(flights, flow.0) {
            Some(i) => Some(flights[i].flow.job.0),
            None => None,
        },
        _ => None,
    };
    let ids = event_ids(&e.payload, flow_job);
    event_trace.push((String::from_str(e.kind.as_str()), epoch));
    traces.event(
        EventRow {
            t_ps: ps_i64(e.t.ps),
            seq: e.t.seq,
            kind: String::from_str(e.kind.as_str()),
            epoch,
            job_id: ids.0,
            flow_id: ids.1,
            link_id: ids.2,
            spine_id: ids.3,
            leaf_id: ids.4,
            rail_id: ids.5,
            reject: None,
            bytes: None,
        },
    );
}

/// Put a rate recompute on the list at `ps`, unless one is already due then.
fn queue_recompute(
    recompute_at: &mut Option<i128>,
    fel: &mut Fel,
    exhausted: &mut bool,
    ps: i128,
    reason: RecomputeReason,
)
    ensures
        fel_budget(&*final(fel)) <= fel_budget(&*old(fel)),
        fel_ok(&*old(fel)) ==> fel_ok(&*final(fel)),
        forall|specs: Map<u32, JobSpec>|
            #![trigger arrivals_known(&*final(fel), specs)]
            arrivals_known(&*old(fel), specs) ==> arrivals_known(&*final(fel), specs),
        arrivals_kept(old(fel)@, final(fel)@),
        *old(exhausted) ==> *final(exhausted),
        *final(recompute_at) == Some(ps),
        *old(recompute_at) == Some(ps) ==> *final(fel) == *old(fel),
{
    if *recompute_at == Some(ps) {
        return;
    }
    *recompute_at = Some(ps);
    push_ev(fel, exhausted, ps, EventKind::RateRecompute, EventPayload::RateRecompute { reason });
}

/// The position of the first entry named `name`, or the length when none is.
pub open spec fn first_named(v: Seq<(String, u64)>, name: Seq<char>) -> int
    decreases v.len(),
{
    if v.len() == 0 {
        0
    } else if v[0].0@ == name {
        0
    } else {
        1 + first_named(v.drop_first(), name)
    }
}

proof fn lemma_first_named(v: Seq<(String, u64)>, name: Seq<char>, i: int)
    requires
        0 <= i <= v.len(),
        forall|k: int| 0 <= k < i ==> (#[trigger] v[k]).0@ != name,
        i == v.len() || v[i].0@ == name,
    ensures
        first_named(v, name) == i,
    decreases i,
{
    if i > 0 {
        assert forall|k: int| 0 <= k < i - 1 implies (#[trigger] v.drop_first()[k]).0@ != name by {
            assert(v.drop_first()[k] == v[k + 1]);
        }
        lemma_first_named(v.drop_first(), name, i - 1);
    }
}

/// Add one to the count of `code`'s first entry (saturating), or add an
/// entry for it with one.
fn bump_reject(v: &mut Vec<(String, u64)>, code: RejectCode)
    ensures
        ({
            let i = first_named(old(v)@, spec_reject_name(code));
            if i < old(v)@.len() {
                &&& final(v)@.len() == old(v)@.len()
                &&& final(v)@[i].0@ == old(v)@[i].0@
                &&& final(v)@[i].1 == crate::trace::sat_inc(old(v)@[i].1)
                &&& forall|k: int| 0 <= k < old(v)@.len() && k != i ==> #[trigger] final(v)@[k] == old(v)@[k]
            } else {
                &&& final(v)@.len() == old(v)@.len() + 1
                &&& final(v)@.take(old(v)@.len() as int) == old(v)@
                &&& final(v)@.last().0@ == spec_reject_name(code)
                &&& final(v)@.last().1 == 1
            }
        }),
{
    let name = code.as_str();
    let mut i: usize = 0;
    while i < v.len()
        invariant
            i <= v@.len(),
            v@ == old(v)@,
            name@ == spec_reject_name(code),
            forall|k: int| 0 <= k < i ==> (#[trigger] v@[k]).0@ != name@,
        decreases v@.len() - i,
    {
        let c = chars_of(v[i].0.as_str());
        if is_word(&c, name) {
            proof {
                lemma_first_named(v@, name@, i as int);
            }
            let n = v[i].1;
            let s = String::from_str(v[i].0.as_str());
            assert(s@ == old(v)@[i as int].0@);
            let m = n.saturating_add(1);
            assert(m == crate::trace::sat_inc(n));
            let ghost sv = s@;
            v.set(i, (s, m));
            assert(v@[i as int].0@ == sv);
            assert(v@[i as int].1 == m);
            assert(first_named(old(v)@, spec_reject_name(code)) == i);
            assert(old(v)@[i as int].0@ == sv);
            return;
        }
        i = i + 1;
    }
    proof {
        lemma_first_named(v@, name@, i as int);
    }
    v.push((String::from_str(name), 1));
    assert(v@.take(old(v)@.len() as int) =~= old(v)@);
}

/// How many of the listed GPUs are free (present and held by no job).
pub open spec fn free_count(occ: Map<u32, JobId>, graph: &Graph, gs: Seq<crate::topo::Gpu>) -> nat
    decreases gs.len(),
{
    if gs.len() == 0 {
        0
    } else {
        free_count(occ, graph, gs.drop_last()) + if crate::table::spec_is_free(occ, graph, gs.last().id) {
            1nat
        } else {
            0nat
        }
    }
}

/// How many GPUs are present and held by no job.
pub fn count_free(table: &JobTable, graph: &Graph) -> (r: u64)
    requires
        graph.gpus@.len() <= u32::MAX,
    ensures
        r == free_count(table.occ.by_gpu@, graph, graph.gpus@),
        r <= graph.gpus@.len(),
{
    let mut n: u64 = 0;
    let mut i: usize = 0;
    while i < graph.gpus.len()
        invariant
            i <= graph.gpus@.len(),
            n <= i,
            n == free_count(table.occ.by_gpu@, graph, graph.gpus@.take(i as int)),
            graph.gpus@.len() <= u32::MAX,
        decreases graph.gpus@.len() - i,
    {
        assert(graph.gpus@.take(i + 1).drop_last() =~= graph.gpus@.take(i as int));
        if table.occ.is_free(graph.gpus[i].id, graph) {
            n = n + 1;
        }
        i = i + 1;
    }
    assert(graph.gpus@.take(graph.gpus@.len() as int) =~= graph.gpus@);
    n
}

/// The trace row of a job leaving with `decision` at `now`.
pub fn job_row(rec: &JobRec, id: u32, decision: &str, now: i128) -> (r: TraceJob)
    ensures
        r.job_id == id,
        r.decision@ == decision@,
        r.arrive_ps == spec_ps_i64(rec.spec.arrive.ps),
        r.exit_ps == spec_ps_i64(now),
        r.t_pred_ps == spec_ps_i64(rec.t_pred_ps),
        r.d_j_ps == spec_ps_i64(rec.spec.deadline_ps),
        r.steps_done == rec.steps_done,
        rec.reject is None ==> r.reject is None,
        rec.reject matches Some(c) ==> (r.reject matches Some(s) && s@ == spec_reject_name(c)),
        rec.binding is None ==> r.binding_kind is None,
        rec.binding is Some ==> r.binding_kind is Some,
{
    TraceJob {
        job_id: id,
        arrive_ps: ps_i64(rec.spec.arrive.ps),
        exit_ps: ps_i64(now),
        decision: String::from_str(decision),
        reject: match rec.reject {
            Some(c) => Some(String::from_str(c.as_str())),
            None => None,
        },
        binding_kind: match &rec.binding {
            Some(b) => Some(String::from_str(b.kind.as_str())),
            None => None,
        },
        t_pred_ps: ps_i64(rec.t_pred_ps),
        d_j_ps: ps_i64(rec.spec.deadline_ps),
        steps_done: rec.steps_done,
    }
}

/// Record the job's trace row, when the job has a record.
fn write_job_trace(traces: &mut TraceBook, table: &JobTable, id: JobId, decision: &str, now: i128)
    requires
        old(traces).wf(),
    ensures
        final(traces).wf(),
        final(traces).events@ == old(traces).events@,
        final(traces).admit_ok == old(traces).admit_ok,
        final(traces).admit_reject == old(traces).admit_reject,
        table.by_id@.contains_key(id.0) ==> decisions_of(final(traces).jobs@) == decisions_of(old(traces).jobs@).push(decision@),
        !table.by_id@.contains_key(id.0) ==> final(traces).jobs@ == old(traces).jobs@,
{
    match table.by_id.get(&id.0) {
        Some(rec) => {
            let row = job_row(rec, id.0, decision, now);
            let ghost j0 = traces.jobs@;
            traces.job(row);
            assert(decisions_of(traces.jobs@) =~= decisions_of(j0).push(decision@));
        },
        None => {},
    }
}


/// A planned flow with the same fields and another rate.
pub open spec fn rerated(f: Flow, rate: u64) -> Flow {
    Flow { rate_Bps: rate, ..f }
}

/// The flow with the same fields and `rate`.
fn with_rate(f: &Flow, rate: u64) -> (r: Flow)
    ensures
        r.id == f.id,
        r.job == f.job,
        r.comm == f.comm,
        r.phase == f.phase,
        r.src == f.src,
        r.dst == f.dst,
        r.path.links@ == f.path.links@,
        r.bytes == f.bytes,
        r.rate_Bps == rate,
{
    Flow {
        id: f.id,
        job: f.job,
        comm: f.comm,
        phase: f.phase,
        src: f.src,
        dst: f.dst,
        path: copy_path(&f.path),
        rate_Bps: rate,
        bytes: f.bytes,
    }
}

/// Two planned flows that differ at most in their rate.
pub open spec fn same_but_rate(a: Flow, b: Flow) -> bool {
    &&& a.id == b.id
    &&& a.job == b.job
    &&& a.comm == b.comm
    &&& a.phase == b.phase
    &&& a.src == b.src
    &&& a.dst == b.dst
    &&& a.path.links@ == b.path.links@
    &&& a.bytes == b.bytes
}

/// The per-link table with `rate` added on each link of `links` in turn
/// (saturating; a missing entry counts as zero).
pub open spec fn added_on(m: Map<u32, u64>, links: Seq<LinkId>, rate: u64) -> Map<u32, u64>
    decreases links.len(),
{
    if links.len() == 0 {
        m
    } else {
        let prev = added_on(m, links.drop_last(), rate);
        let e = links.last().0;
        let cur = if prev.contains_key(e) {
            prev[e]
        } else {
            0
        };
        prev.insert(e, crate::residual::sat_add(cur, rate))
    }
}

/// Add `rate` on every link of the path in the per-link table (saturating).
fn add_on_path(load: &mut BTreeMap<u32, u64>, path: &Path, rate: u64)
    ensures
        final(load)@ == added_on(old(load)@, path.links@, rate),
        forall|e: u32| #[trigger] final(load)@.contains_key(e) ==> old(load)@.contains_key(e) || (exists|k: int|
            0 <= k < path.links@.len() && path.links@[k].0 == e),
        forall|e: u32| old(load)@.contains_key(e) ==> #[trigger] final(load)@.contains_key(e),
        forall|e: u32| #[trigger] final(load)@.contains_key(e) && old(load)@.contains_key(e) ==> final(load)@[e] >= old(load)@[e],
        forall|e: u32| #[trigger] final(load)@.contains_key(e) && !old(load)@.contains_key(e) ==> final(load)@[e] >= rate,
{
    let mut k: usize = 0;
    while k < path.links.len()
        invariant
            k <= path.links@.len(),
            forall|e: u32| #[trigger] load@.contains_key(e) ==> old(load)@.contains_key(e) || (exists|q: int|
                0 <= q < path.links@.len() && path.links@[q].0 == e),
            forall|e: u32| old(load)@.contains_key(e) ==> #[trigger] load@.contains_key(e),
            forall|e: u32| #[trigger] load@.contains_key(e) && old(load)@.contains_key(e) ==> load@[e] >= old(load)@[e],
            forall|e: u32| #[trigger] load@.contains_key(e) && !old(load)@.contains_key(e) ==> load@[e] >= rate,
            load@ == added_on(old(load)@, path.links@.take(k as int), rate),
        decreases path.links@.len() - k,
    {
        assert(path.links@.take(k + 1).drop_last() =~= path.links@.take(k as int));
        let e = path.links[k].0;
        let cur = match load.get(&e) {
            Some(x) => *x,
            None => 0,
        };
        load.insert(e, cur.saturating_add(rate));
        k = k + 1;
    }
    assert(path.links@.take(path.links@.len() as int) =~= path.links@);
}

/// The rates of a list of planned flows.
pub open spec fn rates_of(g: Seq<Flow>) -> Seq<u64> {
    g.map_values(|f: Flow| f.rate_Bps)
}

/// The routes of a list of planned flows.
pub open spec fn routes_of(g: Seq<Flow>) -> Seq<Seq<LinkId>> {
    g.map_values(|f: Flow| f.path.links@)
}

/// Phase `p` of communicator `c` was filled against `leftover`: either every
/// flow got at least one unit, together they fit every link's leftover, and
/// (routes without repeated links) each flow crosses a link they fill; or
/// the fill failed and every flow got nothing.
pub open spec fn group_filled(out: Seq<Flow>, c: u32, p: u32, leftover: Seq<u64>) -> bool {
    let g = crate::schedule::group(out, c, p);
    ||| forall|q: int| 0 <= q < g.len() ==> #[trigger] g[q].rate_Bps == 0
    ||| {
        &&& forall|q: int| 0 <= q < g.len() ==> #[trigger] g[q].rate_Bps >= 1
        &&& crate::waterfill::feasible(routes_of(g), rates_of(g), leftover)
        &&& crate::waterfill::no_repeats(routes_of(g)) ==> crate::waterfill::saturating(
            routes_of(g),
            rates_of(g),
            leftover,
        )
    }
}

/// Replay one job's commitments against `leftover`: each (communicator,
/// phase) group, in order, is water-filled over the leftover; its flows take
/// the rates, or zero when the fill fails; each link's commitment is the
/// largest load a group puts on it. The flows keep everything but their rates.
pub fn refill(planned: &Vec<Flow>, leftover: &Vec<u64>) -> (r: (Vec<Flow>, BTreeMap<u32, u64>))
    requires
        leftover@.len() <= u32::MAX,
    ensures
        r.0@.len() == planned@.len(),
        forall|k: int| 0 <= k < planned@.len() ==> same_but_rate(#[trigger] r.0@[k], planned@[k]),
        forall|c: u32, p: u32| #[trigger] crate::schedule::has_key(planned@, (c, p)) ==> group_filled(r.0@, c, p, leftover@),
        forall|e: u32| #[trigger] r.1@.contains_key(e) ==> r.1@[e] > 0,
{
    let mut out: Vec<Flow> = Vec::new();
    let mut i: usize = 0;
    while i < planned.len()
        invariant
            i <= planned@.len(),
            out@.len() == i,
            forall|k: int| 0 <= k < i ==> same_but_rate(#[trigger] out@[k], planned@[k]),
        decreases planned@.len() - i,
    {
        out.push(with_rate(&planned[i], planned[i].rate_Bps));
        i = i + 1;
    }
    let ks = sorted_keys(planned);
    let mut cir: BTreeMap<u32, u64> = BTreeMap::new();
    let mut j: usize = 0;
    while j < ks.len()
        invariant
            j <= ks@.len(),
            out@.len() == planned@.len(),
            leftover@.len() <= u32::MAX,
            crate::schedule::keys_in_order(planned@, ks@),
            forall|k: int| 0 <= k < planned@.len() ==> same_but_rate(#[trigger] out@[k], planned@[k]),
            forall|m: int| 0 <= m < j ==> group_filled(out@, (#[trigger] ks@[m]).0, ks@[m].1, leftover@),
            forall|e: u32| #[trigger] cir@.contains_key(e) ==> cir@[e] > 0,
        decreases ks@.len() - j,
    {
        let (c, ph) = ks[j];
        let idxs = group_of(planned, c, ph);
        let ghost o0 = out@;
        proof {
            crate::schedule::lemma_group_at(planned@, c, ph);
            crate::schedule::lemma_key_idx_same(out@, planned@, c, ph);
            crate::schedule::lemma_group_at(out@, c, ph);
        }
        let mut paths: Vec<Path> = Vec::new();
        let mut q: usize = 0;
        while q < idxs.len()
            invariant
                q <= idxs@.len(),
                paths@.len() == q,
                forall|z: int| 0 <= z < idxs@.len() ==> (#[trigger] idxs@[z]) < planned@.len(),
                forall|z: int| 0 <= z < q ==> (#[trigger] paths@[z]).links@ == planned@[idxs@[z] as int].path.links@,
            decreases idxs@.len() - q,
        {
            paths.push(copy_path(&planned[idxs[q]].path));
            q = q + 1;
        }
        let ps = paths.as_slice();
        assert(ps@ == paths@);
        match water_fill(ps, leftover.as_slice()) {
            Ok(rates) => {
                let mut load: BTreeMap<u32, u64> = BTreeMap::new();
                let mut q: usize = 0;
                while q < idxs.len()
                    invariant
                        q <= idxs@.len(),
                        rates@.len() == idxs@.len(),
                        out@.len() == planned@.len(),
                        o0.len() == planned@.len(),
                        forall|z: int| 0 <= z < idxs@.len() ==> (#[trigger] idxs@[z]) < planned@.len(),
                        forall|z: int| 0 <= z < idxs@.len() ==> (#[trigger] idxs@[z]) as int == crate::schedule::key_idx(planned@, c, ph)[z],
                        forall|a: int, b: int| 0 <= a < b < idxs@.len() ==> #[trigger] idxs@[a] < #[trigger] idxs@[b],
                        forall|z: int| 0 <= z < idxs@.len() ==> #[trigger] rates@[z] >= 1,
                        forall|k: int| 0 <= k < planned@.len() ==> same_but_rate(#[trigger] out@[k], planned@[k]),
                        forall|z: int| 0 <= z < q ==> (#[trigger] out@[idxs@[z] as int]).rate_Bps == rates@[z],
                        forall|k: int|
                            0 <= k < planned@.len() && !(exists|z: int| q <= z < idxs@.len() && idxs@[z] == k) && !(exists|z: int|
                                0 <= z < q && idxs@[z] == k) ==> #[trigger] out@[k] == o0[k],
                        forall|k: int|
                            0 <= k < planned@.len() && (exists|z: int| q <= z < idxs@.len() && idxs@[z] == k) ==> #[trigger] out@[k] == o0[k],
                        forall|e: u32| #[trigger] load@.contains_key(e) ==> load@[e] > 0,
                    decreases idxs@.len() - q,
                {
                    let x = idxs[q];
                    let f = with_rate(&out[x], rates[q]);
                    add_on_path(&mut load, &f.path, rates[q]);
                    let ghost ob = out@;
                    out.set(x, f);
                    proof {
                        assert forall|k: int|
                            0 <= k < planned@.len() && (exists|z: int| q + 1 <= z < idxs@.len() && idxs@[z] == k) implies #[trigger] out@[k]
                            == o0[k] by {
                            let z = choose|z: int| q + 1 <= z < idxs@.len() && idxs@[z] == k;
                            assert(idxs@[q as int] < idxs@[z]);
                            assert(exists|z2: int| q <= z2 < idxs@.len() && idxs@[z2] == k);
                        }
                        assert forall|k: int|
                            0 <= k < planned@.len() && !(exists|z: int| q + 1 <= z < idxs@.len() && idxs@[z] == k) && !(exists|z: int|
                                0 <= z < q + 1 && idxs@[z] == k) implies #[trigger] out@[k] == o0[k] by {
                            assert(k != idxs@[q as int]);
                            assert(!(exists|z: int| q <= z < idxs@.len() && idxs@[z] == k)) by {
                                if exists|z: int| q <= z < idxs@.len() && idxs@[z] == k {
                                    let z = choose|z: int| q <= z < idxs@.len() && idxs@[z] == k;
                                    if z == q {
                                    } else {
                                        assert(q + 1 <= z);
                                    }
                                }
                            }
                            assert(!(exists|z: int| 0 <= z < q && idxs@[z] == k)) by {
                                if exists|z: int| 0 <= z < q && idxs@[z] == k {
                                    let z = choose|z: int| 0 <= z < q && idxs@[z] == k;
                                    assert(0 <= z < q + 1);
                                }
                            }
                        }
                        assert forall|z: int| 0 <= z < q + 1 implies (#[trigger] out@[idxs@[z] as int]).rate_Bps == rates@[z] by {
                            if z < q {
                                assert(idxs@[z] < idxs@[q as int]);
                                assert(out@[idxs@[z] as int] == ob[idxs@[z] as int]);
                            }
                        }
                    }
                    q = q + 1;
                }
                proof {
                    let g = crate::schedule::group(out@, c, ph);
                    crate::schedule::lemma_key_idx_same(out@, planned@, c, ph);
                    crate::schedule::lemma_group_at(out@, c, ph);
                    assert(g.len() == idxs@.len());
                    assert forall|z: int| 0 <= z < g.len() implies #[trigger] g[z] == out@[idxs@[z] as int] by {}
                    assert(routes_of(g) =~= crate::paths::paths_view(paths@));
                    assert(rates_of(g) =~= rates@);
                    assert(group_filled(out@, c, ph, leftover@));
                    assert forall|m: int| 0 <= m < j implies group_filled(out@, (#[trigger] ks@[m]).0, ks@[m].1, leftover@) by {
                        assert(crate::schedule::key_lt(ks@[m], ks@[j as int]));
                        assert forall|k: int| 0 <= k < o0.len() && (#[trigger] o0[k]).comm == ks@[m].0 && o0[k].phase == ks@[m].1 implies o0[k] == out@[k] by {
                            if exists|z: int| 0 <= z < idxs@.len() && idxs@[z] == k {
                                let z = choose|z: int| 0 <= z < idxs@.len() && idxs@[z] == k;
                                assert(planned@[k].comm == c && planned@[k].phase == ph);
                            }
                        }
                        crate::schedule::lemma_group_frame(o0, out@, ks@[m].0, ks@[m].1);
                    }
                }
                let lk = sorted_map_keys(&load);
                let mut z: usize = 0;
                while z < lk.len()
                    invariant
                        z <= lk@.len(),
                        forall|e: u32| #[trigger] load@.contains_key(e) ==> load@[e] > 0,
                        forall|e: u32| #[trigger] cir@.contains_key(e) ==> cir@[e] > 0,
                    decreases lk@.len() - z,
                {
                    let e = lk[z];
                    match load.get(&e) {
                        Some(rho) => {
                            let cur = match cir.get(&e) {
                                Some(x) => *x,
                                None => 0,
                            };
                            if *rho > cur {
                                cir.insert(e, *rho);
                            }
                        },
                        None => {},
                    }
                    z = z + 1;
                }
            },
            Err(_) => {
                let mut q: usize = 0;
                while q < idxs.len()
                    invariant
                        q <= idxs@.len(),
                        out@.len() == planned@.len(),
                        o0.len() == planned@.len(),
                        forall|z: int| 0 <= z < idxs@.len() ==> (#[trigger] idxs@[z]) < planned@.len(),
                        forall|z: int| 0 <= z < idxs@.len() ==> (#[trigger] idxs@[z]) as int == crate::schedule::key_idx(planned@, c, ph)[z],
                        forall|k: int| 0 <= k < planned@.len() ==> same_but_rate(#[trigger] out@[k], planned@[k]),
                        forall|z: int| 0 <= z < q ==> (#[trigger] out@[idxs@[z] as int]).rate_Bps == 0,
                        idxs@.len() == crate::schedule::group(planned@, c, ph).len(),
                        forall|k: int|
                            0 <= k < planned@.len() && !(planned@[k].comm == c && planned@[k].phase == ph) ==> #[trigger] out@[k] == o0[k],
                    decreases idxs@.len() - q,
                {
                    let x = idxs[q];
                    let f = with_rate(&out[x], 0);
                    proof {
                        crate::schedule::lemma_group_at(planned@, c, ph);
                        let kq = crate::schedule::key_idx(planned@, c, ph)[q as int];
                        assert(x as int == kq);
                        assert(planned@[kq].comm == c && planned@[kq].phase == ph);
                    }
                    out.set(x, f);
                    q = q + 1;
                }
                proof {
                    let g = crate::schedule::group(out@, c, ph);
                    crate::schedule::lemma_key_idx_same(out@, planned@, c, ph);
                    crate::schedule::lemma_group_at(out@, c, ph);
                    assert forall|z: int| 0 <= z < g.len() implies #[trigger] g[z].rate_Bps == 0 by {
                        assert(g[z] == out@[idxs@[z] as int]);
                    }
                    assert(group_filled(out@, c, ph, leftover@));
                    assert forall|m: int| 0 <= m < j implies group_filled(out@, (#[trigger] ks@[m]).0, ks@[m].1, leftover@) by {
                        assert(crate::schedule::key_lt(ks@[m], ks@[j as int]));
                        crate::schedule::lemma_group_frame(o0, out@, ks@[m].0, ks@[m].1);
                    }
                }
            },
        }
        j = j + 1;
    }
    proof {
        assert forall|c: u32, p: u32| #[trigger] crate::schedule::has_key(planned@, (c, p)) implies group_filled(
            out@,
            c,
            p,
            leftover@,
        ) by {
            assert(ks@.contains((c, p)));
            let m = choose|m: int| 0 <= m < ks@.len() && ks@[m] == (c, p);
            assert(group_filled(out@, ks@[m].0, ks@[m].1, leftover@));
        }
    }
    (out, cir)
}

/// What the admission log records of an arrival: the job's record as
/// admission left it, with each link it committed rate on.
pub fn admit_record(
    table: &JobTable,
    graph: &Graph,
    residual: &Residual,
    spec: &JobSpec,
    free: u64,
    ok: bool,
    reject: Option<RejectCode>,
) -> (r: AdmitRecord)
    ensures
        r.job_id == spec.id.0,
        r.ok == ok,
        r.reject == reject,
        r.free_at_arrive == free,
        r.deadline_ps == spec.deadline_ps,
        !table.by_id@.contains_key(spec.id.0) ==> r.admit_seq is None && r.t_pred_ps == 0 && r.b_eff_Bps == 0
            && r.gpu_ids@.len() == 0 && r.binding_kind is None,
        table.by_id@.contains_key(spec.id.0) ==> {
            let rec = table.by_id@[spec.id.0];
            &&& r.admit_seq == match rec.admit_seq {
                Some(s) => Some(s.0),
                None => None::<u64>,
            }
            &&& r.t_pred_ps == rec.t_pred_ps
            &&& r.b_eff_Bps == min_positive(rec.planned@)
            &&& r.waterfill@.len() == rec.planned@.len()
            &&& forall|k: int| 0 <= k < r.waterfill@.len() ==> #[trigger] r.waterfill@[k] == rec.planned@[k].rate_Bps
            &&& forall|a: int, b: int| 0 <= a < b < r.per_link@.len() ==> (#[trigger] r.per_link@[a]).link_id < (#[trigger] r.per_link@[b]).link_id
            &&& forall|e: u32| rec.cir@.contains_key(e) <==> exists|k: int| 0 <= k < r.per_link@.len() && (#[trigger] r.per_link@[k]).link_id == e
            &&& forall|k: int| 0 <= k < r.per_link@.len() ==> link_row_of(#[trigger] r.per_link@[k], rec, graph, residual)
            &&& match rec.binding {
                Some(b) => {
                    &&& r.binding_kind == Some(b.kind)
                    &&& r.gpu_ids@.len() == b.map@.len()
                    &&& r.map@.len() == b.map@.len()
                    &&& forall|k: int| 0 <= k < b.map@.len() ==> #[trigger] r.gpu_ids@[k] == b.map@[k].1.0
                        && r.map@[k] == (b.map@[k].0.0, b.map@[k].1.0)
                },
                None => r.binding_kind is None && r.gpu_ids@.len() == 0 && r.map@.len() == 0,
            }
        },
{
    match table.by_id.get(&spec.id.0) {
        None => AdmitRecord {
            job_id: spec.id.0,
            admit_seq: None,
            ok,
            reject,
            free_at_arrive: free,
            gpu_ids: Vec::new(),
            map: Vec::new(),
            binding_kind: None,
            t_pred_ps: 0,
            deadline_ps: spec.deadline_ps,
            per_link: Vec::new(),
            waterfill: Vec::new(),
            b_eff_Bps: 0,
        },
        Some(rec) => {
            let mut gpu_ids: Vec<u32> = Vec::new();
            let mut map: Vec<(u32, u32)> = Vec::new();
            let kind = match &rec.binding {
                Some(b) => {
                    let mut k: usize = 0;
                    while k < b.map.len()
                        invariant
                            k <= b.map@.len(),
                            gpu_ids@.len() == k,
                            map@.len() == k,
                            forall|q: int| 0 <= q < k ==> #[trigger] gpu_ids@[q] == b.map@[q].1.0 && map@[q] == (
                                b.map@[q].0.0,
                                b.map@[q].1.0,
                            ),
                        decreases b.map@.len() - k,
                    {
                        gpu_ids.push(b.map[k].1.0);
                        map.push((b.map[k].0.0, b.map[k].1.0));
                        k = k + 1;
                    }
                    Some(b.kind)
                },
                None => None,
            };
            let mut waterfill: Vec<u64> = Vec::new();
            let mut k: usize = 0;
            while k < rec.planned.len()
                invariant
                    k <= rec.planned@.len(),
                    waterfill@.len() == k,
                    forall|q: int| 0 <= q < k ==> #[trigger] waterfill@[q] == rec.planned@[q].rate_Bps,
                decreases rec.planned@.len() - k,
            {
                waterfill.push(rec.planned[k].rate_Bps);
                k = k + 1;
            }
            let keys = sorted_map_keys(&rec.cir);
            let mut per_link: Vec<AdmitLink> = Vec::new();
            let mut z: usize = 0;
            while z < keys.len()
                invariant
                    z <= keys@.len(),
                    per_link@.len() == z,
                    forall|k: int| 0 <= k < z ==> (#[trigger] per_link@[k]).link_id == keys@[k],
                    forall|k: int| 0 <= k < z ==> link_row_of(#[trigger] per_link@[k], *rec, graph, residual),
                    keys@.to_set() == rec.cir@.dom(),
                decreases keys@.len() - z,
            {
                assert(keys@.to_set().contains(keys@[z as int]));
                let e = keys[z];
                let rho = match rec.cir.get(&e) {
                    Some(x) => *x,
                    None => 0,
                };
                let c = match graph.link(crate::types::LinkId(e)) {
                    Some(l) => l.capacity_Bps,
                    None => 0,
                };
                let cir = if (e as usize) < residual.cir.len() {
                    residual.cir[e as usize]
                } else {
                    0
                };
                per_link.push(
                    AdmitLink {
                        link_id: e,
                        c_Bps: c,
                        cir_Bps: cir,
                        r_avail_Bps: residual.r_avail(crate::types::LinkId(e)),
                        rho_job: rho,
                    },
                );
                z = z + 1;
            }
            proof {
                assert forall|e: u32| rec.cir@.contains_key(e) <==> exists|k: int|
                    0 <= k < per_link@.len() && (#[trigger] per_link@[k]).link_id == e by {
                    if rec.cir@.contains_key(e) {
                        assert(keys@.to_set().contains(e));
                        let k = choose|k: int| 0 <= k < keys@.len() && keys@[k] == e;
                        assert(per_link@[k].link_id == e);
                    }
                    if exists|k: int| 0 <= k < per_link@.len() && (#[trigger] per_link@[k]).link_id == e {
                        let k = choose|k: int| 0 <= k < per_link@.len() && (#[trigger] per_link@[k]).link_id == e;
                        assert(keys@.contains(keys@[k]));
                        assert(keys@.to_set().contains(e));
                    }
                }
            }
            AdmitRecord {
                job_id: spec.id.0,
                admit_seq: match rec.admit_seq {
                    Some(s) => Some(s.0),
                    None => None,
                },
                ok,
                reject,
                free_at_arrive: free,
                gpu_ids,
                map,
                binding_kind: kind,
                t_pred_ps: rec.t_pred_ps,
                deadline_ps: spec.deadline_ps,
                per_link,
                waterfill,
                b_eff_Bps: admit_b_eff(&rec.planned),
            }
        },
    }
}

/// Each link's capacity, zero once it failed.
pub open spec fn live_capacity(links: Seq<crate::topo::Link>) -> Seq<u64> {
    Seq::new(links.len(), |i: int| if links[i].failed { 0u64 } else { links[i].capacity_Bps })
}

/// The rates the flows on the wire actually get: a max-min fill over the
/// live links' capacities (each flow at least one unit, within every
/// link's capacity), or all zero when the fill fails; then up to eight
/// rounds of scaling down on dead or overloaded links.
pub fn realized_rates(graph: &Graph, residual: &Residual, paths: &Vec<Path>) -> (r: Vec<u64>)
    requires
        graph.links@.len() <= u32::MAX,
    ensures
        r@.len() == paths@.len(),
        exists|base: Seq<u64>|
            {
                &&& base.len() == paths@.len()
                &&& (forall|f: int| 0 <= f < base.len() ==> #[trigger] base[f] == 0) || ((forall|f: int|
                    0 <= f < base.len() ==> #[trigger] base[f] >= 1) && crate::waterfill::feasible(
                    crate::paths::paths_view(paths@),
                    base,
                    live_capacity(graph.links@),
                ))
                &&& r@ == crate::kernel::scale_rounds(graph.links@, paths@, base, 8)
            },
{
    let leftover = residual.capacity_leftover(graph);
    assert(leftover@ =~= live_capacity(graph.links@));
    let ps = paths.as_slice();
    assert(ps@ == paths@);
    let mut rates = match water_fill(ps, leftover.as_slice()) {
        Ok(v) => v,
        Err(_) => {
            let mut z: Vec<u64> = Vec::new();
            let mut k: usize = 0;
            while k < paths.len()
                invariant
                    k <= paths@.len(),
                    z@.len() == k,
                    forall|q: int| 0 <= q < k ==> #[trigger] z@[q] == 0,
                decreases paths@.len() - k,
            {
                z.push(0);
                k = k + 1;
            }
            z
        },
    };
    let ghost old_rates = rates@;
    scale_live(graph, paths, &mut rates);
    proof {
        crate::kernel::lemma_rounds_len(graph.links@, paths@, old_rates, 8);
    }
    rates
}

/// What a run is given.
pub struct RunConfig {
    pub graph: Graph,
    pub mix: Mix,
    pub policy: Policy,
    pub seed: u64,
    pub strict: bool,
    pub mix_hash: String,
    pub topo_hash: String,
    pub fails: Vec<FailSpec>,
}

/// A fabric's summary: GPU, node, leaf and spine counts, host and
/// leaf-to-spine link counts, and the bisection bandwidth.
pub open spec fn topo_of(g: &Graph) -> TopoSummary {
    TopoSummary {
        gpus: g.gpus@.len() as u32,
        N: g.params.nodes,
        L: g.leaves@.len() as u32,
        S: g.spines@.len() as u32,
        E_host: (g.params.nodes * g.params.rails) as u32,
        E_ls: (g.leaves@.len() * g.params.up) as u32,
        B_bisect_gbps: (g.leaves@.len() * g.params.up * g.params.port_speed_gbps / 2) as u64,
    }
}

/// What a run's report takes from its configuration: the seed, the policy's
/// name, the fabric's summary, the two fingerprints and the horizon; its
/// arrival count is the number of the mix's jobs that arrive by the horizon,
/// and it has one job row for each id of those jobs, in increasing id order.
pub open spec fn report_of_config(cfg: &RunConfig, rep: &Report) -> bool {
    &&& rep.seed == cfg.seed
    &&& rep.policy@ == (match cfg.policy {
        Policy::Naive => "naive"@,
        Policy::Joint => "joint"@,
    })
    &&& rep.topo == topo_of(&cfg.graph)
    &&& rep.mix_hash == cfg.mix_hash
    &&& rep.topo_hash == cfg.topo_hash
    &&& rep.horizon_ps == cfg.mix.horizon_ps
    &&& rep.counts.arrivals == due_count(cfg.mix.jobs@, cfg.mix.horizon_ps)
    &&& exists|ids: Seq<u32>|
        {
            &&& ids.to_set() == due_ids(cfg.mix.jobs@, cfg.mix.horizon_ps)
            &&& forall|a: int, b: int| 0 <= a < b < ids.len() ==> ids[a] < ids[b]
            &&& rep.jobs@.len() == ids.len()
            &&& forall|k: int| 0 <= k < ids.len() ==> (#[trigger] rep.jobs@[k]).job_id == ids[k]
        }
}

/// Two increasing id lists with the same ids are the same list.
proof fn lemma_increasing_same(a: Seq<u32>, b: Seq<u32>)
    requires
        forall|i: int, j: int| 0 <= i < j < a.len() ==> a[i] < a[j],
        forall|i: int, j: int| 0 <= i < j < b.len() ==> b[i] < b[j],
        a.to_set() == b.to_set(),
    ensures
        a == b,
    decreases a.len() + b.len(),
{
    if a.len() == 0 || b.len() == 0 {
        if a.len() > 0 {
            assert(a.to_set().contains(a[0]));
        }
        if b.len() > 0 {
            assert(b.to_set().contains(b[0]));
        }
        assert(a =~= b);
    } else {
        assert(a.to_set().contains(a[0]));
        assert(b.to_set().contains(b[0]));
        let j = choose|j: int| 0 <= j < b.len() && b[j] == a[0];
        let i = choose|i: int| 0 <= i < a.len() && a[i] == b[0];
        assert(a[0] == b[0]) by {
            if j > 0 {
                assert(b[0] < b[j]);
                assert(a[0] <= a[i]);
            }
        }
        let a1 = a.drop_first();
        let b1 = b.drop_first();
        assert forall|x: u32| a1.to_set().contains(x) <==> b1.to_set().contains(x) by {
            if a1.contains(x) {
                let p = choose|p: int| 0 <= p < a1.len() && a1[p] == x;
                assert(a[p + 1] == x && a[0] < a[p + 1]);
                assert(b.to_set().contains(x));
                let q = choose|q: int| 0 <= q < b.len() && b[q] == x;
                assert(q != 0);
                assert(b1[q - 1] == x);
            }
            if b1.contains(x) {
                let p = choose|p: int| 0 <= p < b1.len() && b1[p] == x;
                assert(b[p + 1] == x && b[0] < b[p + 1]);
                assert(a.to_set().contains(x));
                let q = choose|q: int| 0 <= q < a.len() && a[q] == x;
                assert(q != 0);
                assert(a1[q - 1] == x);
            }
        }
        assert(a1.to_set() =~= b1.to_set());
        lemma_increasing_same(a1, b1);
        assert(a =~= seq![a[0]] + a1);
        assert(b =~= seq![b[0]] + b1);
    }
}

/// Two successful runs of one configuration give reports that agree on the
/// seed, the policy, the fabric's summary, the fingerprints, the horizon, the
/// arrival count and the ids of the job rows, in order.
pub proof fn law_runs_agree_on_setup(cfg: &RunConfig, a: &Report, b: &Report)
    requires
        report_of_config(cfg, a),
        report_of_config(cfg, b),
    ensures
        a.seed == b.seed,
        a.policy@ == b.policy@,
        a.topo == b.topo,
        a.mix_hash == b.mix_hash,
        a.topo_hash == b.topo_hash,
        a.horizon_ps == b.horizon_ps,
        a.counts.arrivals == b.counts.arrivals,
        a.jobs@.len() == b.jobs@.len(),
        forall|k: int| 0 <= k < a.jobs@.len() ==> (#[trigger] a.jobs@[k]).job_id == b.jobs@[k].job_id,
{
    let h = cfg.mix.horizon_ps;
    let ia = choose|ids: Seq<u32>|
        {
            &&& ids.to_set() == due_ids(cfg.mix.jobs@, h)
            &&& forall|x: int, y: int| 0 <= x < y < ids.len() ==> ids[x] < ids[y]
            &&& a.jobs@.len() == ids.len()
            &&& forall|k: int| 0 <= k < ids.len() ==> (#[trigger] a.jobs@[k]).job_id == ids[k]
        };
    let ib = choose|ids: Seq<u32>|
        {
            &&& ids.to_set() == due_ids(cfg.mix.jobs@, h)
            &&& forall|x: int, y: int| 0 <= x < y < ids.len() ==> ids[x] < ids[y]
            &&& b.jobs@.len() == ids.len()
            &&& forall|k: int| 0 <= k < ids.len() ==> (#[trigger] b.jobs@[k]).job_id == ids[k]
        };
    lemma_increasing_same(ia, ib);
    assert forall|k: int| 0 <= k < a.jobs@.len() implies (#[trigger] a.jobs@[k]).job_id == b.jobs@[k].job_id by {
        assert(a.jobs@[k].job_id == ia[k]);
        assert(b.jobs@[k].job_id == ib[k]);
    }
}

/// One more, held at the largest value.
pub open spec fn plus_one(x: u64) -> u64 {
    if x < u64::MAX {
        (x + 1) as u64
    } else {
        x
    }
}

/// How many of `jobs` arrive no later than `horizon_ps`.
pub open spec fn due_count(jobs: Seq<JobSpec>, horizon_ps: i128) -> nat
    decreases jobs.len(),
{
    if jobs.len() == 0 {
        0
    } else {
        due_count(jobs.drop_last(), horizon_ps) + if jobs.last().arrive.ps <= horizon_ps {
            1nat
        } else {
            0nat
        }
    }
}

/// The ids of `jobs` that arrive no later than `horizon_ps`.
pub open spec fn due_ids(jobs: Seq<JobSpec>, horizon_ps: i128) -> Set<u32>
    decreases jobs.len(),
{
    if jobs.len() == 0 {
        Set::empty()
    } else if jobs.last().arrive.ps <= horizon_ps {
        due_ids(jobs.drop_last(), horizon_ps).insert(jobs.last().id.0)
    } else {
        due_ids(jobs.drop_last(), horizon_ps)
    }
}

/// The place of the horizon cut in event order: the horizon's time, after
/// every arrival and every failure was put on the list.
pub open spec fn cut_time(cfg: &RunConfig) -> SimTime {
    SimTime { ps: cfg.mix.horizon_ps, seq: (cfg.mix.jobs@.len() + cfg.fails@.len()) as u64 }
}

/// The horizon-cut event of a run.
pub open spec fn cut_event(cfg: &RunConfig) -> Event {
    Event { t: cut_time(cfg), kind: EventKind::HorizonCut, payload: EventPayload::HorizonCut }
}

/// What a run leaves: the report, the last epoch and graph, the events
/// in order with their epochs, the per-link bytes of the last epoch, the
/// trace rows and the admission records.
pub struct RunOutcome {
    pub report: Report,
    pub epoch: EpochId,
    pub event_trace: Vec<(String, u32)>,
    pub bytes_epoch: Vec<u64>,
    pub graph: Graph,
    pub traces: TraceBook,
    pub admits: Vec<AdmitRecord>,
}

/// A vector of `n` zeros.
fn zeros_u64(n: usize) -> (r: Vec<u64>)
    ensures
        r@.len() == n,
        forall|i: int| 0 <= i < n ==> #[trigger] r@[i] == 0,
{
    let mut v: Vec<u64> = Vec::new();
    let mut i: usize = 0;
    while i < n
        invariant
            i <= n,
            v@.len() == i,
            forall|k: int| 0 <= k < i ==> #[trigger] v@[k] == 0,
        decreases n - i,
    {
        v.push(0);
        i = i + 1;
    }
    v
}

fn zeros_i128(n: usize) -> (r: Vec<i128>)
    ensures
        r@.len() == n,
        forall|i: int| 0 <= i < n ==> #[trigger] r@[i] == 0,
{
    let mut v: Vec<i128> = Vec::new();
    let mut i: usize = 0;
    while i < n
        invariant
            i <= n,
            v@.len() == i,
            forall|k: int| 0 <= k < i ==> #[trigger] v@[k] == 0,
        decreases n - i,
    {
        v.push(0);
        i = i + 1;
    }
    v
}

fn falses(n: usize) -> (r: Vec<bool>)
    ensures
        r@.len() == n,
{
    let mut v: Vec<bool> = Vec::new();
    let mut i: usize = 0;
    while i < n
        invariant
            i <= n,
            v@.len() == i,
        decreases n - i,
    {
        v.push(false);
        i = i + 1;
    }
    v
}

fn copy_u64s(v: &Vec<u64>) -> (r: Vec<u64>)
    ensures
        r@ == v@,
{
    let mut out: Vec<u64> = Vec::new();
    let mut i: usize = 0;
    while i < v.len()
        invariant
            i <= v@.len(),
            out@ == v@.take(i as int),
        decreases v@.len() - i,
    {
        out.push(v[i]);
        i = i + 1;
        assert(out@ =~= v@.take(i as int));
    }
    assert(v@.take(v@.len() as int) =~= v@);
    out
}

/// Bytes a flow moved at its rate from its arrival to `now` (never more
/// than its size; the count is cut to 64 bits first).
pub open spec fn spec_moved(rate: u64, bytes: u64, t_arrive: i128, now: i128) -> u64 {
    let el = clamp_i128(now - t_arrive);
    let elapsed = if el < 0 {
        0
    } else {
        el
    };
    let m = ((clamp_i128(rate * elapsed) as int / 1_000_000_000_000int) as u64);
    if m < bytes {
        m
    } else {
        bytes
    }
}

pub fn moved_bytes(rate: u64, bytes: u64, t_arrive: i128, now: i128) -> (r: u64)
    ensures
        r == spec_moved(rate, bytes, t_arrive, now),
{
    let el = sat_sub_i128(now, t_arrive);
    let elapsed = if el < 0 {
        0
    } else {
        el
    };
    let m = crate::arith::sat_mul_i128(rate as i128, elapsed) / 1_000_000_000_000;
    let mv = #[verifier::truncate] (m as u64);
    if mv < bytes {
        mv
    } else {
        bytes
    }
}

/// A flow leaves: it is taken off the schedule, its bytes count on the live
/// links of its path, and its row is recorded.
fn flow_depart(
    flights: &mut Vec<Flight>,
    bytes_epoch: &mut Vec<u64>,
    traces: &mut TraceBook,
    graph: &Graph,
    flow: u64,
    now: i128,
)
    requires
        old(traces).wf(),
        old(bytes_epoch)@.len() == graph.links@.len(),
        dead_links_idle(graph, old(bytes_epoch)@),
    ensures
        final(traces).wf(),
        final(traces).events@ == old(traces).events@,
        final(traces).jobs@ == old(traces).jobs@,
        final(traces).admit_ok == old(traces).admit_ok,
        final(traces).admit_reject == old(traces).admit_reject,
        final(bytes_epoch)@.len() == old(bytes_epoch)@.len(),
        dead_links_idle(graph, final(bytes_epoch)@),
        final(flights)@.len() <= old(flights)@.len(),
        (forall|k: int| 0 <= k < old(flights)@.len() ==> (#[trigger] old(flights)@[k]).id != flow) ==> {
            &&& final(flights)@ == old(flights)@
            &&& final(bytes_epoch)@ == old(bytes_epoch)@
            &&& *final(traces) == *old(traces)
        },
        (exists|k: int| 0 <= k < old(flights)@.len() && (#[trigger] old(flights)@[k]).id == flow) ==> exists|i: int|
            {
                &&& 0 <= i < old(flights)@.len()
                &&& old(flights)@[i].id == flow
                &&& final(flights)@ == old(flights)@.remove(i)
                &&& final(traces).flows@.len() == old(traces).flows@.len() + 1
                &&& final(traces).flows@.last().flow_id == flow
                &&& final(traces).flows@.last().job_id == old(flights)@[i].flow.job.0
                &&& final(traces).flows@.last().bytes == old(flights)@[i].flow.bytes
                &&& final(traces).flows@.last().rate_Bps == old(flights)@[i].flow.rate_Bps
            },
{
    let i = match find_flight(flights, flow) {
        None => return ,
        Some(i) => i,
    };
    let f = flights.remove(i);
    let mut ids: Vec<u32> = Vec::new();
    let mut k: usize = 0;
    while k < f.flow.path.links.len()
        invariant
            k <= f.flow.path.links@.len(),
            bytes_epoch@.len() == old(bytes_epoch)@.len(),
            bytes_epoch@.len() == graph.links@.len(),
            dead_links_idle(graph, bytes_epoch@),
        decreases f.flow.path.links@.len() - k,
    {
        let e = f.flow.path.links[k].0;
        ids.push(e);
        let x = e as usize;
        if x < bytes_epoch.len() && x < graph.links.len() && !graph.links[x].failed {
            let b = bytes_epoch[x];
            bytes_epoch.set(x, b.saturating_add(f.flow.bytes));
        }
        k = k + 1;
    }
    let dep = if f.flow.t_depart_ps > now {
        f.flow.t_depart_ps
    } else {
        now
    };
    traces.flow(
        FlowRow {
            flow_id: f.id,
            job_id: f.flow.job.0,
            phase: f.flow.phase,
            src_gpu: f.flow.src.0,
            dst_gpu: f.flow.dst.0,
            path_links: ids,
            rate_Bps: f.flow.rate_Bps,
            bytes: f.flow.bytes,
            t_arrive_ps: ps_i64(f.flow.t_arrive_ps),
            t_depart_ps: ps_i64(dep),
        },
    );
}

/// Some flight of `job` in `fl` has the id.
pub open spec fn held_by_job(fl: Seq<Flight>, id: u64, job: JobId) -> bool {
    exists|j: int| 0 <= j < fl.len() && (#[trigger] fl[j]).id == id && fl[j].flow.job.0 == job.0
}

/// The flight occurs in `fl`.
pub open spec fn holds_flight(fl: Seq<Flight>, x: Flight) -> bool {
    exists|j: int| 0 <= j < fl.len() && #[trigger] fl[j] == x
}

/// Some entry of `ids` from index `lo` on is `id`.
pub open spec fn has_id(ids: Seq<u64>, lo: int, id: u64) -> bool {
    exists|q: int| lo <= q < ids.len() && #[trigger] ids[q] == id
}

/// No two flights share an id.
pub open spec fn ids_distinct(fl: Seq<Flight>) -> bool {
    forall|a: int, b: int| 0 <= a < fl.len() && 0 <= b < fl.len() && a != b ==> (#[trigger] fl[a]).id != (#[trigger] fl[b]).id
}

proof fn lemma_ordered_distinct(fl: Seq<Flight>, n: u64)
    requires
        flights_ordered(fl, n),
    ensures
        ids_distinct(fl),
{
    assert forall|a: int, b: int| 0 <= a < fl.len() && 0 <= b < fl.len() && a != b implies (#[trigger] fl[a]).id != (#[trigger] fl[b]).id by {
        if a < b {
            assert(fl[a].id < fl[b].id);
        } else {
            assert(fl[b].id < fl[a].id);
        }
    }
}

/// Take a job's flows off the schedule. With `emit`, each flow on the wire
/// first leaves at `now` with the bytes it moved so far.
fn abort_job_flows(
    flights: &mut Vec<Flight>,
    bytes_epoch: &mut Vec<u64>,
    traces: &mut TraceBook,
    graph: &Graph,
    job: JobId,
    now: i128,
    emit: bool,
)
    requires
        old(traces).wf(),
        old(bytes_epoch)@.len() == graph.links@.len(),
        dead_links_idle(graph, old(bytes_epoch)@),
        ids_distinct(old(flights)@),
    ensures
        final(traces).wf(),
        final(traces).events@ == old(traces).events@,
        final(traces).jobs@ == old(traces).jobs@,
        final(traces).admit_ok == old(traces).admit_ok,
        final(traces).admit_reject == old(traces).admit_reject,
        final(bytes_epoch)@.len() == old(bytes_epoch)@.len(),
        dead_links_idle(graph, final(bytes_epoch)@),
        forall|n: u64| flights_ordered(old(flights)@, n) ==> #[trigger] flights_ordered(final(flights)@, n),
        forall|k: int| 0 <= k < final(flights)@.len() ==> (#[trigger] final(flights)@[k]).flow.job.0 != job.0,
        forall|k: int| 0 <= k < final(flights)@.len() ==> holds_flight(old(flights)@, #[trigger] final(flights)@[k]),
        forall|j: int| 0 <= j < old(flights)@.len() && (#[trigger] old(flights)@[j]).flow.job.0 != job.0 ==> holds_flight(final(flights)@, old(flights)@[j]),
        !emit ==> final(bytes_epoch)@ == old(bytes_epoch)@ && *final(traces) == *old(traces),
{
    let mut ids: Vec<u64> = Vec::new();
    let mut k: usize = 0;
    while k < flights.len()
        invariant
            k <= flights@.len(),
            flights@ == old(flights)@,
            ids_distinct(old(flights)@),
            forall|q: int| 0 <= q < ids@.len() ==> held_by_job(old(flights)@, #[trigger] ids@[q], job),
            forall|j: int| 0 <= j < k && (#[trigger] old(flights)@[j]).flow.job.0 == job.0 ==> has_id(ids@, 0, old(flights)@[j].id),
        decreases flights@.len() - k,
    {
        let ghost ids0 = ids@;
        if flights[k].flow.job.0 == job.0 {
            ids.push(flights[k].id);
            proof {
                let q = ids@.len() - 1;
                assert(old(flights)@[k as int].id == ids@[q]);
                assert(held_by_job(old(flights)@, ids@[q], job));
            }
        }
        proof {
            assert forall|j: int| 0 <= j < k + 1 && (#[trigger] old(flights)@[j]).flow.job.0 == job.0 implies has_id(ids@, 0, old(flights)@[j].id) by {
                if j < k {
                    assert(has_id(ids0, 0, old(flights)@[j].id));
                    let q = choose|q: int| 0 <= q < ids0.len() && ids0[q] == old(flights)@[j].id;
                    assert(ids@[q] == ids0[q]);
                } else {
                    assert(ids@[ids@.len() - 1] == old(flights)@[j].id);
                }
            }
        }
        k = k + 1;
    }
    proof {
        assert forall|k: int| 0 <= k < flights@.len() implies holds_flight(old(flights)@, #[trigger] flights@[k]) by {
            assert(old(flights)@[k] == flights@[k]);
        }
        assert forall|j: int| 0 <= j < old(flights)@.len() && (#[trigger] old(flights)@[j]).flow.job.0 != job.0 implies holds_flight(flights@, old(flights)@[j]) by {
            assert(flights@[j] == old(flights)@[j]);
        }
    }
    let mut z: usize = 0;
    while z < ids.len()
        invariant
            z <= ids@.len(),
            traces.wf(),
            traces.events@ == old(traces).events@,
            traces.jobs@ == old(traces).jobs@,
            traces.admit_ok == old(traces).admit_ok,
            traces.admit_reject == old(traces).admit_reject,
            bytes_epoch@.len() == old(bytes_epoch)@.len(),
            bytes_epoch@.len() == graph.links@.len(),
            dead_links_idle(graph, bytes_epoch@),
            forall|n: u64| flights_ordered(old(flights)@, n) ==> #[trigger] flights_ordered(flights@, n),
            ids_distinct(old(flights)@),
            ids_distinct(flights@),
            forall|q: int| 0 <= q < ids@.len() ==> held_by_job(old(flights)@, #[trigger] ids@[q], job),
            forall|k: int| 0 <= k < flights@.len() && (#[trigger] flights@[k]).flow.job.0 == job.0 ==> has_id(ids@, z as int, flights@[k].id),
            forall|k: int| 0 <= k < flights@.len() ==> holds_flight(old(flights)@, #[trigger] flights@[k]),
            forall|j: int| 0 <= j < old(flights)@.len() && (#[trigger] old(flights)@[j]).flow.job.0 != job.0 ==> holds_flight(flights@, old(flights)@[j]),
            !emit ==> bytes_epoch@ == old(bytes_epoch)@ && *traces == *old(traces),
        decreases ids@.len() - z,
    {
        let id = ids[z];
        let ghost f0 = flights@;
        match find_flight(flights, id) {
            Some(i) => {
                proof {
                    lemma_found_is_job(old(flights)@, f0, ids@, z as int, i as int, job);
                }
                if emit && flights[i].inflight {
                    let l = &flights[i].flow;
                    let moved = moved_bytes(l.rate_Bps, l.bytes, l.t_arrive_ps, now);
                    let nf = LiveFlow {
                        job: l.job,
                        phase: l.phase,
                        src: l.src,
                        dst: l.dst,
                        path: copy_path(&l.path),
                        rate_Bps: l.rate_Bps,
                        bytes: moved,
                        t_arrive_ps: l.t_arrive_ps,
                        t_depart_ps: now,
                    };
                    flights.set(i, Flight { id, flow: nf, inflight: true });
                    let ghost f1 = flights@;
                    proof {
                        assert(f1 == f0.update(i as int, f1[i as int]));
                        assert(f1[i as int].id == id);
                    }
                    flow_depart(flights, bytes_epoch, traces, graph, id, now);
                    proof {
                        let j = choose|j: int|
                            0 <= j < f1.len() && f1[j].id == id && flights@ == f1.remove(j);
                        if j != i {
                            assert(f0[j as int].id == f1[j as int].id);
                            assert(false);
                        }
                        lemma_remove_keeps(f0, i as int, old(flights)@, ids@, z as int, job);
                        assert(flights@ =~= f0.remove(i as int));
                        assert forall|n: u64| flights_ordered(old(flights)@, n) implies #[trigger] flights_ordered(flights@, n) by {
                            lemma_ordered_remove(f0, i as int, n);
                        }
                    }
                } else {
                    flights.remove(i);
                    proof {
                        lemma_remove_keeps(f0, i as int, old(flights)@, ids@, z as int, job);
                        assert forall|n: u64| flights_ordered(old(flights)@, n) implies #[trigger] flights_ordered(flights@, n) by {
                            lemma_ordered_remove(f0, i as int, n);
                        }
                    }
                }
            },
            None => {
                proof {
                    assert forall|k: int| 0 <= k < flights@.len() && (#[trigger] flights@[k]).flow.job.0 == job.0 implies has_id(ids@, z + 1, flights@[k].id) by {
                        assert(has_id(ids@, z as int, flights@[k].id));
                        let q = choose|q: int| z <= q < ids@.len() && ids@[q] == flights@[k].id;
                        assert(q != z);
                    }
                }
            },
        }
        z = z + 1;
    }
}

/// The flight found under a collected id belongs to the job.
proof fn lemma_found_is_job(o: Seq<Flight>, f: Seq<Flight>, ids: Seq<u64>, z: int, i: int, job: JobId)
    requires
        ids_distinct(o),
        0 <= z < ids.len(),
        0 <= i < f.len(),
        f[i].id == ids[z],
        forall|q: int| 0 <= q < ids.len() ==> held_by_job(o, #[trigger] ids[q], job),
        forall|k: int| 0 <= k < f.len() ==> holds_flight(o, #[trigger] f[k]),
    ensures
        f[i].flow.job.0 == job.0,
{
    assert(holds_flight(o, f[i]));
    let j1 = choose|j: int| 0 <= j < o.len() && o[j] == f[i];
    assert(held_by_job(o, ids[z], job));
    let j2 = choose|j: int| 0 <= j < o.len() && (#[trigger] o[j]).id == ids[z] && o[j].flow.job.0 == job.0;
    assert(o[j1].id == o[j2].id);
    if j1 != j2 {
        assert(o[j1].id != o[j2].id);
    }
}

/// Removing the flight found under `ids[z]` keeps what the loop knows, one index on.
proof fn lemma_remove_keeps(f: Seq<Flight>, i: int, o: Seq<Flight>, ids: Seq<u64>, z: int, job: JobId)
    requires
        0 <= z < ids.len(),
        0 <= i < f.len(),
        f[i].id == ids[z],
        f[i].flow.job.0 == job.0,
        ids_distinct(f),
        forall|k: int| 0 <= k < f.len() && (#[trigger] f[k]).flow.job.0 == job.0 ==> has_id(ids, z, f[k].id),
        forall|k: int| 0 <= k < f.len() ==> holds_flight(o, #[trigger] f[k]),
        forall|j: int| 0 <= j < o.len() && (#[trigger] o[j]).flow.job.0 != job.0 ==> holds_flight(f, o[j]),
    ensures
        ids_distinct(f.remove(i)),
        forall|k: int| 0 <= k < f.remove(i).len() && (#[trigger] f.remove(i)[k]).flow.job.0 == job.0 ==> has_id(ids, z + 1, f.remove(i)[k].id),
        forall|k: int| 0 <= k < f.remove(i).len() ==> holds_flight(o, #[trigger] f.remove(i)[k]),
        forall|j: int| 0 <= j < o.len() && (#[trigger] o[j]).flow.job.0 != job.0 ==> holds_flight(f.remove(i), o[j]),
{
    let t = f.remove(i);
    assert forall|a: int, b: int| 0 <= a < t.len() && 0 <= b < t.len() && a != b implies (#[trigger] t[a]).id != (#[trigger] t[b]).id by {
        let a2 = if a < i { a } else { a + 1 };
        let b2 = if b < i { b } else { b + 1 };
        assert(t[a] == f[a2] && t[b] == f[b2]);
    }
    assert forall|k: int| 0 <= k < t.len() && (#[trigger] t[k]).flow.job.0 == job.0 implies has_id(ids, z + 1, t[k].id) by {
        let k2 = if k < i { k } else { k + 1 };
        assert(t[k] == f[k2]);
        assert(has_id(ids, z, f[k2].id));
        let q = choose|q: int| z <= q < ids.len() && ids[q] == f[k2].id;
        if q == z {
            assert(f[k2].id == f[i].id);
        }
    }
    assert forall|k: int| 0 <= k < t.len() implies holds_flight(o, #[trigger] t[k]) by {
        let k2 = if k < i { k } else { k + 1 };
        assert(t[k] == f[k2]);
        assert(holds_flight(o, f[k2]));
    }
    assert forall|j: int| 0 <= j < o.len() && (#[trigger] o[j]).flow.job.0 != job.0 implies holds_flight(t, o[j]) by {
        assert(holds_flight(f, o[j]));
        let k = choose|k: int| 0 <= k < f.len() && f[k] == o[j];
        assert(k != i);
        let k2 = if k < i { k } else { k - 1 };
        assert(t[k2] == f[k]);
    }
}

proof fn lemma_ordered_remove(s: Seq<Flight>, i: int, n: u64)
    requires
        flights_ordered(s, n),
        0 <= i < s.len(),
    ensures
        flights_ordered(s.remove(i), n),
{
    let t = s.remove(i);
    assert forall|a: int, b: int| 0 <= a < b < t.len() implies (#[trigger] t[a]).id < (#[trigger] t[b]).id by {
        let a2 = if a < i { a } else { a + 1 };
        let b2 = if b < i { b } else { b + 1 };
        assert(t[a] == s[a2] && t[b] == s[b2]);
    }
    assert forall|k: int| 0 <= k < t.len() implies (#[trigger] t[k]).id < n by {
        let k2 = if k < i { k } else { k + 1 };
        assert(t[k] == s[k2]);
    }
}

/// The flights of jobs other than `job`, in order.
pub open spec fn others_of(fl: Seq<Flight>, job: JobId) -> Seq<Flight>
    decreases fl.len(),
{
    if fl.len() == 0 {
        Seq::empty()
    } else {
        let prev = others_of(fl.drop_last(), job);
        if fl.last().flow.job.0 != job.0 {
            prev.push(fl.last())
        } else {
            prev
        }
    }
}

/// Two flights alike in every field (routes compared by their links).
pub open spec fn same_flight(a: Flight, b: Flight) -> bool {
    &&& a.id == b.id
    &&& a.inflight == b.inflight
    &&& a.flow.job == b.flow.job
    &&& a.flow.phase == b.flow.phase
    &&& a.flow.src == b.flow.src
    &&& a.flow.dst == b.flow.dst
    &&& a.flow.path.links@ == b.flow.path.links@
    &&& a.flow.rate_Bps == b.flow.rate_Bps
    &&& a.flow.bytes == b.flow.bytes
    &&& a.flow.t_arrive_ps == b.flow.t_arrive_ps
    &&& a.flow.t_depart_ps == b.flow.t_depart_ps
}

/// Take a job's flows off the schedule without recording them; the others
/// stay in order.
fn drop_job_flights(flights: &mut Vec<Flight>, job: JobId)
    ensures
        final(flights)@.len() <= old(flights)@.len(),
        final(flights)@.len() == others_of(old(flights)@, job).len(),
        forall|k: int| 0 <= k < final(flights)@.len() ==> same_flight(#[trigger] final(flights)@[k], others_of(old(flights)@, job)[k]),
        forall|n: u64| flights_ordered(old(flights)@, n) ==> #[trigger] flights_ordered(final(flights)@, n),
{
    let mut out: Vec<Flight> = Vec::new();
    let mut k: usize = 0;
    while k < flights.len()
        invariant
            k <= flights@.len(),
            flights@ == old(flights)@,
            out@.len() <= k,
            out@.len() == others_of(flights@.take(k as int), job).len(),
            forall|q: int| 0 <= q < out@.len() ==> same_flight(#[trigger] out@[q], others_of(flights@.take(k as int), job)[q]),
        decreases flights@.len() - k,
    {
        assert(flights@.take(k + 1).drop_last() =~= flights@.take(k as int));
        if flights[k].flow.job.0 != job.0 {
            let f = &flights[k];
            out.push(Flight { id: f.id, flow: copy_live(&f.flow), inflight: f.inflight });
        }
        k = k + 1;
    }
    assert(flights@.take(flights@.len() as int) =~= flights@);
    proof {
        lemma_others_len(old(flights)@, job);
        assert forall|n: u64| flights_ordered(old(flights)@, n) implies #[trigger] flights_ordered(out@, n) by {
            lemma_others_ordered(old(flights)@, job, n);
        }
    }
    *flights = out;
}

proof fn lemma_others_ordered(fl: Seq<Flight>, job: JobId, n: u64)
    requires
        flights_ordered(fl, n),
    ensures
        flights_ordered(others_of(fl, job), n),
        forall|k: int| 0 <= k < others_of(fl, job).len() ==> exists|j: int| 0 <= j < fl.len() && #[trigger] others_of(fl, job)[k] == fl[j],
    decreases fl.len(),
{
    if fl.len() > 0 {
        let d = fl.drop_last();
        assert(flights_ordered(d, n));
        lemma_others_ordered(d, job, n);
        let od = others_of(d, job);
        assert forall|k: int| 0 <= k < od.len() implies (#[trigger] od[k]).id < fl.last().id by {
            let j = choose|j: int| 0 <= j < d.len() && od[k] == d[j];
            assert(fl[j] == d[j]);
        }
        let o = others_of(fl, job);
        assert forall|k: int| 0 <= k < o.len() implies exists|j: int| 0 <= j < fl.len() && #[trigger] o[k] == fl[j] by {
            if k < od.len() {
                let j = choose|j: int| 0 <= j < d.len() && od[k] == d[j];
                assert(o[k] == fl[j]);
            } else {
                assert(o[k] == fl[fl.len() - 1]);
            }
        }
    }
}

/// Every flight kept by `others_of` comes from the list and is not the job's.
proof fn lemma_others_members(fl: Seq<Flight>, job: JobId)
    ensures
        forall|k: int| 0 <= k < others_of(fl, job).len() ==> (#[trigger] others_of(fl, job)[k]).flow.job.0 != job.0 && exists|j: int|
            0 <= j < fl.len() && #[trigger] fl[j] == others_of(fl, job)[k],
    decreases fl.len(),
{
    if fl.len() > 0 {
        let d = fl.drop_last();
        lemma_others_members(d, job);
        let od = others_of(d, job);
        let o = others_of(fl, job);
        assert forall|k: int| 0 <= k < o.len() implies (#[trigger] o[k]).flow.job.0 != job.0 && exists|j: int| 0 <= j < fl.len() && #[trigger] fl[j] == o[k] by {
            if k < od.len() {
                assert(o[k] == od[k]);
                let j = choose|j: int| 0 <= j < d.len() && #[trigger] d[j] == od[k];
                assert(fl[j] == d[j]);
            } else {
                assert(o[k] == fl.last());
                assert(fl[fl.len() - 1] == fl.last());
            }
        }
    }
}

proof fn lemma_others_len(fl: Seq<Flight>, job: JobId)
    ensures
        others_of(fl, job).len() <= fl.len(),
    decreases fl.len(),
{
    if fl.len() > 0 {
        lemma_others_len(fl.drop_last(), job);
    }
}

/// Link snapshots every period from the last one up to `now`.
fn periodic_snapshots(
    traces: &mut TraceBook,
    last: &mut i128,
    period: i128,
    graph: &Graph,
    residual: &Residual,
    q: &Vec<u64>,
    now: i128,
    load: &Vec<u64>,
)
    requires
        old(traces).wf(),
        period > 0,
        graph_wf(graph),
        graph.links@.len() < u32::MAX,
        q@.len() == graph.links@.len(),
    ensures
        final(traces).wf(),
        final(traces).events@ == old(traces).events@,
        final(traces).flows@ == old(traces).flows@,
        final(traces).jobs@ == old(traces).jobs@,
        final(traces).admit_ok == old(traces).admit_ok,
        final(traces).admit_reject == old(traces).admit_reject,
        clamp_i128(*old(last) + period) > now ==> *final(last) == *old(last) && *final(traces) == *old(traces),
        clamp_i128(*old(last) + period) <= now ==> {
            &&& *old(last) < *final(last) <= now || *final(last) == *old(last) == i128::MAX
            &&& clamp_i128(*final(last) + period) > now || *final(last) == i128::MAX
        },
{
    let mut t = sat_add_i128(*last, period);
    let ghost first = true;
    while t <= now
        invariant_except_break
            first ==> *last == *old(last) && *traces == *old(traces) && t == clamp_i128(*old(last) + period),
            !first ==> t == clamp_i128(*last + period) && t > *last,
        invariant
            !first ==> *old(last) < *last <= now || *last == *old(last) == i128::MAX,
            !first ==> clamp_i128(*old(last) + period) <= now,
            traces.wf(),
            period > 0,
            graph_wf(graph),
            graph.links@.len() < u32::MAX,
            q@.len() == graph.links@.len(),
            traces.events@ == old(traces).events@,
            traces.flows@ == old(traces).flows@,
            traces.jobs@ == old(traces).jobs@,
            traces.admit_ok == old(traces).admit_ok,
            traces.admit_reject == old(traces).admit_reject,
        ensures
            first ==> *last == *old(last) && *traces == *old(traces) && t == clamp_i128(*old(last) + period) && t > now,
            !first ==> clamp_i128(*last + period) > now || *last == i128::MAX,
        decreases now - t,
    {
        snapshot_links(traces, graph, residual, q, t, load, false);
        *last = t;
        proof {
            first = false;
        }
        let nt = sat_add_i128(t, period);
        if nt <= t || nt > now {
            break;
        }
        t = nt;
    }
}

impl Kernel {
    /// A run over the graph with every job's arrival, every failure and the
    /// horizon on the list, in that order. Refused when the fabric is beyond
    /// the sizes the run handles or a job's shape does not match its GPU count.
    pub fn new(cfg: RunConfig) -> (r: Result<Kernel, RunError>)
        requires
            graph_wf(&cfg.graph),
        ensures
            r is Ok <==> graph_fits(&cfg.graph) && forall|k: int|
                0 <= k < cfg.mix.jobs@.len() ==> spec_placeable(#[trigger] cfg.mix.jobs@[k]),
            r is Err ==> r->Err_0 is Usage,
            r matches Ok(k) ==> k.wf() && k.now == 0 && k.policy == cfg.policy && k.strict == cfg.strict
                && k.horizon_ps == cfg.mix.horizon_ps && k.seed == cfg.seed,
            r matches Ok(k) ==> k.graph == cfg.graph && k.mix_hash == cfg.mix_hash && k.topo_hash == cfg.topo_hash
                && k.counts.arrivals == 0 && k.table.by_id@.dom() == Set::<u32>::empty() && k.fail_log@.len() == 0,
            r matches Ok(k) ==> (!k.exhausted ==> arrival_ids_before(k.fel@, cut_time(&cfg)) == due_ids(
                cfg.mix.jobs@,
                cfg.mix.horizon_ps,
            )),
            r matches Ok(k) ==> (!k.exhausted ==> arrivals_before(k.fel@, cut_time(&cfg)) == due_count(
                cfg.mix.jobs@,
                cfg.mix.horizon_ps,
            ) && k.fel@.contains(cut_event(&cfg)) && forall|e: Event|
                e.kind is HorizonCut && #[trigger] k.fel@.contains(e) ==> e == cut_event(&cfg)),
    {
        let ghost cfg0 = cfg;
        if !fits(&cfg.graph) {
            return Err(RunError::Usage(String::from_str("the fabric is larger than a run can hold")));
        }
        let mut specs: BTreeMap<u32, JobSpec> = BTreeMap::new();
        let mut i: usize = 0;
        while i < cfg.mix.jobs.len()
            invariant
                i <= cfg.mix.jobs@.len(),
                graph_fits(&cfg.graph),
                specs_ok(specs@),
                forall|k: int| 0 <= k < i ==> spec_placeable(#[trigger] cfg.mix.jobs@[k]),
                forall|k: int| 0 <= k < i ==> specs@.contains_key((#[trigger] cfg.mix.jobs@[k]).id.0),
            decreases cfg.mix.jobs@.len() - i,
        {
            let j = cfg.mix.jobs[i];
            if !placeable(&j) {
                assert(!spec_placeable(cfg.mix.jobs@[i as int]));
                return Err(RunError::Usage(String::from_str("a job's shape does not match its GPU count")));
            }
            specs.insert(j.id.0, j);
            i = i + 1;
        }
        let RunConfig { graph, mix, policy, seed, strict, mix_hash, topo_hash, fails } = cfg;
        let nlink = graph.links.len();
        let snap = if graph.gpus.len() > 2048 {
            10_000_000_000i128
        } else {
            1_000_000_000i128
        };
        let residual = Residual::new(&graph);
        let mut k = Kernel {
            graph,
            residual,
            table: JobTable::new(),
            fel: Fel::new(),
            traces: TraceBook::new(),
            specs,
            flights: Vec::new(),
            next_flow: 0,
            now: 0,
            recompute_at: None,
            need_cir_replay: false,
            strict,
            clock: LinkClock {
                q_bytes: zeros_u64(nlink),
                overflowed: falses(nlink),
                rate_dt: zeros_i128(nlink),
                hotspot_ps: 0,
            },
            bytes_epoch: zeros_u64(nlink),
            last_periodic_ps: 0,
            snap_period_ps: snap,
            disrupted_ps: 0,
            invariants_ok: true,
            collective_start: BTreeMap::new(),
            collective_durs: Vec::new(),
            job_slo_ok: BTreeMap::new(),
            job_exit: BTreeMap::new(),
            job_slo_miss_ps: 0,
            counts: Counts { arrivals: 0, admits: 0, rejects: 0, kills: 0, completes: 0, slo_misses: 0 },
            rejects_by_code: empty_rejects(),
            seed,
            policy,
            mix_hash,
            topo_hash,
            horizon_ps: mix.horizon_ps,
            pending_end_seq: BTreeMap::new(),
            fail_log: Vec::new(),
            event_trace: Vec::new(),
            admits: Vec::new(),
            exhausted: false,
        };
        let mut a: usize = 0;
        while a < mix.jobs.len()
            invariant
                k.wf(),
                k.now == 0,
                k.policy == policy,
                k.strict == strict,
                k.horizon_ps == mix.horizon_ps,
                k.seed == seed,
                forall|q: int| 0 <= q < mix.jobs@.len() ==> k.specs@.contains_key((#[trigger] mix.jobs@[q]).id.0),
                a <= mix.jobs@.len(),
                mix.jobs@ == cfg0.mix.jobs@,
                mix.horizon_ps == cfg0.mix.horizon_ps,
                fails@ == cfg0.fails@,
                k.graph == cfg0.graph,
                k.mix_hash == cfg0.mix_hash,
                k.topo_hash == cfg0.topo_hash,
                k.counts.arrivals == 0,
                !k.exhausted ==> k.fel.next_seq_spec() == a,
                !k.exhausted && mix.jobs@.len() + fails@.len() < u64::MAX ==> arrivals_before(k.fel@, cut_time(&cfg0))
                    == due_count(mix.jobs@.take(a as int), mix.horizon_ps),
                !k.exhausted && mix.jobs@.len() + fails@.len() < u64::MAX ==> arrival_ids_before(k.fel@, cut_time(&cfg0))
                    == due_ids(mix.jobs@.take(a as int), mix.horizon_ps),
                k.table.by_id@.dom() == Set::<u32>::empty(),
                k.fail_log@.len() == 0,
                forall|e: Event| e.kind is HorizonCut ==> !(#[trigger] k.fel@.contains(e)),
            decreases mix.jobs@.len() - a,
        {
            let j = &mix.jobs[a];
            let ghost f0 = k.fel;
            push_ev(&mut k.fel, &mut k.exhausted, j.arrive.ps, EventKind::JobArrive, EventPayload::JobArrive { job: j.id });
            proof {
                assert(mix.jobs@.take(a + 1).drop_last() =~= mix.jobs@.take(a as int));
                if !k.exhausted && mix.jobs@.len() + fails@.len() < u64::MAX {
                    let ev = Event {
                        t: SimTime { ps: j.arrive.ps, seq: f0.next_seq_spec() },
                        kind: EventKind::JobArrive,
                        payload: EventPayload::JobArrive { job: j.id },
                    };
                    let pos = choose|pos: int| 0 <= pos <= f0@.len() && k.fel@ == f0@.insert(pos, ev);
                    lemma_arrivals_insert(f0@, pos, ev, cut_time(&cfg0));
                    lemma_ids_insert(f0@, pos, ev, cut_time(&cfg0));
                    assert(f0.next_seq_spec() == a);
                    assert(crate::types::time_lt(ev.t, cut_time(&cfg0)) == (j.arrive.ps <= mix.horizon_ps));
                    assert(mix.jobs@.take(a + 1).last() == *j);
                    assert(arrival_ids_before(k.fel@, cut_time(&cfg0)) =~= due_ids(mix.jobs@.take(a + 1), mix.horizon_ps));
                }
                if f0.next_seq_spec() < u64::MAX {
                    let ev = Event {
                        t: SimTime { ps: j.arrive.ps, seq: f0.next_seq_spec() },
                        kind: EventKind::JobArrive,
                        payload: EventPayload::JobArrive { job: j.id },
                    };
                    let pos = choose|pos: int| 0 <= pos <= f0@.len() && k.fel@ == f0@.insert(pos, ev);
                    assert forall|e: Event| e.kind is HorizonCut implies !(#[trigger] k.fel@.contains(e)) by {
                        lemma_insert_member(f0@, pos, ev, e);
                    }
                }
            }
            a = a + 1;
        }
        assert(mix.jobs@.take(mix.jobs@.len() as int) =~= mix.jobs@);
        let mut b: usize = 0;
        while b < fails.len()
            invariant
                k.wf(),
                k.now == 0,
                k.policy == policy,
                k.strict == strict,
                k.horizon_ps == mix.horizon_ps,
                k.seed == seed,
                b <= fails@.len(),
                fails@ == cfg0.fails@,
                k.graph == cfg0.graph,
                k.mix_hash == cfg0.mix_hash,
                k.topo_hash == cfg0.topo_hash,
                mix.jobs@ == cfg0.mix.jobs@,
                mix.horizon_ps == cfg0.mix.horizon_ps,
                k.counts.arrivals == 0,
                !k.exhausted ==> k.fel.next_seq_spec() == mix.jobs@.len() + b,
                !k.exhausted && mix.jobs@.len() + fails@.len() < u64::MAX ==> arrivals_before(k.fel@, cut_time(&cfg0))
                    == due_count(mix.jobs@, mix.horizon_ps),
                !k.exhausted && mix.jobs@.len() + fails@.len() < u64::MAX ==> arrival_ids_before(k.fel@, cut_time(&cfg0))
                    == due_ids(mix.jobs@, mix.horizon_ps),
                k.table.by_id@.dom() == Set::<u32>::empty(),
                k.fail_log@.len() == 0,
                forall|e: Event| e.kind is HorizonCut ==> !(#[trigger] k.fel@.contains(e)),
            decreases fails@.len() - b,
        {
            let (kind, payload) = fails[b].event();
            push_ev(&mut k.fel, &mut k.exhausted, fails[b].t_ps, kind, payload);
            b = b + 1;
        }
        let ghost f1 = k.fel;
        push_ev(&mut k.fel, &mut k.exhausted, mix.horizon_ps, EventKind::HorizonCut, EventPayload::HorizonCut);
        proof {
            if !k.exhausted {
                let pos = choose|pos: int| 0 <= pos <= f1@.len() && k.fel@ == f1@.insert(pos, cut_event(&cfg0));
                assert(k.fel@[pos] == cut_event(&cfg0));
                lemma_arrivals_insert(f1@, pos, cut_event(&cfg0), cut_time(&cfg0));
                lemma_ids_insert(f1@, pos, cut_event(&cfg0), cut_time(&cfg0));
                assert(arrival_ids_before(k.fel@, cut_time(&cfg0)) =~= arrival_ids_before(f1@, cut_time(&cfg0)));
                assert forall|e: Event| e.kind is HorizonCut && #[trigger] k.fel@.contains(e) implies e == cut_event(&cfg0) by {
                    if e != cut_event(&cfg0) {
                        lemma_insert_member(f1@, pos, cut_event(&cfg0), e);
                    }
                }
            }
        }
        Ok(k)
    }
}


/// A record with another state, everything else kept.
pub open spec fn rec_in_state(r: JobRec, st: JobState) -> JobRec {
    JobRec { state: st, ..r }
}

/// Whether the policy is the joint one.
fn is_joint(p: Policy) -> (r: bool)
    ensures
        r == (p is Joint),
{
    match p {
        Policy::Joint => true,
        Policy::Naive => false,
    }
}

impl Kernel {
    /// Move the clock to `now` (never back): links accrue queue, rate-time
    /// and hotspot time at the load on the wire, and periodic snapshots due
    /// by `now` are taken while flows are on the wire.
    fn advance(&mut self, now: i128)
        requires
            old(self).wf(),
        ensures
            same_setup(&*old(self), &*final(self)),
            final(self).counts.arrivals == old(self).counts.arrivals,
            final(self).table.by_id@.dom() == old(self).table.by_id@.dom(),
            final(self).wf(),
            final(self).fel == old(self).fel,
            final(self).specs@ == old(self).specs@,
            final(self).exhausted == old(self).exhausted,
            final(self).strict == old(self).strict,
            final(self).now == if now < old(self).now {
                old(self).now
            } else {
                now
            },
    {
        if now < self.now {
            return ;
        }
        if now > self.now {
            let dt = now - self.now;
            let flows = live_flows(&self.flights);
            let load = inflight_load(self.graph.links.len(), &flows);
            proof {
                crate::kernel::lemma_load_len(self.graph.links@.len() as nat, flows@);
            }
            let ghost rd0 = self.clock.rate_dt@;
            advance_links(&self.graph, &load, &mut self.clock, dt);
            assert forall|i: int| 0 <= i < self.clock.rate_dt@.len() implies #[trigger] self.clock.rate_dt@[i] >= 0 by {
                assert(rd0[i] >= 0);
            }
            if flows.len() > 0 {
                periodic_snapshots(
                    &mut self.traces,
                    &mut self.last_periodic_ps,
                    self.snap_period_ps,
                    &self.graph,
                    &self.residual,
                    &self.clock.q_bytes,
                    now,
                    &load,
                );
            }
        }
        self.now = now;
    }

    /// Capacity check on the wire (and, under the joint policy, committed
    /// rate within each link's admissible rate): a breach clears
    /// `invariants_ok`, and in strict mode stops the run.
    fn check_i1(&mut self) -> (r: Result<(), RunError>)
        requires
            old(self).wf(),
        ensures
            same_setup(&*old(self), &*final(self)),
            final(self).counts.arrivals == old(self).counts.arrivals,
            final(self).table.by_id@.dom() == old(self).table.by_id@.dom(),
            final(self).wf(),
            *final(self) == (Kernel { invariants_ok: final(self).invariants_ok, ..*old(self) }),
            final(self).invariants_ok == (old(self).invariants_ok && !i1_breach(old(self))),
            r is Err <==> (old(self).strict && i1_breach(old(self))),
            r matches Err(e) ==> e matches RunError::Inv(m) && m@ == "I1"@,
            r is Err ==> old(self).strict,
            r matches Err(RunError::Inv(m)) ==> m@ != "I2"@ && m@ != "I3"@,
    {
        let flows = live_flows(&self.flights);
        let n = self.graph.links.len();
        let load = inflight_load(n, &flows);
        proof {
            crate::kernel::lemma_load_len(n as nat, flows@);
            lemma_inv_names();
            lemma_load_same(n as nat, flows@, wire_flows(self.flights@));
        }
        let ghost k0 = *self;
        let mut i: usize = 0;
        while i < n
            invariant
                i <= n,
                n == self.graph.links@.len(),
                load@ == load_of(n as nat, wire_flows(old(self).flights@)),
                load@.len() == n,
                self.wf(),
                *self == (Kernel { invariants_ok: self.invariants_ok, ..*old(self) }),
                self.invariants_ok == (old(self).invariants_ok && !exists|j: int|
                    #![trigger old(self).graph.links@[j]]
                    0 <= j < i && load_of(n as nat, wire_flows(old(self).flights@))[j] > old(self).graph.links@[j].capacity_Bps),
                !old(self).strict || !exists|j: int|
                    #![trigger old(self).graph.links@[j]]
                    0 <= j < i && load_of(n as nat, wire_flows(old(self).flights@))[j] > old(self).graph.links@[j].capacity_Bps,
            decreases n - i,
        {
            if load[i] > self.graph.links[i].capacity_Bps {
                self.invariants_ok = false;
                if self.strict {
                    proof {
                        lemma_inv_names();
                        reveal_strlit("I1");
                        assert(old(self).graph.links@[i as int] == self.graph.links@[i as int]);
                    }
                    return Err(RunError::Inv(String::from_str("I1")));
                }
            }
            i = i + 1;
        }
        if is_joint(self.policy) {
            let mut i: usize = 0;
            while i < n
                invariant
                    i <= n,
                    n == self.graph.links@.len(),
                    old(self).policy is Joint,
                    self.wf(),
                    *self == (Kernel { invariants_ok: self.invariants_ok, ..*old(self) }),
                    self.invariants_ok == (old(self).invariants_ok && !i1_load_breach(old(self)) && !exists|j: int|
                        #![trigger old(self).graph.links@[j]]
                        0 <= j < i && cir_at(old(self).residual.cir@, j) > spec_admissible(&old(self).graph, old(self).graph.links@[j].id)),
                    !old(self).strict || !i1_load_breach(old(self)),
                    !old(self).strict || !exists|j: int|
                        #![trigger old(self).graph.links@[j]]
                        0 <= j < i && cir_at(old(self).residual.cir@, j) > spec_admissible(&old(self).graph, old(self).graph.links@[j].id),
                decreases n - i,
            {
                let cir = if i < self.residual.cir.len() {
                    self.residual.cir[i]
                } else {
                    0
                };
                let cap95 = Residual::admissible(&self.graph, self.graph.links[i].id);
                if cir > cap95 {
                    self.invariants_ok = false;
                    if self.strict {
                        proof {
                            lemma_inv_names();
                            reveal_strlit("I1");
                            assert(old(self).graph.links@[i as int] == self.graph.links@[i as int]);
                        }
                        return Err(RunError::Inv(String::from_str("I1")));
                    }
                }
                i = i + 1;
            }
        }
        Ok(())
    }

    /// A step boundary: a job that exists and is not killed starts its
    /// collective now.
    fn on_step(&mut self, job: JobId, step: u32, now: i128)
        requires
            old(self).wf(),
        ensures
            same_setup(&*old(self), &*final(self)),
            final(self).counts.arrivals == old(self).counts.arrivals,
            final(self).table.by_id@.dom() == old(self).table.by_id@.dom(),
            final(self).wf(),
            fel_budget(&final(self).fel) <= fel_budget(&old(self).fel),
            final(self).now == old(self).now,
            final(self).strict == old(self).strict,
            final(self).flights@ == old(self).flights@,
            can_step(&old(self).table, job) ==> {
                &&& final(self).table.by_id@ == old(self).table.by_id@.insert(
                    job.0,
                    JobRec { state: JobState::Collecting, step_index: step, ..old(self).table.by_id@[job.0] },
                )
                &&& pushed_ev(old(self).fel, final(self).fel, now, EventKind::CollectiveStart, EventPayload::CollectiveStart { job, step })
            },
            !can_step(&old(self).table, job) ==> final(self).table.by_id@ == old(self).table.by_id@ && final(self).fel == old(self).fel,
    {
        let ghost t0 = self.table;
        if begin_step(&mut self.table, job, step) {
            assert forall|id: u32| #[trigger] self.table.by_id@.contains_key(id) implies crate::prepare::shape_ok(
                self.table.by_id@[id].spec,
            ) && self.table.by_id@[id].spec.id == JobId(id) by {
                assert(t0.by_id@.contains_key(id));
            }
            push_ev(
                &mut self.fel,
                &mut self.exhausted,
                now,
                EventKind::CollectiveStart,
                EventPayload::CollectiveStart { job, step },
            );
        }
    }

    /// A collective starts: a job that exists and is neither killed nor
    /// rejected puts its planned flows on the schedule, each phase after
    /// the communicator's earlier ones, and its end is scheduled with the
    /// latest flow (at once when nothing is scheduled). A job with no
    /// planned flow ends at once, with no end awaited.
    fn on_collective_start(&mut self, job: JobId, step: u32, now: i128)
        requires
            old(self).wf(),
        ensures
            same_setup(&*old(self), &*final(self)),
            final(self).counts.arrivals == old(self).counts.arrivals,
            final(self).table.by_id@.dom() == old(self).table.by_id@.dom(),
            final(self).wf(),
            fel_budget(&final(self).fel) <= fel_budget(&old(self).fel),
            final(self).now == old(self).now,
            final(self).strict == old(self).strict,
            final(self).table.by_id@ == old(self).table.by_id@,
            !can_collect(&old(self).table, job) ==> {
                &&& final(self).fel == old(self).fel
                &&& final(self).flights@ == old(self).flights@
                &&& final(self).collective_start@ == old(self).collective_start@
                &&& final(self).pending_end_seq@ == old(self).pending_end_seq@
            },
            can_collect(&old(self).table, job) ==> {
                &&& final(self).collective_start@ == old(self).collective_start@.insert(job.0, now)
                &&& final(self).flights@.len() >= old(self).flights@.len()
                &&& final(self).flights@.take(old(self).flights@.len() as int) == old(self).flights@
                &&& forall|k: int| old(self).flights@.len() <= k < final(self).flights@.len() ==> {
                    &&& !(#[trigger] final(self).flights@[k]).inflight
                    &&& final(self).flights@[k].flow.job == job
                }
            },
            can_collect(&old(self).table, job) && old(self).table.by_id@[job.0].planned@.len() == 0 ==> {
                &&& pushed_ev(old(self).fel, final(self).fel, now, EventKind::CollectiveEnd, EventPayload::CollectiveEnd { job, step })
                &&& final(self).flights@ == old(self).flights@
                &&& final(self).pending_end_seq@ == old(self).pending_end_seq@
            },
            can_collect(&old(self).table, job) && old(self).table.by_id@[job.0].planned@.len() > 0 ==> {
                &&& final(self).pending_end_seq@.contains_key(job.0)
                &&& final(self).pending_end_seq@[job.0] == (if final(self).fel.next_seq_spec() == 0 {
                    0
                } else {
                    (final(self).fel.next_seq_spec() - 1) as u64
                })
            },
            can_collect(&old(self).table, job) && old(self).table.by_id@[job.0].planned@.len() > 0 ==> exists|
                ps: Seq<LiveFlow>,
                end: i128,
            |
                #[trigger] crate::schedule::scheduled(old(self).table.by_id@[job.0].planned@, job, now, ps, end) && (room_for(
                    &*old(self),
                    ps.len() as int,
                ) ==> started(&*old(self), &*final(self), ps, end, job, step)),
    {
        let ghost kin = *self;
        let (any_planned, plan) = match self.table.by_id.get(&job.0) {
            None => return ,
            Some(rec) => {
                match rec.state {
                    JobState::Killed | JobState::Rejected => return ,
                    _ => {},
                }
                (rec.planned.len() > 0, schedule_collective(&rec.planned, job, now))
            },
        };
        proof {
            assert forall|q: int| 0 <= q < plan.flows@.len() implies (#[trigger] plan.flows@[q]).job == job by {
                assert(crate::schedule::scheduled(kin.table.by_id@[job.0].planned@, job, now, plan.flows@, plan.end_ps));
                let ks = choose|ks: Seq<(u32, u32)>| {
                    &&& crate::schedule::keys_in_order(kin.table.by_id@[job.0].planned@, ks)
                    &&& plan.flows@.len() == crate::schedule::sched_of(kin.table.by_id@[job.0].planned@, ks, now).len()
                    &&& forall|k: int|
                        0 <= k < plan.flows@.len() ==> crate::schedule::live_from(
                            #[trigger] plan.flows@[k],
                            crate::schedule::sched_of(kin.table.by_id@[job.0].planned@, ks, now)[k],
                            job,
                        )
                    &&& plan.end_ps == crate::schedule::last_end(crate::schedule::sched_of(kin.table.by_id@[job.0].planned@, ks, now), now)
                };
                assert(crate::schedule::live_from(plan.flows@[q], crate::schedule::sched_of(kin.table.by_id@[job.0].planned@, ks, now)[q], job));
            }
        }
        let ghost sc = crate::schedule::scheduled(kin.table.by_id@[job.0].planned@, job, now, plan.flows@, plan.end_ps);
        assert(sc);
        let ghost room = room_for(&kin, plan.flows@.len() as int);
        let ghost m0 = kin.flights@.len() as int;
        let ghost s0 = kin.fel.next_seq_spec() as int;
        self.collective_start.insert(job.0, now);
        if !any_planned {
            push_ev(
                &mut self.fel,
                &mut self.exhausted,
                now,
                EventKind::CollectiveEnd,
                EventPayload::CollectiveEnd { job, step },
            );
            return ;
        }
        let mut k: usize = 0;
        while k < plan.flows.len()
            invariant
                k <= plan.flows@.len(),
                self.wf(),
                same_setup(&*old(self), &*self),
                self.counts.arrivals == old(self).counts.arrivals,
                self.table.by_id@.dom() == old(self).table.by_id@.dom(),
                fel_budget(&self.fel) <= fel_budget(&old(self).fel),
                self.now == old(self).now,
                self.strict == old(self).strict,
                self.table.by_id@ == old(self).table.by_id@,
                self.collective_start@ == old(self).collective_start@.insert(job.0, now),
                self.pending_end_seq@ == old(self).pending_end_seq@,
                self.flights@.len() >= old(self).flights@.len(),
                self.flights@.take(old(self).flights@.len() as int) == old(self).flights@,
                forall|q: int| 0 <= q < plan.flows@.len() ==> (#[trigger] plan.flows@[q]).job == job,
                forall|q: int| old(self).flights@.len() <= q < self.flights@.len() ==> {
                    &&& !(#[trigger] self.flights@[q]).inflight
                    &&& self.flights@[q].flow.job == job
                },
                room == room_for(&kin, plan.flows@.len() as int),
                m0 == kin.flights@.len(),
                s0 == kin.fel.next_seq_spec(),
                kin.flights@ == old(self).flights@,
                room ==> self.flights@.len() == m0 + k,
                room ==> self.next_flow == kin.next_flow + k,
                room ==> self.fel.next_seq_spec() == s0 + 2 * k,
                room ==> forall|i: int| m0 <= i < m0 + k ==> (#[trigger] self.flights@[i]).id == kin.next_flow + (i - m0),
                room ==> forall|q: int|
                    0 <= q < k ==> {
                        &&& !self.flights@[m0 + q].inflight
                        &&& same_live(self.flights@[m0 + q].flow, #[trigger] plan.flows@[q])
                    },
                room ==> forall|q: int|
                    0 <= q < k ==> flow_events(self.fel@, (kin.next_flow + q) as u64, s0 + 2 * q, #[trigger] plan.flows@[q]),
            decreases plan.flows@.len() - k,
        {
            let ghost fl0 = self.flights@;
            let ghost fel0 = self.fel;
            if self.next_flow == u64::MAX {
                proof {
                    if room {
                        assert(kin.next_flow + plan.flows@.len() < u64::MAX);
                        assert(false);
                    }
                }
                self.exhausted = true;
            } else {
                let id = self.next_flow;
                self.next_flow = self.next_flow + 1;
                let f = copy_live(&plan.flows[k]);
                let t0 = f.t_arrive_ps;
                let t1 = f.t_depart_ps;
                self.flights.push(Flight { id, flow: f, inflight: false });
                proof {
                    assert(self.flights@.take(old(self).flights@.len() as int) =~= fl0.take(old(self).flights@.len() as int));
                }
                push_ev(
                    &mut self.fel,
                    &mut self.exhausted,
                    t0,
                    EventKind::FlowArrive,
                    EventPayload::FlowArrive { flow: crate::types::FlowId(id) },
                );
                let ghost fel1 = self.fel;
                push_ev(
                    &mut self.fel,
                    &mut self.exhausted,
                    t1,
                    EventKind::FlowDepart,
                    EventPayload::FlowDepart { flow: crate::types::FlowId(id) },
                );
                proof {
                    if room {
                        let ea = Event {
                            t: SimTime { ps: t0, seq: (s0 + 2 * k) as u64 },
                            kind: EventKind::FlowArrive,
                            payload: EventPayload::FlowArrive { flow: crate::types::FlowId(id) },
                        };
                        let ed = Event {
                            t: SimTime { ps: t1, seq: (s0 + 2 * k + 1) as u64 },
                            kind: EventKind::FlowDepart,
                            payload: EventPayload::FlowDepart { flow: crate::types::FlowId(id) },
                        };
                        let p1 = choose|pos: int| 0 <= pos <= fel0@.len() && fel1@ == fel0@.insert(pos, ea);
                        let p2 = choose|pos: int| 0 <= pos <= fel1@.len() && self.fel@ == fel1@.insert(pos, ed);
                        assert(fel1.next_seq_spec() == s0 + 2 * k + 1);
                        assert(id == kin.next_flow + k);
                        assert(self.flights@.len() == m0 + k + 1);
                        assert(self.flights@[m0 + k].id == id);
                        assert forall|q: int| 0 <= q < k + 1 implies {
                            &&& self.flights@[m0 + q].id == kin.next_flow + q
                            &&& !self.flights@[m0 + q].inflight
                            &&& same_live(self.flights@[m0 + q].flow, #[trigger] plan.flows@[q])
                            &&& flow_events(self.fel@, (kin.next_flow + q) as u64, s0 + 2 * q, plan.flows@[q])
                        } by {
                            if q < k {
                                assert(self.flights@[m0 + q] == fl0[m0 + q]);
                                let fq = plan.flows@[q];
                                let a1 = Event {
                                    t: SimTime { ps: fq.t_arrive_ps, seq: (s0 + 2 * q) as u64 },
                                    kind: EventKind::FlowArrive,
                                    payload: EventPayload::FlowArrive { flow: crate::types::FlowId((kin.next_flow + q) as u64) },
                                };
                                let d1 = Event {
                                    t: SimTime { ps: fq.t_depart_ps, seq: (s0 + 2 * q + 1) as u64 },
                                    kind: EventKind::FlowDepart,
                                    payload: EventPayload::FlowDepart { flow: crate::types::FlowId((kin.next_flow + q) as u64) },
                                };
                                lemma_insert_contains(fel0@, p1, ea, a1);
                                lemma_insert_contains(fel1@, p2, ed, a1);
                                lemma_insert_contains(fel0@, p1, ea, d1);
                                lemma_insert_contains(fel1@, p2, ed, d1);
                            } else {
                                assert(self.flights@[m0 + q] == self.flights@[self.flights@.len() - 1]);
                                lemma_insert_contains(fel0@, p1, ea, ea);
                                lemma_insert_contains(fel1@, p2, ed, ea);
                                lemma_insert_contains(fel1@, p2, ed, ed);
                            }
                        }
                        assert forall|i: int| m0 <= i < m0 + k + 1 implies (#[trigger] self.flights@[i]).id == kin.next_flow + (i - m0) by {
                            if i < m0 + k {
                                assert(self.flights@[i] == fl0[i]);
                            }
                        }
                    }
                }
            }
            k = k + 1;
        }
        let end = if plan.flows.len() == 0 {
            now
        } else {
            plan.end_ps
        };
        let ghost fel2 = self.fel;
        push_ev(
            &mut self.fel,
            &mut self.exhausted,
            end,
            EventKind::CollectiveEnd,
            EventPayload::CollectiveEnd { job, step },
        );
        let seq = self.fel.last_push_seq();
        self.pending_end_seq.insert(job.0, seq);
        proof {
            if room {
                let ee = Event {
                    t: SimTime { ps: end, seq: (s0 + 2 * plan.flows@.len()) as u64 },
                    kind: EventKind::CollectiveEnd,
                    payload: EventPayload::CollectiveEnd { job, step },
                };
                assert(end == plan.end_ps) by {
                    if plan.flows@.len() == 0 {
                        let ks = choose|ks: Seq<(u32, u32)>| {
                            &&& crate::schedule::keys_in_order(kin.table.by_id@[job.0].planned@, ks)
                            &&& plan.flows@.len() == crate::schedule::sched_of(kin.table.by_id@[job.0].planned@, ks, now).len()
                            &&& forall|k: int|
                                0 <= k < plan.flows@.len() ==> crate::schedule::live_from(
                                    #[trigger] plan.flows@[k],
                                    crate::schedule::sched_of(kin.table.by_id@[job.0].planned@, ks, now)[k],
                                    job,
                                )
                            &&& plan.end_ps == crate::schedule::last_end(crate::schedule::sched_of(kin.table.by_id@[job.0].planned@, ks, now), now)
                        };
                    }
                }
                let p3 = choose|pos: int| 0 <= pos <= fel2@.len() && self.fel@ == fel2@.insert(pos, ee);
                lemma_insert_contains(fel2@, p3, ee, ee);
                assert forall|q: int| 0 <= q < plan.flows@.len() implies flow_events(
                    self.fel@,
                    (kin.next_flow + q) as u64,
                    s0 + 2 * q,
                    #[trigger] plan.flows@[q],
                ) by {
                    assert(flow_events(fel2@, (kin.next_flow + q) as u64, s0 + 2 * q, plan.flows@[q]));
                    let fq = plan.flows@[q];
                    let a1 = Event {
                        t: SimTime { ps: fq.t_arrive_ps, seq: (s0 + 2 * q) as u64 },
                        kind: EventKind::FlowArrive,
                        payload: EventPayload::FlowArrive { flow: crate::types::FlowId((kin.next_flow + q) as u64) },
                    };
                    let d1 = Event {
                        t: SimTime { ps: fq.t_depart_ps, seq: (s0 + 2 * q + 1) as u64 },
                        kind: EventKind::FlowDepart,
                        payload: EventPayload::FlowDepart { flow: crate::types::FlowId((kin.next_flow + q) as u64) },
                    };
                    lemma_insert_contains(fel2@, p3, ee, a1);
                    lemma_insert_contains(fel2@, p3, ee, d1);
                }
                assert(started(&kin, &*self, plan.flows@, plan.end_ps, job, step));
            }
        }
    }

    /// A flow reaches the wire; the capacity check follows.
    fn on_flow_arrive(&mut self, flow: u64) -> (r: Result<(), RunError>)
        requires
            old(self).wf(),
        ensures
            same_setup(&*old(self), &*final(self)),
            final(self).counts.arrivals == old(self).counts.arrivals,
            final(self).table.by_id@.dom() == old(self).table.by_id@.dom(),
            final(self).wf(),
            fel_budget(&final(self).fel) <= fel_budget(&old(self).fel),
            final(self).now == old(self).now,
            final(self).strict == old(self).strict,
            r is Err ==> old(self).strict,
            r matches Err(RunError::Inv(m)) ==> m@ != "I2"@ && m@ != "I3"@,
            final(self).fel == old(self).fel,
            final(self).table.by_id@ == old(self).table.by_id@,
            (forall|k: int| 0 <= k < old(self).flights@.len() ==> (#[trigger] old(self).flights@[k]).id != flow) ==> final(self).flights@
                == old(self).flights@,
            (exists|k: int| 0 <= k < old(self).flights@.len() && (#[trigger] old(self).flights@[k]).id == flow) ==> exists|i: int|
                {
                    &&& 0 <= i < old(self).flights@.len()
                    &&& old(self).flights@[i].id == flow
                    &&& final(self).flights@.len() == old(self).flights@.len()
                    &&& same_flight(final(self).flights@[i], Flight { inflight: true, ..old(self).flights@[i] })
                    &&& forall|j: int| 0 <= j < old(self).flights@.len() && j != i ==> #[trigger] final(self).flights@[j] == old(self).flights@[j]
                },
            final(self).invariants_ok == (old(self).invariants_ok && !i1_breach(final(self))),
            r is Err <==> (old(self).strict && i1_breach(final(self))),
            r matches Err(e) ==> e is Inv,
    {
        match find_flight(&self.flights, flow) {
            Some(i) => {
                let f = Flight { id: self.flights[i].id, flow: copy_live(&self.flights[i].flow), inflight: true };
                self.flights.set(i, f);
            },
            None => {},
        }
        self.check_i1()
    }

    /// A flow leaves: it is taken off the schedule, its bytes count on the
    /// live links of its path, and its row is recorded; an unknown flow
    /// changes nothing.
    fn on_flow_depart(&mut self, flow: u64, now: i128)
        requires
            old(self).wf(),
        ensures
            same_setup(&*old(self), &*final(self)),
            final(self).counts.arrivals == old(self).counts.arrivals,
            final(self).table.by_id@.dom() == old(self).table.by_id@.dom(),
            final(self).wf(),
            final(self).fel == old(self).fel,
            final(self).now == old(self).now,
            final(self).strict == old(self).strict,
            (forall|k: int| 0 <= k < old(self).flights@.len() ==> (#[trigger] old(self).flights@[k]).id != flow) ==> {
                &&& final(self).flights@ == old(self).flights@
                &&& final(self).bytes_epoch@ == old(self).bytes_epoch@
                &&& final(self).traces == old(self).traces
            },
            (exists|k: int| 0 <= k < old(self).flights@.len() && (#[trigger] old(self).flights@[k]).id == flow) ==> exists|i: int|
                {
                    &&& 0 <= i < old(self).flights@.len()
                    &&& old(self).flights@[i].id == flow
                    &&& final(self).flights@ == old(self).flights@.remove(i)
                    &&& final(self).traces.flows@.len() == old(self).traces.flows@.len() + 1
                    &&& final(self).traces.flows@.last().flow_id == flow
                },
    {
        flow_depart(&mut self.flights, &mut self.bytes_epoch, &mut self.traces, &self.graph, flow, now);
    }
}


/// A collective of `job` lasting `dur` against its deadline `deadline`: a
/// longer one marks the job's deadline missed and adds the excess (saturating)
/// to the total; otherwise neither changes.
pub open spec fn slo_after_collective(
    slo_ok: Map<u32, bool>,
    miss_ps: i128,
    job: JobId,
    dur: i128,
    deadline: i128,
    slo_ok2: Map<u32, bool>,
    miss_ps2: i128,
) -> bool {
    if dur > deadline {
        &&& slo_ok2 == slo_ok.insert(job.0, false)
        &&& miss_ps2 == clamp_i128(miss_ps + clamp_i128(dur - deadline))
    } else {
        &&& slo_ok2 == slo_ok
        &&& miss_ps2 == miss_ps
    }
}

/// A collective that overruns its deadline leaves the job marked as having
/// missed it, with the excess added; one within the deadline changes neither
/// the marks nor the total.
pub proof fn law_overrun_marks_miss(
    slo_ok: Map<u32, bool>,
    miss_ps: i128,
    job: JobId,
    dur: i128,
    deadline: i128,
    slo_ok2: Map<u32, bool>,
    miss_ps2: i128,
)
    requires
        slo_after_collective(slo_ok, miss_ps, job, dur, deadline, slo_ok2, miss_ps2),
        miss_ps >= 0,
    ensures
        dur > deadline ==> slo_ok2.contains_key(job.0) && !slo_ok2[job.0] && miss_ps2 >= miss_ps && (miss_ps < i128::MAX
            ==> miss_ps2 > miss_ps),
        dur > deadline ==> forall|id: u32| id != job.0 ==> slo_ok2.contains_key(id) == slo_ok.contains_key(id) && (
        slo_ok.contains_key(id) ==> slo_ok2[id] == slo_ok[id]),
        dur <= deadline ==> slo_ok2 == slo_ok && miss_ps2 == miss_ps,
{
}

impl Kernel {
    /// The awaited end of a collective: a job that exists and is not killed
    /// counts the step; a collective longer than the deadline marks the job's
    /// deadline missed and adds the excess; the next step starts after the
    /// compute time, or the job completes, leaves, and rates are recomputed.
    fn on_collective_end(&mut self, job: JobId, step: u32, now: i128, seq: u64)
        requires
            old(self).wf(),
        ensures
            same_setup(&*old(self), &*final(self)),
            final(self).counts.arrivals == old(self).counts.arrivals,
            final(self).table.by_id@.dom() == old(self).table.by_id@.dom(),
            final(self).wf(),
            fel_budget(&final(self).fel) <= fel_budget(&old(self).fel),
            final(self).now == old(self).now,
            final(self).strict == old(self).strict,
            !(old(self).pending_end_seq@.contains_key(job.0) && old(self).pending_end_seq@[job.0] == seq) ==> {
                &&& final(self).table.by_id@ == old(self).table.by_id@
                &&& final(self).fel == old(self).fel
                &&& final(self).collective_durs@ == old(self).collective_durs@
                &&& final(self).collective_start@ == old(self).collective_start@
                &&& final(self).job_slo_ok@ == old(self).job_slo_ok@
                &&& final(self).job_slo_miss_ps == old(self).job_slo_miss_ps
            },
            old(self).pending_end_seq@.contains_key(job.0) && old(self).pending_end_seq@[job.0] == seq ==> {
                &&& final(self).collective_start@ == old(self).collective_start@.remove(job.0)
                &&& !can_step(&old(self).table, job) ==> final(self).job_slo_ok@ == old(self).job_slo_ok@
                    && final(self).job_slo_miss_ps == old(self).job_slo_miss_ps
                &&& can_step(&old(self).table, job) ==> slo_after_collective(
                    old(self).job_slo_ok@,
                    old(self).job_slo_miss_ps,
                    job,
                    clamp_i128(now - (if old(self).collective_start@.contains_key(job.0) {
                        old(self).collective_start@[job.0]
                    } else {
                        now
                    })),
                    old(self).table.by_id@[job.0].spec.deadline_ps,
                    final(self).job_slo_ok@,
                    final(self).job_slo_miss_ps,
                )
                &&& !can_step(&old(self).table, job) ==> {
                    &&& final(self).table.by_id@ == old(self).table.by_id@
                    &&& final(self).fel == old(self).fel
                    &&& final(self).collective_durs@ == old(self).collective_durs@
                }
                &&& can_step(&old(self).table, job) ==> {
                    &&& final(self).table.by_id@ == old(self).table.by_id@.insert(job.0, after_step(old(self).table.by_id@[job.0], step))
                    &&& final(self).collective_durs@ == old(self).collective_durs@.push(
                        clamp_i128(now - (if old(self).collective_start@.contains_key(job.0) {
                            old(self).collective_start@[job.0]
                        } else {
                            now
                        })),
                    )
                }
                &&& can_step(&old(self).table, job) && after_step(old(self).table.by_id@[job.0], step).state == JobState::Completed ==> {
                    &&& final(self).job_exit@ == old(self).job_exit@.insert(job.0, now)
                    &&& final(self).recompute_at == Some(now)
                }
            },
    {
        match self.pending_end_seq.get(&job.0) {
            Some(s) => {
                if *s != seq {
                    return ;
                }
            },
            None => return ,
        }
        let t0 = match self.collective_start.remove(&job.0) {
            Some(t) => t,
            None => now,
        };
        let dur = sat_sub_i128(now, t0);
        let ghost tb = self.table;
        let se = match end_step(&mut self.table, job, step) {
            None => return ,
            Some(x) => x,
        };
        assert forall|id: u32| #[trigger] self.table.by_id@.contains_key(id) implies crate::prepare::shape_ok(
            self.table.by_id@[id].spec,
        ) && self.table.by_id@[id].spec.id == JobId(id) by {
            assert(tb.by_id@.contains_key(id));
        }
        if dur > se.deadline_ps {
            self.job_slo_ok.insert(job.0, false);
            self.job_slo_miss_ps = sat_add_i128(self.job_slo_miss_ps, sat_sub_i128(dur, se.deadline_ps));
        }
        self.collective_durs.push(dur);
        if se.more {
            let next = if step < u32::MAX {
                step + 1
            } else {
                u32::MAX
            };
            push_ev(
                &mut self.fel,
                &mut self.exhausted,
                sat_add_i128(now, se.compute_ps),
                EventKind::StepBoundary,
                EventPayload::StepBoundary { job, step: next },
            );
        } else {
            self.job_exit.insert(job.0, now);
            let ghost tr = self.table;
            release_job(&mut self.table, &mut self.residual, &self.graph, job);
            assert(self.table.by_id@ == tr.by_id@);
            let ghost j0 = decisions_of(self.traces.jobs@);
            write_job_trace(&mut self.traces, &self.table, job, "admit", now);
            let n = self.traces.jobs.len();
            proof {
                lemma_decision_words();
                lemma_count_push(j0, "admit"@, "admit"@);
                lemma_count_push(j0, "admit"@, "kill"@);
                crate::trace::lemma_count_word_le(j0, "admit"@);
                assert(j0.len() < n);
            }
            self.counts.completes = self.counts.completes.saturating_add(1);
            self.need_cir_replay = true;
            queue_recompute(&mut self.recompute_at, &mut self.fel, &mut self.exhausted, now, RecomputeReason::JobExit(job));
        }
    }

    /// Replay one live job's commitments against the leftover (admissible
    /// rates under the joint policy, physical leftover under naive): its
    /// flows take the new rates and its commitments are added on the links.
    fn fill_job_cir(&mut self, id: u32)
        requires
            old(self).wf(),
        ensures
            same_setup(&*old(self), &*final(self)),
            final(self).counts.arrivals == old(self).counts.arrivals,
            final(self).table.by_id@.dom() == old(self).table.by_id@.dom(),
            final(self).wf(),
            final(self).fel == old(self).fel,
            final(self).now == old(self).now,
            final(self).strict == old(self).strict,
            final(self).table.by_id@.dom() == old(self).table.by_id@.dom(),
            forall|k: u32| #[trigger] final(self).table.by_id@.contains_key(k) ==> final(self).table.by_id@[k].state == old(self).table.by_id@[k].state
                && final(self).table.by_id@[k].admit_seq == old(self).table.by_id@[k].admit_seq,
            final(self).table.occ == old(self).table.occ,
            final(self).table.next_admit_seq == old(self).table.next_admit_seq,
            *final(self) == (Kernel { table: final(self).table, residual: final(self).residual, ..*old(self) }),
            !old(self).table.by_id@.contains_key(id) ==> final(self).table.by_id@ == old(self).table.by_id@ && final(self).residual
                == old(self).residual,
            old(self).table.by_id@.contains_key(id) ==> {
                &&& refilled(old(self).table.by_id@[id], final(self).table.by_id@[id], leftover_of(old(self)))
                &&& final(self).table.by_id@ == old(self).table.by_id@.insert(id, final(self).table.by_id@[id])
                &&& cir_injected(old(self).residual.cir@, final(self).table.by_id@[id].cir@, |e: u32| true, final(self).residual.cir@)
            },
    {
        let leftover = if is_joint(self.policy) {
            copy_u64s(&self.residual.r_avail)
        } else {
            self.residual.physical_leftover(&self.graph)
        };
        assert(leftover@ == leftover_of(old(self)));
        let (planned, cir) = match self.table.by_id.get(&id) {
            None => return ,
            Some(rec) => refill(&rec.planned, &leftover),
        };
        let keys = sorted_map_keys(&cir);
        let mut z: usize = 0;
        while z < keys.len()
            invariant
                z <= keys@.len(),
                keys@.no_duplicates(),
                self.wf(),
                *self == (Kernel { residual: self.residual, ..*old(self) }),
                self.residual.cir@.len() == old(self).residual.cir@.len(),
                forall|i: int| 0 <= i < old(self).residual.cir@.len() ==> #[trigger] self.residual.cir@[i] == inj_val(
                    old(self).residual.cir@,
                    cir@,
                    |e: u32| true,
                    keys@.take(z as int),
                    i,
                ),
            decreases keys@.len() - z,
        {
            let ghost cur = self.residual.cir@;
            let e = keys[z];
            match cir.get(&e) {
                Some(rho) => {
                    if *rho > 0 {
                        self.residual.inject_cir(&self.graph, LinkId(e), *rho);
                    }
                },
                None => {},
            }
            proof {
                crate::residual::lemma_inject_step(old(self).residual.cir@, cur, self.residual.cir@, cir@, |e: u32| true, keys@, z as int);
            }
            z = z + 1;
        }
        proof {
            crate::residual::lemma_inject_done(old(self).residual.cir@, self.residual.cir@, cir@, |e: u32| true, keys@);
        }
        let ghost tb = self.table;
        match self.table.by_id.remove(&id) {
            Some(rec) => {
                let new = JobRec { planned, cir, ..rec };
                self.table.by_id.insert(id, new);
                assert(self.table.by_id@ == tb.by_id@.insert(id, new));
                assert(refilled(tb.by_id@[id], new, leftover@));
                assert forall|k: u32| #[trigger] self.table.by_id@.contains_key(k) implies crate::prepare::shape_ok(
                    self.table.by_id@[k].spec,
                ) && self.table.by_id@[k].spec.id == JobId(k) by {
                    assert(tb.by_id@.contains_key(k));
                }
                assert(self.table.by_id@.dom() =~= tb.by_id@.dom());
            },
            None => {},
        }
    }

    /// Clear every commitment and replay the live jobs' in admission order.
    fn replay_cir(&mut self)
        requires
            old(self).wf(),
        ensures
            same_setup(&*old(self), &*final(self)),
            final(self).counts.arrivals == old(self).counts.arrivals,
            final(self).table.by_id@.dom() == old(self).table.by_id@.dom(),
            final(self).wf(),
            final(self).fel == old(self).fel,
            final(self).now == old(self).now,
            final(self).strict == old(self).strict,
            *final(self) == (Kernel { table: final(self).table, residual: final(self).residual, ..*old(self) }),
            final(self).table.by_id@.dom() == old(self).table.by_id@.dom(),
            forall|x: u32| #[trigger] old(self).table.by_id@.contains_key(x) ==> if crate::prepare::live_in(&old(self).table, x) {
                exists|lo: Seq<u64>| refilled(old(self).table.by_id@[x], final(self).table.by_id@[x], lo)
            } else {
                final(self).table.by_id@[x] == old(self).table.by_id@[x]
            },
            exists|ids: Seq<u32>|
                {
                    &&& ids.no_duplicates()
                    &&& forall|x: u32| ids.contains(x) <==> crate::prepare::live_in(&old(self).table, x)
                    &&& forall|i: int| 0 <= i < final(self).residual.cir@.len() ==> #[trigger] final(self).residual.cir@[i] == cir_total(
                        final(self).table.by_id@,
                        ids,
                        i,
                    )
                },
    {
        self.residual.clear_cir(&self.graph);
        let ids = live_in_admit_order(&self.table);
        let mut k: usize = 0;
        proof {
            assert forall|i: int| 0 <= i < self.residual.cir@.len() implies #[trigger] self.residual.cir@[i] == cir_total(
                self.table.by_id@,
                ids@.take(0),
                i,
            ) by {
                assert(ids@.take(0).len() == 0);
            }
        }
        while k < ids.len()
            invariant
                k <= ids@.len(),
                ids@.no_duplicates(),
                forall|x: u32| ids@.contains(x) <==> crate::prepare::live_in(&old(self).table, x),
                self.wf(),
                *self == (Kernel { table: self.table, residual: self.residual, ..*old(self) }),
                self.table.by_id@.dom() == old(self).table.by_id@.dom(),
                forall|x: u32| #[trigger] old(self).table.by_id@.contains_key(x) ==> self.table.by_id@[x].state == old(self).table.by_id@[x].state,
                forall|x: u32| #[trigger] old(self).table.by_id@.contains_key(x) ==> if ids@.take(k as int).contains(x) {
                    exists|lo: Seq<u64>| refilled(old(self).table.by_id@[x], self.table.by_id@[x], lo)
                } else {
                    self.table.by_id@[x] == old(self).table.by_id@[x]
                },
                forall|i: int| 0 <= i < self.residual.cir@.len() ==> #[trigger] self.residual.cir@[i] == cir_total(
                    self.table.by_id@,
                    ids@.take(k as int),
                    i,
                ),
            decreases ids@.len() - k,
        {
            let x = ids[k];
            let ghost t0 = self.table.by_id@;
            let ghost c0 = self.residual.cir@;
            let ghost k0 = *self;
            proof {
                assert(ids@.contains(x));
                assert(!ids@.take(k as int).contains(x)) by {
                    if ids@.take(k as int).contains(x) {
                        let j = choose|j: int| 0 <= j < k && ids@.take(k as int)[j] == x;
                        assert(ids@[j] == ids@[k as int]);
                    }
                }
                assert(ids@.take(k + 1) =~= ids@.take(k as int).push(x));
            }
            self.fill_job_cir(x);
            proof {
                let tk = ids@.take(k as int);
                assert(t0.contains_key(x));
                assert(self.table.by_id@ == t0.insert(x, self.table.by_id@[x]));
                assert forall|i: int| 0 <= i < self.residual.cir@.len() implies #[trigger] self.residual.cir@[i] == cir_total(
                    self.table.by_id@,
                    ids@.take(k + 1),
                    i,
                ) by {
                    lemma_cir_total_insert(t0, x, self.table.by_id@[x], tk, i);
                    assert(c0[i] == cir_total(t0, tk, i));
                    assert(ids@.take(k + 1).drop_last() =~= tk);
                }
                assert forall|y: u32| #[trigger] old(self).table.by_id@.contains_key(y) implies if ids@.take(k + 1).contains(y) {
                    exists|lo: Seq<u64>| refilled(old(self).table.by_id@[y], self.table.by_id@[y], lo)
                } else {
                    self.table.by_id@[y] == old(self).table.by_id@[y]
                } by {
                    if y == x {
                        assert(ids@.take(k + 1)[k as int] == x);
                        assert(ids@.take(k + 1).contains(x));
                        assert(t0[x] == old(self).table.by_id@[x]);
                        assert(k0.table.by_id@[x] == t0[x]);
                        assert(refilled(old(self).table.by_id@[y], self.table.by_id@[y], leftover_of(&k0)));
                    } else {
                        assert(ids@.take(k + 1).contains(y) == tk.contains(y)) by {
                            if ids@.take(k + 1).contains(y) {
                                let j = choose|j: int| 0 <= j < k + 1 && #[trigger] ids@.take(k + 1)[j] == y;
                                assert(j < k);
                                assert(tk[j] == y);
                            }
                            if tk.contains(y) {
                                let j = choose|j: int| 0 <= j < k && #[trigger] tk[j] == y;
                                assert(ids@.take(k + 1)[j] == y);
                            }
                        }
                        assert(self.table.by_id@[y] == t0[y]);
                        if tk.contains(y) {
                            let lo = choose|lo: Seq<u64>| refilled(old(self).table.by_id@[y], t0[y], lo);
                            assert(refilled(old(self).table.by_id@[y], self.table.by_id@[y], lo));
                        }
                    }
                }
            }
            k = k + 1;
        }
        proof {
            assert(ids@.take(ids@.len() as int) =~= ids@);
        }
    }

    /// The flows on the wire take the rates they actually get.
    fn recompute_realized(&mut self)
        requires
            old(self).wf(),
        ensures
            same_setup(&*old(self), &*final(self)),
            final(self).counts.arrivals == old(self).counts.arrivals,
            final(self).table.by_id@.dom() == old(self).table.by_id@.dom(),
            final(self).wf(),
            final(self).fel == old(self).fel,
            final(self).now == old(self).now,
            final(self).strict == old(self).strict,
            *final(self) == (Kernel { flights: final(self).flights, ..*old(self) }),
            final(self).flights@.len() == old(self).flights@.len(),
            forall|k: int| 0 <= k < old(self).flights@.len() && !(#[trigger] old(self).flights@[k]).inflight ==> final(self).flights@[k]
                == old(self).flights@[k],
            forall|k: int| 0 <= k < old(self).flights@.len() && (#[trigger] old(self).flights@[k]).inflight ==> same_flight(
                final(self).flights@[k],
                Flight { flow: LiveFlow { rate_Bps: final(self).flights@[k].flow.rate_Bps, ..old(self).flights@[k].flow }, ..old(self).flights@[k] },
            ),
            exists|pos: Seq<int>, ps: Seq<Path>, base: Seq<u64>|
                #[trigger] realized_by(old(self).flights@, final(self).flights@, old(self).graph.links@, pos, ps, base),
    {
        let mut idx: Vec<usize> = Vec::new();
        let mut paths: Vec<Path> = Vec::new();
        let mut k: usize = 0;
        while k < self.flights.len()
            invariant
                k <= self.flights@.len(),
                self.flights@ == old(self).flights@,
                idx@.len() == paths@.len(),
                forall|q: int| 0 <= q < idx@.len() ==> #[trigger] idx@[q] < k,
                forall|q: int| 0 <= q < idx@.len() ==> old(self).flights@[#[trigger] idx@[q] as int].inflight,
                forall|a: int, b: int| 0 <= a < b < idx@.len() ==> (#[trigger] idx@[a]) < (#[trigger] idx@[b]),
                forall|j: int| 0 <= j < k && (#[trigger] old(self).flights@[j]).inflight ==> exists|q: int| 0 <= q < idx@.len() && idx@[q] == j,
                forall|q: int| 0 <= q < idx@.len() ==> (#[trigger] paths@[q]).links@ == old(self).flights@[idx@[q] as int].flow.path.links@,
            decreases self.flights@.len() - k,
        {
            if self.flights[k].inflight {
                let ghost i0 = idx@;
                idx.push(k);
                paths.push(copy_path(&self.flights[k].flow.path));
                proof {
                    assert forall|j: int| 0 <= j < k + 1 && (#[trigger] old(self).flights@[j]).inflight implies exists|q: int|
                        0 <= q < idx@.len() && idx@[q] == j by {
                        if j < k {
                            let q = choose|q: int| 0 <= q < i0.len() && i0[q] == j;
                            assert(idx@[q] == i0[q]);
                        } else {
                            assert(idx@[idx@.len() - 1] == j);
                        }
                    }
                }
            }
            k = k + 1;
        }
        let ghost pos = Seq::new(idx@.len(), |q: int| idx@[q] as int);
        proof {
            assert(wire_positions(old(self).flights@, pos)) by {
                assert forall|j: int| 0 <= j < old(self).flights@.len() && (#[trigger] old(self).flights@[j]).inflight implies exists|q: int|
                    0 <= q < pos.len() && pos[q] == j by {
                    let q = choose|q: int| 0 <= q < idx@.len() && idx@[q] == j;
                    assert(pos[q] == j);
                }
            }
        }
        if idx.len() == 0 {
            proof {
                let e: Seq<Path> = Seq::empty();
                let b: Seq<u64> = Seq::empty();
                assert(pos.len() == 0);
                assert(forall|f: int| 0 <= f < b.len() ==> #[trigger] b[f] == 0);
                assert(realized_by(old(self).flights@, self.flights@, old(self).graph.links@, pos, e, b));
            }
            return ;
        }
        let rates = realized_rates(&self.graph, &self.residual, &paths);
        let mut q: usize = 0;
        while q < idx.len()
            invariant
                q <= idx@.len(),
                rates@.len() == idx@.len(),
                pos == Seq::new(idx@.len(), |z: int| idx@[z] as int),
                forall|z: int| 0 <= z < idx@.len() ==> #[trigger] idx@[z] < self.flights@.len(),
                forall|z: int| 0 <= z < idx@.len() ==> old(self).flights@[#[trigger] idx@[z] as int].inflight,
                forall|a: int, b: int| 0 <= a < b < idx@.len() ==> (#[trigger] idx@[a]) < (#[trigger] idx@[b]),
                self.wf(),
                *self == (Kernel { flights: self.flights, ..*old(self) }),
                self.flights@.len() == old(self).flights@.len(),
                forall|k: int| 0 <= k < old(self).flights@.len() && !(#[trigger] old(self).flights@[k]).inflight ==> self.flights@[k]
                    == old(self).flights@[k],
                forall|k: int| 0 <= k < old(self).flights@.len() && (#[trigger] old(self).flights@[k]).inflight ==> same_flight(
                    self.flights@[k],
                    Flight { flow: LiveFlow { rate_Bps: self.flights@[k].flow.rate_Bps, ..old(self).flights@[k].flow }, ..old(self).flights@[k] },
                ),
                forall|z: int| 0 <= z < q ==> self.flights@[#[trigger] pos[z]].flow.rate_Bps == rates@[z],
            decreases idx@.len() - q,
        {
            let i = idx[q];
            let l = &self.flights[i].flow;
            let nf = LiveFlow {
                job: l.job,
                phase: l.phase,
                src: l.src,
                dst: l.dst,
                path: copy_path(&l.path),
                rate_Bps: rates[q],
                bytes: l.bytes,
                t_arrive_ps: l.t_arrive_ps,
                t_depart_ps: l.t_depart_ps,
            };
            let f = Flight { id: self.flights[i].id, flow: nf, inflight: self.flights[i].inflight };
            let ghost f0 = self.flights@;
            self.flights.set(i, f);
            proof {
                assert(pos[q as int] == i);
                assert forall|z: int| 0 <= z < q + 1 implies self.flights@[#[trigger] pos[z]].flow.rate_Bps == rates@[z] by {
                    if z < q {
                        assert(pos[z] == idx@[z] as int);
                        assert(idx@[z] < idx@[q as int]);
                        assert(self.flights@[pos[z]] == f0[pos[z]]);
                    }
                }
            }
            q = q + 1;
        }
        proof {
            let base = choose|base: Seq<u64>|
                {
                    &&& base.len() == paths@.len()
                    &&& (forall|f: int| 0 <= f < base.len() ==> #[trigger] base[f] == 0) || ((forall|f: int|
                        0 <= f < base.len() ==> #[trigger] base[f] >= 1) && crate::waterfill::feasible(
                        crate::paths::paths_view(paths@),
                        base,
                        live_capacity(self.graph.links@),
                    ))
                    &&& rates@ == crate::kernel::scale_rounds(self.graph.links@, paths@, base, 8)
                };
            assert forall|z: int| 0 <= z < pos.len() implies (#[trigger] paths@[z]).links@ == old(self).flights@[pos[z]].flow.path.links@ by {
                assert(pos[z] == idx@[z] as int);
            }
            assert forall|z: int| 0 <= z < pos.len() implies self.flights@[#[trigger] pos[z]].flow.rate_Bps
                == crate::kernel::scale_rounds(old(self).graph.links@, paths@, base, 8)[z] by {
            }
            assert(realized_by(old(self).flights@, self.flights@, old(self).graph.links@, pos, paths@, base));
        }
    }

    /// A rate recompute: replay commitments when due, recompute the rates
    /// on the wire, check capacity, and snapshot every link.
    fn on_recompute(&mut self, now: i128) -> (r: Result<(), RunError>)
        requires
            old(self).wf(),
        ensures
            same_setup(&*old(self), &*final(self)),
            final(self).counts.arrivals == old(self).counts.arrivals,
            final(self).table.by_id@.dom() == old(self).table.by_id@.dom(),
            r is Err ==> old(self).strict,
            r matches Err(RunError::Inv(m)) ==> m@ != "I2"@ && m@ != "I3"@,
            final(self).wf(),
            fel_budget(&final(self).fel) <= fel_budget(&old(self).fel),
            final(self).now == old(self).now,
            final(self).strict == old(self).strict,
            final(self).recompute_at is None,
            !final(self).need_cir_replay,
            final(self).graph == old(self).graph,
            final(self).fel == old(self).fel,
            final(self).table.by_id@.dom() == old(self).table.by_id@.dom(),
            !old(self).need_cir_replay ==> final(self).table == old(self).table && final(self).residual == old(self).residual,
            r is Err <==> (old(self).strict && i1_breach(final(self))),
            r matches Err(e) ==> e matches RunError::Inv(m) && m@ == "I1"@,
            r is Err ==> final(self).traces == old(self).traces,
            r is Ok ==> offered_all(
                old(self).traces,
                snap_rows(
                    &final(self).graph,
                    &final(self).residual,
                    final(self).clock.q_bytes@,
                    now,
                    Seq::empty(),
                    true,
                    final(self).graph.links@.len() as int,
                ),
                final(self).traces,
            ),
    {
        self.recompute_at = None;
        if self.need_cir_replay {
            self.replay_cir();
            self.need_cir_replay = false;
        }
        self.recompute_realized();
        self.check_i1()?;
        let none: Vec<u64> = Vec::new();
        assert(none@ == Seq::<u64>::empty());
        snapshot_links(&mut self.traces, &self.graph, &self.residual, &self.clock.q_bytes, now, &none, true);
        Ok(())
    }
}


proof fn lemma_head_le(s: Seq<Event>, ps: i128)
    ensures
        0 <= crate::fel::head_len_at(s, ps) <= s.len(),
    decreases s.len(),
{
    if s.len() > 0 && s[0].t.ps == ps {
        lemma_head_le(s.drop_first(), ps);
    }
}

impl Kernel {
    /// An arrival: it is counted and admitted or rejected by first-fit
    /// admission, under either policy (the simulator has no joint admission
    /// controller, so a joint run admits as a naive one does). An admit records
    /// the job's deadlines as met so far and recomputes rates; a reject counts
    /// under its code and records the job's row. Either way the admission log
    /// gets a record. With no admit or event sequence number left the run is
    /// marked exhausted instead.
    fn on_arrive(&mut self, job: JobId) -> (r: Result<(), RunError>)
        requires
            old(self).wf_core(),
            old(self).counts.arrivals + 1 == count_word(kinds_of(old(self).traces.events@), "JobArrive"@),
            old(self).specs@.contains_key(job.0),
        ensures
            same_setup(&*old(self), &*final(self)),
            final(self).wf(),
            fel_budget(&final(self).fel) <= fel_budget(&old(self).fel),
            final(self).now == old(self).now,
            final(self).strict == old(self).strict,
            final(self).counts.arrivals == old(self).counts.arrivals + 1,
            !final(self).exhausted ==> final(self).table.by_id@.dom() == old(self).table.by_id@.dom().insert(job.0),
            !final(self).exhausted ==> final(self).table.by_id@[job.0].spec == old(self).specs@[job.0],
            !final(self).exhausted ==> final(self).admits@.len() == old(self).admits@.len() + 1
                && final(self).admits@.last().job_id == job.0 && final(self).admits@.last().ok == (
                final(self).table.by_id@[job.0].reject is None) && final(self).admits@.last().reject
                == final(self).table.by_id@[job.0].reject,
            !final(self).exhausted ==> if crate::naive::spec_first_fit(
                old(self).table.occ.by_gpu@,
                &old(self).graph,
                old(self).specs@[job.0].gpu_count as nat,
            ).len() < old(self).specs@[job.0].gpu_count {
                &&& final(self).table.by_id@[job.0].state == JobState::Rejected
                &&& final(self).table.by_id@[job.0].reject == Some(RejectCode::NoFreeGpus)
                &&& final(self).counts.rejects == plus_one(old(self).counts.rejects)
            } else {
                &&& final(self).table.by_id@[job.0].state == JobState::Computing
                &&& final(self).table.by_id@[job.0].reject is None
                &&& final(self).counts.admits == plus_one(old(self).counts.admits)
            },
            final(self).job_slo_miss_ps == old(self).job_slo_miss_ps,
            if !(old(self).table.next_admit_seq == u64::MAX || old(self).fel.next_seq_spec() == u64::MAX)
                && crate::naive::spec_first_fit(
                old(self).table.occ.by_gpu@,
                &old(self).graph,
                old(self).specs@[job.0].gpu_count as nat,
            ).len() >= old(self).specs@[job.0].gpu_count {
                final(self).job_slo_ok@ == old(self).job_slo_ok@.insert(job.0, true)
            } else {
                final(self).job_slo_ok@ == old(self).job_slo_ok@
            },
            r is Ok,
    {
        let ne = self.traces.events.len();
        proof {
            crate::trace::lemma_count_word_le(kinds_of(self.traces.events@), "JobArrive"@);
            lemma_decision_words();
        }
        self.counts.arrivals = self.counts.arrivals.saturating_add(1);
        let spec = match self.specs.get(&job.0) {
            Some(x) => *x,
            None => {
                let mut m = String::from_str("unknown job ");
                push_decimal(&mut m, job.0 as u128);
                return Err(RunError::Io(m));
            },
        };
        assert(self.specs@.contains_key(job.0) && spec == self.specs@[job.0]);
        let free = count_free(&self.table, &self.graph);
        if self.table.next_admit_seq == u64::MAX || self.fel.next_seq() == u64::MAX {
            self.exhausted = true;
            return Ok(());
        }
        let ghost tb = self.table;
        let ghost f0 = self.fel@;
        let outcome = naive_admit(&spec, &self.graph, &mut self.residual, &mut self.table, &mut self.fel);
        proof {
            if outcome is Ok {
                let ev = Event {
                    t: crate::types::SimTime {
                        ps: clamp_i128(spec.arrive.ps + spec.compute_ps),
                        seq: old(self).fel.next_seq_spec(),
                    },
                    kind: EventKind::StepBoundary,
                    payload: EventPayload::StepBoundary { job: spec.id, step: 0 },
                };
                let pos = choose|pos: int| 0 <= pos <= f0.len() && self.fel@ == #[trigger] f0.insert(pos, ev);
                lemma_insert_kept(f0, pos, ev);
            } else {
                assert(self.fel@ == f0);
            }
        }
        assert forall|i: int| 0 <= i < self.fel@.len() implies spec_matches_payload(
            #[trigger] self.fel@[i].kind,
            self.fel@[i].payload,
        ) by {
            if outcome is Ok {
                let pos = choose|pos: int|
                    0 <= pos <= f0.len() && self.fel@ == #[trigger] f0.insert(
                        pos,
                        Event {
                            t: crate::types::SimTime {
                                ps: clamp_i128(spec.arrive.ps + spec.compute_ps),
                                seq: old(self).fel.next_seq_spec(),
                            },
                            kind: EventKind::StepBoundary,
                            payload: EventPayload::StepBoundary { job: spec.id, step: 0 },
                        },
                    );
                if i < pos {
                    assert(self.fel@[i] == f0[i]);
                } else if i > pos {
                    assert(self.fel@[i] == f0[i - 1]);
                }
            } else {
                assert(self.fel@[i] == f0[i]);
            }
        }
        assert forall|id: u32| #[trigger] self.table.by_id@.contains_key(id) implies crate::prepare::shape_ok(
            self.table.by_id@[id].spec,
        ) && self.table.by_id@[id].spec.id == JobId(id) by {
            if id != spec.id.0 {
                assert(self.table.by_id@.remove(spec.id.0).contains_key(id));
                assert(tb.by_id@.remove(spec.id.0).contains_key(id));
                assert(self.table.by_id@[id] == self.table.by_id@.remove(spec.id.0)[id]);
                assert(tb.by_id@[id] == tb.by_id@.remove(spec.id.0)[id]);
            }
        }
        match outcome {
            Ok(()) => {
                self.counts.admits = self.counts.admits.saturating_add(1);
                self.job_slo_ok.insert(job.0, true);
                let rec = admit_record(&self.table, &self.graph, &self.residual, &spec, free, true, None);
                self.traces.count_admit("admit");
                self.admits.push(rec);
                let now = self.now;
                queue_recompute(&mut self.recompute_at, &mut self.fel, &mut self.exhausted, now, RecomputeReason::Admit(job));
            },
            Err(code) => {
                self.counts.rejects = self.counts.rejects.saturating_add(1);
                bump_reject(&mut self.rejects_by_code, code);
                let rec = admit_record(&self.table, &self.graph, &self.residual, &spec, free, false, Some(code));
                self.traces.count_admit("reject");
                self.admits.push(rec);
                let now = self.now;
                let ghost j0 = decisions_of(self.traces.jobs@);
                write_job_trace(&mut self.traces, &self.table, job, "reject", now);
                proof {
                    lemma_count_push(j0, "reject"@, "admit"@);
                    lemma_count_push(j0, "reject"@, "kill"@);
                }
            },
        }
        Ok(())
    }

    /// The horizon: every computing or collecting job is killed (a
    /// collecting one adds its time in the collective to the disrupted
    /// time), its flows dropped and its GPUs freed; then commitments are
    /// replayed, rates recomputed and every link snapshot.
    fn on_horizon(&mut self, now: i128)
        requires
            old(self).wf(),
        ensures
            same_setup(&*old(self), &*final(self)),
            final(self).counts.arrivals == old(self).counts.arrivals,
            final(self).table.by_id@.dom() == old(self).table.by_id@.dom(),
            final(self).wf(),
            final(self).fel == old(self).fel,
            final(self).now == old(self).now,
            final(self).strict == old(self).strict,
            final(self).graph == old(self).graph,
            final(self).table.by_id@.dom() == old(self).table.by_id@.dom(),
            forall|x: u32| #[trigger] old(self).table.by_id@.contains_key(x) ==> final(self).table.by_id@[x].state == if crate::epoch::is_live(
                old(self).table.by_id@[x].state,
            ) {
                JobState::Killed
            } else {
                old(self).table.by_id@[x].state
            },
            forall|x: u32| !crate::prepare::live_in(&final(self).table, x),
            forall|q: int| 0 <= q < final(self).flights@.len() ==> !crate::prepare::live_in(&old(self).table, (#[trigger] final(self).flights@[q]).flow.job.0),
    {
        let ids = sorted_map_keys(&self.table.by_id);
        let mut k: usize = 0;
        while k < ids.len()
            invariant
                same_setup(&*old(self), &*self),
                self.counts.arrivals == old(self).counts.arrivals,
                self.table.by_id@.dom() == old(self).table.by_id@.dom(),
                k <= ids@.len(),
                ids@.to_set() == old(self).table.by_id@.dom(),
                ids@.no_duplicates(),
                self.wf(),
                self.fel == old(self).fel,
                self.now == old(self).now,
                self.strict == old(self).strict,
                self.graph == old(self).graph,
                self.table.by_id@.dom() == old(self).table.by_id@.dom(),
                forall|x: u32| #[trigger] old(self).table.by_id@.contains_key(x) ==> self.table.by_id@[x].state == if ids@.take(k as int).contains(x)
                    && crate::epoch::is_live(old(self).table.by_id@[x].state) {
                    JobState::Killed
                } else {
                    old(self).table.by_id@[x].state
                },
                forall|q: int| 0 <= q < self.flights@.len() ==> (ids@.take(k as int).contains((#[trigger] self.flights@[q]).flow.job.0)
                    ==> !crate::prepare::live_in(&old(self).table, self.flights@[q].flow.job.0)),
            decreases ids@.len() - k,
        {
            let id = ids[k];
            let ghost tk = ids@.take(k as int);
            let ghost t_in = self.table.by_id@;
            let ghost fl_in = self.flights@;
            proof {
                assert(ids@.take(k + 1) =~= tk.push(id));
                assert(ids@.to_set().contains(id));
                assert(!tk.contains(id)) by {
                    if tk.contains(id) {
                        let j = choose|j: int| 0 <= j < k && #[trigger] tk[j] == id;
                        assert(ids@[j] == ids@[k as int]);
                    }
                }
                assert forall|x: u32| ids@.take(k + 1).contains(x) <==> tk.contains(x) || x == id by {
                    if tk.contains(x) {
                        let j = choose|j: int| 0 <= j < k && #[trigger] tk[j] == x;
                        assert(ids@.take(k + 1)[j] == x);
                    }
                    if x == id {
                        assert(ids@.take(k + 1)[k as int] == id);
                    }
                    if ids@.take(k + 1).contains(x) {
                        let j = choose|j: int| 0 <= j < k + 1 && #[trigger] ids@.take(k + 1)[j] == x;
                        if j < k {
                            assert(tk[j] == x);
                        }
                    }
                }
            }
            let st = match self.table.by_id.get(&id) {
                Some(r) => Some(r.state),
                None => None,
            };
            let kill = match st {
                Some(JobState::Computing) => true,
                Some(JobState::Collecting) => {
                    match self.collective_start.get(&id) {
                        Some(t0) => {
                            self.disrupted_ps = sat_add_i128(self.disrupted_ps, sat_sub_i128(now, *t0));
                        },
                        None => {},
                    }
                    true
                },
                _ => false,
            };
            if kill {
                let ghost tb = self.table;
                match self.table.by_id.remove(&id) {
                    Some(rec) => {
                        let new = JobRec { state: JobState::Killed, ..rec };
                        self.table.by_id.insert(id, new);
                        assert(self.table.by_id@ == tb.by_id@.insert(id, new));
                        assert forall|x: u32| #[trigger] self.table.by_id@.contains_key(x) implies crate::prepare::shape_ok(
                            self.table.by_id@[x].spec,
                        ) && self.table.by_id@[x].spec.id == JobId(x) by {
                            assert(tb.by_id@.contains_key(x));
                        }
                    },
                    None => {},
                }
                let ghost fl0 = self.flights@;
                drop_job_flights(&mut self.flights, JobId(id));
                proof {
                    lemma_others_members(fl0, JobId(id));
                    assert forall|q: int| 0 <= q < self.flights@.len() && ids@.take(k + 1).contains((#[trigger] self.flights@[q]).flow.job.0)
                        implies !crate::prepare::live_in(&old(self).table, self.flights@[q].flow.job.0) by {
                        let o = others_of(fl0, JobId(id));
                        assert(same_flight(self.flights@[q], o[q]));
                        let j = choose|j: int| 0 <= j < fl0.len() && #[trigger] fl0[j] == o[q];
                        assert(fl0[j].flow.job.0 != id);
                    }
                }
                drop_occ(&mut self.table, JobId(id));
                self.job_exit.insert(id, now);
                let ghost j0 = decisions_of(self.traces.jobs@);
                write_job_trace(&mut self.traces, &self.table, JobId(id), "kill", now);
                let n = self.traces.jobs.len();
                proof {
                    lemma_decision_words();
                    lemma_count_push(j0, "kill"@, "admit"@);
                    lemma_count_push(j0, "kill"@, "kill"@);
                    crate::trace::lemma_count_word_le(j0, "kill"@);
                    assert(j0.len() < n);
                }
                self.counts.kills = self.counts.kills.saturating_add(1);
                self.need_cir_replay = true;
            }
            proof {
                assert forall|x: u32| #[trigger] old(self).table.by_id@.contains_key(x) implies self.table.by_id@[x].state == if ids@.take(k + 1).contains(x)
                    && crate::epoch::is_live(old(self).table.by_id@[x].state) {
                    JobState::Killed
                } else {
                    old(self).table.by_id@[x].state
                } by {
                    if x == id {
                        assert(t_in.contains_key(x));
                    }
                }
                if !kill {
                    assert(self.flights@ == fl_in);
                    assert forall|q: int| 0 <= q < self.flights@.len() && ids@.take(k + 1).contains((#[trigger] self.flights@[q]).flow.job.0)
                        implies !crate::prepare::live_in(&old(self).table, self.flights@[q].flow.job.0) by {
                        if self.flights@[q].flow.job.0 == id {
                            assert(t_in.contains_key(id));
                            assert(!crate::epoch::is_live(t_in[id].state));
                        }
                    }
                }
            }
            k = k + 1;
        }
        proof {
            assert(ids@.take(ids@.len() as int) =~= ids@);
            assert forall|x: u32| ids@.contains(x) <==> old(self).table.by_id@.contains_key(x) by {
                assert(ids@.to_set().contains(x) == ids@.contains(x));
            }
        }
        let ghost t1 = self.table.by_id@;
        let ghost tbl1 = self.table;
        let ghost fl1 = self.flights@;
        if self.need_cir_replay {
            self.replay_cir();
            self.need_cir_replay = false;
        }
        assert forall|x: u32| #[trigger] t1.contains_key(x) implies self.table.by_id@[x].state == t1[x].state by {
            if crate::prepare::live_in(&tbl1, x) && self.table.by_id@ != t1 {
                let lo = choose|lo: Seq<u64>| refilled(t1[x], self.table.by_id@[x], lo);
            }
        }
        self.recompute_realized();
        proof {
            assert forall|q: int| 0 <= q < self.flights@.len() implies !crate::prepare::live_in(&old(self).table, (#[trigger] self.flights@[q]).flow.job.0) by {
                assert(self.flights@[q].flow.job == fl1[q].flow.job);
            }
        }
        let none: Vec<u64> = Vec::new();
        snapshot_links(&mut self.traces, &self.graph, &self.residual, &self.clock.q_bytes, now, &none, true);
    }

    /// Install a prepared epoch at `now`: the failed graph and rebuilt
    /// commitments; byte counts restart; killed jobs lose their flows and
    /// GPUs and record their rows; rerouted jobs take their new routes, and
    /// one caught mid-collective restarts it at once (its flows leaving with
    /// what they moved, the time spent counting as disrupted). Then rates
    /// are recomputed, each kill drains, the epoch advances, the failure is
    /// logged, and the byte-count and route checks run (fatal in strict mode).
    fn commit(&mut self, plan: EpochPlan, now: i128) -> (r: Result<(), RunError>)
        requires
            old(self).wf(),
            plan.graph.params == old(self).graph.params,
            plan.graph.gpus@.len() == old(self).graph.gpus@.len(),
            plan.graph.leaves@.len() == old(self).graph.leaves@.len(),
            plan.graph.spines@.len() == old(self).graph.spines@.len(),
            plan.graph.epoch.0 == epoch_after(old(self).graph.epoch.0, 1),
            graph_wf(&plan.graph),
            plan.residual.consistent(&plan.graph),
            forall|a: int, b: int|
                0 <= a < b < plan.reroutes@.len() ==> (#[trigger] plan.reroutes@[a]).job != (#[trigger] plan.reroutes@[b]).job,
            forall|a: int| 0 <= a < plan.reroutes@.len() ==> !plan.kills@.contains(#[trigger] plan.reroutes@[a].job),
            forall|a: int| 0 <= a < plan.kills@.len() ==> old(self).table.by_id@.contains_key(#[trigger] plan.kills@[a].0),
            forall|i: int| 0 <= i < plan.graph.links@.len() ==> (#[trigger] plan.graph.links@[i]).bytes_this_epoch == 0,
            forall|a: int|
                0 <= a < plan.reroutes@.len() ==> crate::prepare::reroute_sound(
                    #[trigger] plan.reroutes@[a],
                    old(self).table.by_id@[plan.reroutes@[a].job.0].spec,
                    &plan.graph,
                ),
            forall|id: u32|
                #[trigger] crate::prepare::live_in(&old(self).table, id) && !plan.kills@.contains(JobId(id))
                    && !crate::prepare::rerouted(plan.reroutes@, id) ==> !crate::epoch::spec_paths_hit_failed(
                    old(self).table.by_id@[id],
                    &plan.graph,
                ),
        ensures
            same_setup(&*old(self), &*final(self)),
            final(self).counts.arrivals == old(self).counts.arrivals,
            final(self).table.by_id@.dom() == old(self).table.by_id@.dom(),
            final(self).wf(),
            fel_budget(&final(self).fel) <= fel_budget(&old(self).fel),
            final(self).now == old(self).now,
            final(self).strict == old(self).strict,
            r matches Err(e) ==> (e is Inv ==> old(self).strict),
            r matches Err(RunError::Inv(m)) ==> m@ != "I2"@ && m@ != "I3"@,
            r matches Err(e) ==> !(e is Io),
            r is Ok <==> (graph_fits(&plan.graph) && plan.graph.links@.len() == old(self).graph.links@.len()),
            r matches Err(e) ==> e is Usage,
            !(graph_fits(&plan.graph) && plan.graph.links@.len() == old(self).graph.links@.len()) ==> *final(self) == *old(self),
            r is Ok ==> {
                &&& final(self).graph == plan.graph
                &&& final(self).need_cir_replay
                &&& final(self).recompute_at == Some(now)
                &&& final(self).fail_log@.len() == old(self).fail_log@.len() + 1
                &&& final(self).fail_log@.last().epoch_from == plan.from.0
                &&& final(self).fail_log@.last().epoch_to == plan.to.0
                &&& final(self).fail_log@.last().kills@ == plan.kills@.map_values(|j: JobId| j.0)
                &&& forall|a: int| 0 <= a < plan.kills@.len() ==> final(self).table.by_id@[#[trigger] plan.kills@[a].0].state == JobState::Killed
                &&& forall|a: int|
                    0 <= a < plan.reroutes@.len() && old(self).table.by_id@.contains_key(#[trigger] plan.reroutes@[a].job.0)
                        ==> final(self).table.by_id@[plan.reroutes@[a].job.0] == crate::kernel::with_reroute(
                        old(self).table.by_id@[plan.reroutes@[a].job.0],
                        plan.reroutes@[a],
                    )
                &&& final(self).table.by_id@.dom() == old(self).table.by_id@.dom()
                &&& final(self).residual == plan.residual
                &&& forall|q: int, a: int|
                    0 <= q < final(self).flights@.len() && 0 <= a < plan.kills@.len() ==> (#[trigger] final(self).flights@[q]).flow.job.0
                        != (#[trigger] plan.kills@[a]).0
            },
    {
        if !fits(&plan.graph) || plan.graph.links.len() != self.graph.links.len() {
            return Err(RunError::Usage(String::from_str("the fabric is larger than a run can hold")));
        }
        let ghost p0 = plan;
        let EpochPlan { graph, residual, kills, reroutes, from, to } = plan;
        let mut rjobs: Vec<JobId> = Vec::new();
        let mut a: usize = 0;
        while a < reroutes.len()
            invariant
                same_setup(&*old(self), &*self),
                self.counts.arrivals == old(self).counts.arrivals,
                self.table.by_id@.dom() == old(self).table.by_id@.dom(),
                a <= reroutes@.len(),
            decreases reroutes@.len() - a,
        {
            rjobs.push(reroutes[a].job);
            a = a + 1;
        }
        self.graph = graph;
        self.residual = residual;
        self.bytes_epoch = zeros_u64(self.bytes_epoch.len());
        let ghost tb = self.table;
        let ghost rr = reroutes@;
        commit_table(&mut self.table, &kills, reroutes);
        let ghost tbc = self.table;
        assert(forall|a: int|
            0 <= a < p0.reroutes@.len() && tb.by_id@.contains_key(#[trigger] p0.reroutes@[a].job.0) ==> tbc.by_id@[p0.reroutes@[a].job.0]
                == crate::kernel::with_reroute(tb.by_id@[p0.reroutes@[a].job.0], p0.reroutes@[a]));
        let ghost fl0 = self.fail_log@;
        assert(forall|a: int| 0 <= a < kills@.len() ==> self.table.by_id@.contains_key(#[trigger] kills@[a].0));
        assert(!crate::epoch::spec_i3_broken(&self.graph, &self.table)) by {
            assert forall|id: u32|
                #[trigger] self.table.by_id@.contains_key(id) && crate::epoch::is_live(
                    self.table.by_id@[id].state,
                ) implies !crate::epoch::spec_paths_hit_failed(self.table.by_id@[id], &self.graph) by {
                assert(tb.by_id@.contains_key(id));
                if kills@.contains(JobId(id)) {
                    assert(self.table.by_id@[id] == crate::kernel::with_state(tb.by_id@[id], JobState::Killed));
                } else if exists|a: int| 0 <= a < rr.len() && rr[a].job == JobId(id) {
                    let a = choose|a: int| 0 <= a < rr.len() && rr[a].job == JobId(id);
                    assert(self.table.by_id@[rr[a].job.0] == crate::kernel::with_reroute(tb.by_id@[rr[a].job.0], rr[a]));
                    assert(crate::prepare::reroute_sound(rr[a], tb.by_id@[rr[a].job.0].spec, &self.graph));
                } else {
                    assert(!crate::prepare::rerouted(rr, id));
                    assert(crate::prepare::live_in(&tb, id));
                }
            }
        }
        assert forall|x: u32| #[trigger] self.table.by_id@.contains_key(x) implies crate::prepare::shape_ok(
            self.table.by_id@[x].spec,
        ) && self.table.by_id@[x].spec.id == JobId(x) by {
            assert(tb.by_id@.contains_key(x));
            if exists|a: int| 0 <= a < rr.len() && rr[a].job == JobId(x) {
                let a = choose|a: int| 0 <= a < rr.len() && rr[a].job == JobId(x);
                assert(self.table.by_id@[rr[a].job.0] == crate::kernel::with_reroute(tb.by_id@[rr[a].job.0], rr[a]));
            }
        }
        assert(self.wf());
        let mut k: usize = 0;
        while k < kills.len()
            invariant
                same_shape(&*old(self), &*self),
                arrivals_kept(old(self).fel@, self.fel@),
                self.fail_log@ == old(self).fail_log@,
                self.graph.epoch.0 == epoch_after(old(self).graph.epoch.0, 1),
                self.counts.arrivals == old(self).counts.arrivals,
                self.table.by_id@.dom() == old(self).table.by_id@.dom(),
                k <= kills@.len(),
                self.wf(),
                fel_budget(&self.fel) <= fel_budget(&old(self).fel),
                self.now == old(self).now,
                self.strict == old(self).strict,
                forall|x: int| 0 <= x < self.graph.links@.len() ==> (#[trigger] self.graph.links@[x]).bytes_this_epoch == 0,
                !crate::epoch::spec_i3_broken(&self.graph, &self.table),
                forall|a: int| 0 <= a < kills@.len() ==> self.table.by_id@.contains_key(#[trigger] kills@[a].0),
                self.table == tbc,
                self.residual == p0.residual,
                self.graph == p0.graph,
                kills@ == p0.kills@,
                self.fail_log@ == fl0,
                fl0 == old(self).fail_log@,
                forall|q: int, a: int|
                    0 <= q < self.flights@.len() && 0 <= a < k ==> (#[trigger] self.flights@[q]).flow.job.0 != (#[trigger] kills@[a]).0,
            decreases kills@.len() - k,
        {
            let id = kills[k];
            let ghost fa = self.flights@;
            proof {
                lemma_ordered_distinct(self.flights@, self.next_flow);
            }
            abort_job_flows(&mut self.flights, &mut self.bytes_epoch, &mut self.traces, &self.graph, id, now, false);
            proof {
                assert forall|q: int, a: int|
                    0 <= q < self.flights@.len() && 0 <= a < k + 1 implies (#[trigger] self.flights@[q]).flow.job.0 != (#[trigger] kills@[a]).0 by {
                    if a < k {
                        assert(holds_flight(fa, self.flights@[q]));
                        let j = choose|j: int| 0 <= j < fa.len() && #[trigger] fa[j] == self.flights@[q];
                        assert(fa[j].flow.job.0 != kills@[a].0);
                    }
                }
            }
            self.job_exit.insert(id.0, now);
            let ghost j0 = decisions_of(self.traces.jobs@);
            assert(self.table.by_id@.contains_key(kills@[k as int].0));
            write_job_trace(&mut self.traces, &self.table, id, "kill", now);
            let n = self.traces.jobs.len();
            proof {
                lemma_decision_words();
                lemma_count_push(j0, "kill"@, "admit"@);
                lemma_count_push(j0, "kill"@, "kill"@);
                crate::trace::lemma_count_word_le(j0, "kill"@);
                assert(j0.len() < n);
            }
            self.counts.kills = self.counts.kills.saturating_add(1);
            k = k + 1;
        }
        let mut q: usize = 0;
        while q < rjobs.len()
            invariant
                same_shape(&*old(self), &*self),
                arrivals_kept(old(self).fel@, self.fel@),
                self.fail_log@ == old(self).fail_log@,
                self.graph.epoch.0 == epoch_after(old(self).graph.epoch.0, 1),
                self.counts.arrivals == old(self).counts.arrivals,
                self.table.by_id@.dom() == old(self).table.by_id@.dom(),
                q <= rjobs@.len(),
                self.wf(),
                fel_budget(&self.fel) <= fel_budget(&old(self).fel),
                self.now == old(self).now,
                self.strict == old(self).strict,
                forall|x: int| 0 <= x < self.graph.links@.len() ==> (#[trigger] self.graph.links@[x]).bytes_this_epoch == 0,
                !crate::epoch::spec_i3_broken(&self.graph, &self.table),
                self.table == tbc,
                self.residual == p0.residual,
                self.graph == p0.graph,
                kills@ == p0.kills@,
                self.fail_log@ == fl0,
                fl0 == old(self).fail_log@,
                forall|q: int, a: int|
                    0 <= q < self.flights@.len() && 0 <= a < kills@.len() ==> (#[trigger] self.flights@[q]).flow.job.0 != (#[trigger] kills@[a]).0,
            decreases rjobs@.len() - q,
        {
            let ghost fa = self.flights@;
            let rj = rjobs[q];
            let (collecting, step) = match self.table.by_id.get(&rj.0) {
                Some(rec) => (
                    match rec.state {
                        JobState::Collecting => true,
                        _ => false,
                    },
                    rec.step_index,
                ),
                None => (false, 0),
            };
            if collecting {
                match self.collective_start.get(&rj.0) {
                    Some(t0) => {
                        self.disrupted_ps = sat_add_i128(self.disrupted_ps, sat_sub_i128(now, *t0));
                        proof {
                            lemma_ordered_distinct(self.flights@, self.next_flow);
                        }
                        abort_job_flows(&mut self.flights, &mut self.bytes_epoch, &mut self.traces, &self.graph, rj, now, true);
                        proof {
                            assert forall|q: int, a: int|
                                0 <= q < self.flights@.len() && 0 <= a < kills@.len() implies (#[trigger] self.flights@[q]).flow.job.0
                                != (#[trigger] kills@[a]).0 by {
                                assert(holds_flight(fa, self.flights@[q]));
                                let j = choose|j: int| 0 <= j < fa.len() && #[trigger] fa[j] == self.flights@[q];
                                assert(fa[j].flow.job.0 != kills@[a].0);
                            }
                        }
                        push_ev(
                            &mut self.fel,
                            &mut self.exhausted,
                            now,
                            EventKind::CollectiveStart,
                            EventPayload::CollectiveStart { job: rj, step },
                        );
                    },
                    None => {},
                }
            }
            q = q + 1;
        }
        self.need_cir_replay = true;
        queue_recompute(&mut self.recompute_at, &mut self.fel, &mut self.exhausted, now, RecomputeReason::EpochCommit);
        let mut k: usize = 0;
        while k < kills.len()
            invariant
                same_shape(&*old(self), &*self),
                arrivals_kept(old(self).fel@, self.fel@),
                self.fail_log@ == old(self).fail_log@,
                self.graph.epoch.0 == epoch_after(old(self).graph.epoch.0, 1),
                self.counts.arrivals == old(self).counts.arrivals,
                self.table.by_id@.dom() == old(self).table.by_id@.dom(),
                k <= kills@.len(),
                self.wf(),
                fel_budget(&self.fel) <= fel_budget(&old(self).fel),
                self.now == old(self).now,
                self.strict == old(self).strict,
                forall|x: int| 0 <= x < self.graph.links@.len() ==> (#[trigger] self.graph.links@[x]).bytes_this_epoch == 0,
                !crate::epoch::spec_i3_broken(&self.graph, &self.table),
                self.table == tbc,
                self.residual == p0.residual,
                self.graph == p0.graph,
                kills@ == p0.kills@,
                self.fail_log@ == fl0,
                fl0 == old(self).fail_log@,
                self.need_cir_replay,
                self.recompute_at == Some(now),
                forall|q: int, a: int|
                    0 <= q < self.flights@.len() && 0 <= a < kills@.len() ==> (#[trigger] self.flights@[q]).flow.job.0 != (#[trigger] kills@[a]).0,
            decreases kills@.len() - k,
        {
            push_ev(
                &mut self.fel,
                &mut self.exhausted,
                now,
                EventKind::DrainComplete,
                EventPayload::DrainComplete { job: kills[k] },
            );
            k = k + 1;
        }
        push_ev(&mut self.fel, &mut self.exhausted, now, EventKind::EpochAdvance, EventPayload::EpochAdvance { from, to });
        let mut dead: u64 = 0;
        let mut i: usize = 0;
        while i < self.graph.links.len()
            invariant
                same_shape(&*old(self), &*self),
                arrivals_kept(old(self).fel@, self.fel@),
                self.fail_log@ == old(self).fail_log@,
                self.graph.epoch.0 == epoch_after(old(self).graph.epoch.0, 1),
                self.counts.arrivals == old(self).counts.arrivals,
                self.table.by_id@.dom() == old(self).table.by_id@.dom(),
                i <= self.graph.links@.len(),
                self.bytes_epoch@.len() == self.graph.links@.len(),
            decreases self.graph.links@.len() - i,
        {
            if self.graph.links[i].failed {
                dead = dead.saturating_add(self.bytes_epoch[i]);
            }
            i = i + 1;
        }
        let mut kid: Vec<u32> = Vec::new();
        let mut k: usize = 0;
        while k < kills.len()
            invariant
                same_shape(&*old(self), &*self),
                arrivals_kept(old(self).fel@, self.fel@),
                self.fail_log@ == old(self).fail_log@,
                self.graph.epoch.0 == epoch_after(old(self).graph.epoch.0, 1),
                self.counts.arrivals == old(self).counts.arrivals,
                self.table.by_id@.dom() == old(self).table.by_id@.dom(),
                k <= kills@.len(),
                kid@ == kills@.take(k as int).map_values(|j: JobId| j.0),
            decreases kills@.len() - k,
        {
            kid.push(kills[k].0);
            k = k + 1;
            assert(kid@ =~= kills@.take(k as int).map_values(|j: JobId| j.0));
        }
        assert(kills@.take(kills@.len() as int) =~= kills@);
        let mut rid: Vec<u32> = Vec::new();
        let mut k: usize = 0;
        while k < rjobs.len()
            invariant
                same_shape(&*old(self), &*self),
                arrivals_kept(old(self).fel@, self.fel@),
                self.fail_log@ == old(self).fail_log@,
                self.graph.epoch.0 == epoch_after(old(self).graph.epoch.0, 1),
                self.counts.arrivals == old(self).counts.arrivals,
                self.table.by_id@.dom() == old(self).table.by_id@.dom(),
                k <= rjobs@.len(),
            decreases rjobs@.len() - k,
        {
            rid.push(rjobs[k].0);
            k = k + 1;
        }
        self.fail_log.push(
            FailRecord {
                t_ps: #[verifier::truncate] (now as i64),
                kills: kid,
                reroutes: rid,
                epoch_from: from.0,
                epoch_to: to.0,
                dead_link_bytes: dead,
            },
        );
        proof {
            lemma_inv_names();
            assert(!crate::epoch::spec_i2_broken(&self.graph, self.bytes_epoch@)) by {
                assert forall|i: int| 0 <= i < self.graph.links@.len() && (#[trigger] self.graph.links@[i]).failed implies !((
                if (self.graph.links@[i].id.0 as int) < self.bytes_epoch@.len() {
                    self.bytes_epoch@[self.graph.links@[i].id.0 as int]
                } else {
                    self.graph.links@[i].bytes_this_epoch
                }) != 0 || self.graph.links@[i].bytes_this_epoch != 0) by {
                    assert(self.graph.links@[i].id.0 == i);
                }
            }
        }
        if i2_broken(&self.graph, self.bytes_epoch.as_slice()) {
            self.invariants_ok = false;
            if self.strict {
                return Err(RunError::Inv(String::from_str("I2")));
            }
        }
        assert("I3"@ != "I2"@) by {
            lemma_inv_names();
        }
        if i3_broken(&self.graph, &self.table) {
            self.invariants_ok = false;
            if self.strict {
                return Err(RunError::Inv(String::from_str("I3")));
            }
        }
        Ok(())
    }
}


/// Failures keep a graph's sizes: every graph of a failure chain has the
/// parameters and the link, leaf and GPU counts of the first.
proof fn lemma_chain_sizes(chain: Seq<Graph>, fails: Seq<Event>, g: &Graph, k: int)
    requires
        crate::prepare::same_graph(&chain[0], g),
        crate::prepare::fail_chain(chain, fails),
        0 <= k <= fails.len(),
    ensures
        chain[k].params == g.params,
        chain[k].links@.len() == g.links@.len(),
        chain[k].leaves@.len() == g.leaves@.len(),
        chain[k].gpus@.len() == g.gpus@.len(),
        chain[k].spines@.len() == g.spines@.len(),
    decreases k,
{
    if k > 0 {
        lemma_chain_sizes(chain, fails, g, k - 1);
        assert(crate::failures::failed_by(&chain[k - 1], &chain[k], fails[k - 1].payload));
    }
}

impl Kernel {
    /// Failures at one instant: admissions wait; the failures at the head of
    /// the list at that time join the first one (each recorded as an event);
    /// the epoch is prepared on copies and committed. A refused preparation
    /// stops the run (only in strict mode does preparation refuse).
    fn on_fail_star(&mut self, first: Event) -> (r: Result<(), RunError>)
        requires
            old(self).wf(),
        ensures
            same_setup(&*old(self), &*final(self)),
            final(self).counts.arrivals == old(self).counts.arrivals,
            final(self).table.by_id@.dom() == old(self).table.by_id@.dom(),
            final(self).wf(),
            fel_budget(&final(self).fel) <= fel_budget(&old(self).fel),
            final(self).now == old(self).now,
            final(self).strict == old(self).strict,
            r matches Err(e) ==> (e is Inv ==> old(self).strict),
            r matches Err(RunError::Inv(m)) ==> m@ != "I2"@ && m@ != "I3"@,
            r matches Err(e) ==> !(e is Io),
            (r matches Err(e) && e is Inv) <==> (old(self).strict && (crate::epoch::spec_i2_broken(&old(self).graph, old(self).bytes_epoch@)
                || crate::epoch::spec_i3_broken(&old(self).graph, &old(self).table))),
            r matches Err(RunError::Inv(m)) ==> m@ == spec_reject_name(RejectCode::EpochPrepareFailed),
            r matches Err(e) ==> e is Inv,
            (r matches Err(e) && e is Inv) ==> final(self).graph == old(self).graph && final(self).table == old(self).table
                && final(self).fail_log == old(self).fail_log,
            r is Ok ==> {
                &&& final(self).fail_log@.len() == old(self).fail_log@.len() + 1
                &&& final(self).need_cir_replay
                &&& final(self).recompute_at == Some(first.t.ps)
            },
    {
        let ghost f0 = self.fel@;
        let more = self.fel.drain_fails_at(first.t.ps);
        proof {
            broadcast use vstd::seq_lib::group_filter_ensures;

            let n = crate::fel::head_len_at(f0, first.t.ps);
            lemma_head_le(f0, first.t.ps);
            let head = f0.take(n);
            let a = head.filter(|e: Event| !spec_is_fail(e.kind));
            assert(a.len() <= head.len());
            assert(self.fel@ == a + f0.skip(n));
            assert forall|i: int| 0 <= i < self.fel@.len() implies spec_matches_payload(
                #[trigger] self.fel@[i].kind,
                self.fel@[i].payload,
            ) by {
                if i < a.len() {
                    assert(self.fel@[i] == a[i]);
                    assert(a.contains(a[i]));
                    head.lemma_filter_contains_rev(|e: Event| !spec_is_fail(e.kind), a[i]);
                    assert(head.contains(a[i]));
                    let j = choose|j: int| 0 <= j < head.len() && head[j] == a[i];
                    assert(f0[j] == head[j]);
                } else {
                    assert(self.fel@[i] == f0[n + i - a.len()]);
                }
            }
            assert forall|i: int| 0 <= i < self.fel@.len() implies ((#[trigger] self.fel@[i]).payload matches EventPayload::JobArrive {
                job,
            } ==> self.specs@.contains_key(job.0)) by {
                if i < a.len() {
                    assert(self.fel@[i] == a[i]);
                    assert(a.contains(a[i]));
                    head.lemma_filter_contains_rev(|e: Event| !spec_is_fail(e.kind), a[i]);
                    let j = choose|j: int| 0 <= j < head.len() && head[j] == a[i];
                    assert(f0[j] == head[j]);
                } else {
                    assert(self.fel@[i] == f0[n + i - a.len()]);
                }
            }
            assert(f0 =~= head + f0.skip(n));
            assert forall|t: SimTime| #[trigger] arrivals_before(self.fel@, t) == arrivals_before(f0, t) by {
                lemma_arrivals_split(a, f0.skip(n), t);
                lemma_arrivals_split(head, f0.skip(n), t);
                lemma_arrivals_filter_fails(head, t);
            }
            assert forall|t: SimTime| #[trigger] arrival_ids_before(self.fel@, t) == arrival_ids_before(f0, t) by {
                lemma_ids_split(a, f0.skip(n), t);
                lemma_ids_split(head, f0.skip(n), t);
                lemma_ids_filter_fails(head, t);
            }
            assert forall|e: Event| e.kind is HorizonCut implies (self.fel@.contains(e) <==> f0.contains(e)) by {
                if f0.contains(e) {
                    let i = choose|i: int| 0 <= i < f0.len() && f0[i] == e;
                    if i < n {
                        assert(head[i] == e);
                        head.lemma_filter_contains(|x: Event| !spec_is_fail(x.kind), i);
                        let j = choose|j: int| 0 <= j < a.len() && a[j] == e;
                        assert(self.fel@[j] == e);
                    } else {
                        assert(self.fel@[a.len() + i - n] == e);
                    }
                }
                if self.fel@.contains(e) {
                    let j = choose|j: int| 0 <= j < self.fel@.len() && self.fel@[j] == e;
                    if j < a.len() {
                        assert(a[j] == e);
                        assert(a.contains(e));
                        head.lemma_filter_contains_rev(|x: Event| !spec_is_fail(x.kind), e);
                        let i = choose|i: int| 0 <= i < head.len() && head[i] == e;
                        assert(f0[i] == e);
                    } else {
                        assert(f0[n + j - a.len()] == e);
                    }
                }
            }
            let b = head.filter(|e: Event| spec_is_fail(e.kind));
            assert(more@ == b);
            assert forall|k: int| 0 <= k < more@.len() implies spec_is_fail((#[trigger] more@[k]).kind) by {
                assert(more@[k] == b[k]);
            }
        }
        let mut fails: Vec<Event> = Vec::new();
        fails.push(first);
        let mut k: usize = 0;
        while k < more.len()
            invariant
                same_setup(&*old(self), &*self),
                self.counts.arrivals == old(self).counts.arrivals,
                self.table.by_id@.dom() == old(self).table.by_id@.dom(),
                k <= more@.len(),
                forall|q: int| 0 <= q < more@.len() ==> spec_is_fail((#[trigger] more@[q]).kind),
                self.wf(),
                self.fel == old(self).fel || fel_budget(&self.fel) <= fel_budget(&old(self).fel),
                fel_budget(&self.fel) <= fel_budget(&old(self).fel),
                self.now == old(self).now,
                self.strict == old(self).strict,
                self.graph == old(self).graph,
                self.table == old(self).table,
                self.bytes_epoch == old(self).bytes_epoch,
                self.fail_log == old(self).fail_log,
            decreases more@.len() - k,
        {
            fails.push(more[k]);
            let epoch = self.graph.epoch.0;
            let ghost ev0 = kinds_of(self.traces.events@);
            trace_event(&mut self.traces, &mut self.event_trace, &self.flights, epoch, &more[k]);
            proof {
                lemma_arrive_name(more@[k as int].kind);
                lemma_count_push(ev0, spec_event_kind_name(more@[k as int].kind), "JobArrive"@);
            }
            k = k + 1;
        }
        let plan = match prepare(
            &self.graph,
            &self.residual,
            &self.table,
            fails.as_slice(),
            self.policy,
            self.strict,
            self.bytes_epoch.as_slice(),
        ) {
            Ok(p) => p,
            Err(code) => {
                proof {
                    lemma_inv_names();
                }
                return Err(RunError::Inv(String::from_str(code.as_str())));
            },
        };
        proof {
            let chain = choose|chain: Seq<Graph>|
                crate::prepare::same_graph(&chain[0], &self.graph) && crate::prepare::fail_chain(chain, fails@)
                    && crate::prepare::settled(&chain.last(), &plan.graph, plan.to);
            assert forall|i: int| 0 <= i < plan.graph.links@.len() implies (#[trigger] plan.graph.links@[i]).bytes_this_epoch
                == 0 by {
                assert(plan.graph.links@[i] == (crate::topo::Link { bytes_this_epoch: 0, ..chain.last().links@[i] }));
            }
            assert forall|a: int| 0 <= a < plan.kills@.len() implies self.table.by_id@.contains_key(
                #[trigger] plan.kills@[a].0,
            ) by {
                assert(crate::prepare::kill_class(&self.table, &plan.graph, plan.kills@[a].0) || crate::prepare::move_class(
                    &self.table,
                    &plan.graph,
                    crate::epoch::spec_spine_class(&plan.graph, fails@),
                    plan.kills@[a].0,
                ));
            }
            assert forall|id: u32|
                #[trigger] crate::prepare::live_in(&self.table, id) && !plan.kills@.contains(JobId(id))
                    && !crate::prepare::rerouted(plan.reroutes@, id) implies !crate::epoch::spec_paths_hit_failed(
                self.table.by_id@[id],
                &plan.graph,
            ) by {
                let sp = crate::epoch::spec_spine_class(&plan.graph, fails@);
                if crate::prepare::job_ids(plan.kills@).contains(id) {
                    let i = choose|i: int| 0 <= i < crate::prepare::job_ids(plan.kills@).len() && crate::prepare::job_ids(plan.kills@)[i] == id;
                    assert(plan.kills@[i] == JobId(id));
                }
                if crate::prepare::kill_class(&self.table, &plan.graph, id) {
                    assert(crate::prepare::job_ids(plan.kills@).contains(id));
                }
                if crate::prepare::move_class(&self.table, &plan.graph, sp, id) {
                    assert(crate::prepare::job_ids(plan.kills@).contains(id) || crate::prepare::rerouted(plan.reroutes@, id));
                }
            }
            assert forall|a: int| 0 <= a < plan.reroutes@.len() implies !plan.kills@.contains(
                #[trigger] plan.reroutes@[a].job,
            ) by {
                if plan.kills@.contains(plan.reroutes@[a].job) {
                    let i = choose|i: int| 0 <= i < plan.kills@.len() && plan.kills@[i] == plan.reroutes@[a].job;
                    assert(crate::prepare::job_ids(plan.kills@)[i] == plan.reroutes@[a].job.0);
                }
            }
        }
        proof {
            let chain = choose|chain: Seq<Graph>|
                crate::prepare::same_graph(&chain[0], &self.graph) && crate::prepare::fail_chain(chain, fails@)
                    && crate::prepare::settled(&chain.last(), &plan.graph, plan.to);
            lemma_chain_sizes(chain, fails@, &self.graph, fails@.len() as int);
            assert(plan.graph.epoch == plan.to);
            assert(plan.to == crate::prepare::next_epoch(self.graph.epoch));
        }
        self.commit(plan, first.t.ps)
    }

    /// Record the event, then handle it; the answer says whether the run is over.
    fn handle(&mut self, e: &Event) -> (r: Result<bool, RunError>)
        requires
            old(self).wf(),
            spec_matches_payload(e.kind, e.payload),
            e.payload matches EventPayload::JobArrive { job } ==> old(self).specs@.contains_key(job.0),
        ensures
            e.payload matches EventPayload::JobArrive { job } ==> (final(self).exhausted || final(self).table.by_id@.dom()
                == old(self).table.by_id@.dom().insert(job.0)),
            !(e.payload is JobArrive) ==> final(self).table.by_id@.dom() == old(self).table.by_id@.dom(),
            final(self).counts.arrivals == old(self).counts.arrivals + if e.payload is JobArrive {
                1int
            } else {
                0int
            },
            same_setup(&*old(self), &*final(self)),
            final(self).wf(),
            fel_budget(&final(self).fel) <= fel_budget(&old(self).fel),
            final(self).now == old(self).now,
            final(self).strict == old(self).strict,
            r matches Err(e) ==> (e is Inv ==> old(self).strict),
            r matches Err(RunError::Inv(m)) ==> m@ != "I2"@ && m@ != "I3"@,
            r matches Ok(done) ==> done == (e.payload is HorizonCut),
            r matches Err(x) ==> x is Inv,
            e.payload is HorizonCut ==> r == Ok::<bool, RunError>(true),
            r is Err ==> e.payload is FlowArrive || e.payload is RateRecompute || e.payload is LinkFail
                || e.payload is LeafFail || e.payload is RailFail || e.payload is SpineFail,
            (e.payload is DrainComplete || e.payload is EpochAdvance) ==> {
                &&& r == Ok::<bool, RunError>(false)
                &&& kinds_of(final(self).traces.events@) == kinds_of(old(self).traces.events@).push(spec_event_kind_name(e.kind))
                &&& final(self).table == old(self).table
                &&& final(self).flights == old(self).flights
                &&& final(self).fel == old(self).fel
            },
    {
        let epoch = self.graph.epoch.0;
        let ghost ev0 = kinds_of(self.traces.events@);
        trace_event(&mut self.traces, &mut self.event_trace, &self.flights, epoch, e);
        proof {
            lemma_arrive_name(e.kind);
            lemma_count_push(ev0, spec_event_kind_name(e.kind), "JobArrive"@);
        }
        match e.payload {
            EventPayload::JobArrive { job } => self.on_arrive(job)?,
            EventPayload::StepBoundary { job, step } => self.on_step(job, step, e.t.ps),
            EventPayload::CollectiveStart { job, step } => self.on_collective_start(job, step, e.t.ps),
            EventPayload::CollectiveEnd { job, step } => self.on_collective_end(job, step, e.t.ps, e.t.seq),
            EventPayload::FlowArrive { flow } => self.on_flow_arrive(flow.0)?,
            EventPayload::FlowDepart { flow } => self.on_flow_depart(flow.0, e.t.ps),
            EventPayload::RateRecompute { .. } => self.on_recompute(e.t.ps)?,
            EventPayload::HorizonCut => {
                self.on_horizon(e.t.ps);
                return Ok(true);
            },
            EventPayload::LinkFail { .. }
            | EventPayload::LeafFail { .. }
            | EventPayload::RailFail { .. }
            | EventPayload::SpineFail { .. } => self.on_fail_star(*e)?,
            EventPayload::DrainComplete { .. } | EventPayload::EpochAdvance { .. } => {},
        }
        Ok(false)
    }

    /// The report of the run so far, with everything it recorded: counts,
    /// per-code rejects, the failure log and the invariant flag as the run
    /// kept them; per-job rows and completions from the table; hotspot,
    /// deadline-miss and disrupted times in microseconds; the p99 and the
    /// longest collective; mean link utilisation.
    pub fn finish(self) -> (r: RunOutcome)
        requires
            self.wf(),
        ensures
            r.report.seed == self.seed,
            r.report.horizon_ps == self.horizon_ps,
            r.report.invariants_ok == self.invariants_ok,
            r.report.counts.arrivals == self.counts.arrivals,
            r.report.counts.admits == self.counts.admits,
            r.report.counts.rejects == self.counts.rejects,
            r.report.counts.kills == self.counts.kills,
            r.report.counts.completes == self.counts.completes,
            r.report.rejects_by_code@ == self.rejects_by_code@,
            r.report.fails@ == self.fail_log@,
            r.report.mix_hash == self.mix_hash,
            r.report.topo_hash == self.topo_hash,
            r.report.metrics.hotspot_us == crate::types::spec_ps_to_us(self.clock.hotspot_ps as int),
            r.report.metrics.slo_miss_us == crate::types::spec_ps_to_us(self.job_slo_miss_ps as int),
            r.report.metrics.disrupted_step_us == crate::types::spec_ps_to_us(self.disrupted_ps as int),
            r.report.metrics.hotspot_threshold_ppm == HOTSPOT_THRESHOLD_PPM,
            r.report.policy@ == (match self.policy {
                Policy::Naive => "naive"@,
                Policy::Joint => "joint"@,
            }),
            r.report.topo == topo_of(&self.graph),
            exists|p: i128|
                crate::report::p99_of(self.collective_durs@, p) && r.report.metrics.tail_collective_us_p99
                    == crate::types::spec_ps_to_us(p as int),
            r.report.metrics.last_flow_collective_us_max == crate::types::spec_ps_to_us(
                crate::report::max_or0(self.collective_durs@) as int,
            ),
            r.report.metrics.mean_link_util_ppm == (if self.horizon_ps >= 0 && (self.clock.rate_dt@.len() == 0 || self.horizon_ps
                <= i128::MAX / (self.clock.rate_dt@.len() as i128)) {
                if self.clock.rate_dt@.len() == 0 || self.horizon_ps == 0 {
                    0
                } else {
                    (crate::kernel::util_sum(
                        self.clock.rate_dt@,
                        Seq::new(self.graph.links@.len(), |i: int| self.graph.links@[i].capacity_Bps),
                    ) as int) / (self.clock.rate_dt@.len() * self.horizon_ps)
                }
            } else {
                0
            }),
            exists|ids: Seq<u32>|
                {
                    &&& ids.to_set() == self.table.by_id@.dom()
                    &&& forall|a: int, b: int| 0 <= a < b < ids.len() ==> ids[a] < ids[b]
                    &&& r.report.jobs@.len() == ids.len()
                    &&& forall|k: int|
                        0 <= k < ids.len() ==> crate::kernel::row_of(ids[k], self.table.by_id@[ids[k]], #[trigger] r.report.jobs@[k])
                    &&& r.report.metrics.completions_by_deadline == crate::kernel::on_time(
                        &self.table,
                        self.job_exit@,
                        self.job_slo_ok@,
                        ids,
                    )
                    &&& r.report.counts.slo_misses == crate::kernel::missed(&self.table, self.job_slo_ok@, ids)
                },
            r.epoch == self.graph.epoch,
            r.graph == self.graph,
            r.event_trace@ == self.event_trace@,
            r.bytes_epoch@ == self.bytes_epoch@,
            r.traces == self.traces,
            r.admits@ == self.admits@,
    {
        let g = &self.graph;
        let topo = TopoSummary {
            gpus: g.gpus.len() as u32,
            N: g.params.nodes,
            L: g.leaves.len() as u32,
            S: #[verifier::truncate] (g.spines.len() as u32),
            E_host: g.e_host(),
            E_ls: g.e_ls(),
            B_bisect_gbps: g.b_bisect_gbps(),
        };
        let mut report = Report::new(self.seed, self.policy, topo);
        let mut last_max: i128 = 0;
        let mut i: usize = 0;
        while i < self.collective_durs.len()
            invariant
                i <= self.collective_durs@.len(),
                last_max == crate::report::max_or0(self.collective_durs@.take(i as int)),
            decreases self.collective_durs@.len() - i,
        {
            assert(self.collective_durs@.take(i + 1).drop_last() =~= self.collective_durs@.take(i as int));
            if self.collective_durs[i] > last_max {
                last_max = self.collective_durs[i];
            }
            i = i + 1;
        }
        assert(self.collective_durs@.take(self.collective_durs@.len() as int) =~= self.collective_durs@);
        let mut caps: Vec<u64> = Vec::new();
        let mut i: usize = 0;
        while i < self.graph.links.len()
            invariant
                i <= self.graph.links@.len(),
                caps@.len() == i,
                forall|q: int| 0 <= q < i ==> #[trigger] caps@[q] == self.graph.links@[q].capacity_Bps,
            decreases self.graph.links@.len() - i,
        {
            caps.push(self.graph.links[i].capacity_Bps);
            i = i + 1;
        }
        assert(caps@ =~= Seq::new(self.graph.links@.len(), |i: int| self.graph.links@[i].capacity_Bps));
        let e = self.clock.rate_dt.len() as i128;
        let mean = if self.horizon_ps >= 0 && (e == 0 || self.horizon_ps <= i128::MAX / e) {
            proof {
                let ln = self.clock.rate_dt@.len() as int;
                let h = self.horizon_ps as int;
                assert(ln * h <= i128::MAX) by (nonlinear_arith)
                    requires
                        e >= 0,
                        e == ln,
                        h == self.horizon_ps,
                        h >= 0,
                        e == 0 || self.horizon_ps <= i128::MAX / e,
                ;
            }
            mean_util_ppm(&self.clock.rate_dt, &caps, self.horizon_ps)
        } else {
            0
        };
        let summary = summarize_jobs(&self.table, &self.job_exit, &self.job_slo_ok);
        let p99 = tail_p99_ps(self.collective_durs);
        report.mix_hash = self.mix_hash;
        report.topo_hash = self.topo_hash;
        report.horizon_ps = self.horizon_ps;
        report.counts = Counts {
            arrivals: self.counts.arrivals,
            admits: self.counts.admits,
            rejects: self.counts.rejects,
            kills: self.counts.kills,
            completes: self.counts.completes,
            slo_misses: summary.slo_miss_jobs,
        };
        report.rejects_by_code = self.rejects_by_code;
        report.invariants_ok = self.invariants_ok;
        report.fails = self.fail_log;
        report.jobs = summary.rows;
        report.metrics = Metrics {
            hotspot_us: us_of(self.clock.hotspot_ps),
            hotspot_threshold_ppm: HOTSPOT_THRESHOLD_PPM,
            completions_by_deadline: summary.completions_by_deadline,
            tail_collective_us_p99: us_of(p99),
            last_flow_collective_us_max: us_of(last_max),
            slo_miss_us: us_of(self.job_slo_miss_ps),
            disrupted_step_us: us_of(self.disrupted_ps),
            mean_link_util_ppm: mean,
        };
        RunOutcome {
            report,
            epoch: self.graph.epoch,
            event_trace: self.event_trace,
            bytes_epoch: self.bytes_epoch,
            graph: self.graph,
            traces: self.traces,
            admits: self.admits,
        }
    }
}

/// The counters agree with the trace rows: arrivals with `JobArrive`
/// event rows, admits and rejects with the admission log's decisions, kills
/// and completions with `kill` and `admit` job rows.
pub open spec fn counters_match(c: Counts, t: TraceBook) -> bool {
    &&& c.arrivals == count_word(kinds_of(t.events@), "JobArrive"@)
    &&& c.admits == t.admit_ok
    &&& c.rejects == t.admit_reject
    &&& c.kills == count_word(decisions_of(t.jobs@), "kill"@)
    &&& c.completes == count_word(decisions_of(t.jobs@), "admit"@)
}

/// Run the simulation and keep everything it leaves: pop events in time
/// order (the clock moving with them), record each, and handle it, until the
/// horizon cut, which every run reaches.
/// The report carries the configuration's seed, policy, fabric summary,
/// fingerprints and horizon; it counts as arrivals exactly the mix's jobs that
/// arrive by the horizon, each admitted or rejected, and has one row per id of
/// those jobs; the epoch has moved on once per logged failure batch.
/// A refused configuration, a strict-mode invariant breach or running out of
/// event sequence numbers ends the run with an error; without strict mode no
/// invariant breach does, and every arrival names a job of the mix, so the
/// lookup of an arriving job never fails. The report's counters
/// always agree with the trace rows; no failed link ever carries bytes in
/// its epoch, and right after a failure is committed no live job routes
/// over a failed element, so neither of those two checks ever fails.
pub fn run_sim_snapshot(cfg: RunConfig) -> (r: Result<RunOutcome, RunError>)
    requires
        graph_wf(&cfg.graph),
    ensures
        r matches Err(e) ==> (e is Inv ==> cfg.strict),
        r matches Err(RunError::Inv(m)) ==> m@ != "I2"@ && m@ != "I3"@,
        !graph_fits(&cfg.graph) ==> (r matches Err(e) && e is Usage),
        (r matches Err(e) && e is Usage) <==> !(graph_fits(&cfg.graph) && forall|k: int|
            0 <= k < cfg.mix.jobs@.len() ==> spec_placeable(#[trigger] cfg.mix.jobs@[k])),
        r matches Err(e) ==> e is Usage || e is Io || (e is Inv && cfg.strict),
        r matches Err(RunError::Io(m)) ==> m@ == "the event list ran out of sequence numbers"@,
        r matches Ok(o) ==> counters_match(o.report.counts, o.traces),
        r matches Ok(o) ==> report_of_config(&cfg, &o.report),
        r matches Ok(o) ==> o.report.counts.admits + o.report.counts.rejects == o.report.counts.arrivals,
        r matches Ok(o) ==> o.graph.epoch.0 == epoch_after(cfg.graph.epoch.0, o.report.fails@.len() as int),
        r matches Ok(o) ==> o.bytes_epoch@.len() == o.graph.links@.len() && dead_links_idle(&o.graph, o.bytes_epoch@),
{
    let strict = cfg.strict;
    let ghost fits0 = graph_fits(&cfg.graph);
    let ghost placeable0 = forall|k: int| 0 <= k < cfg.mix.jobs@.len() ==> spec_placeable(#[trigger] cfg.mix.jobs@[k]);
    let ghost cfg0 = cfg;
    let mut k = Kernel::new(cfg)?;
    if k.exhausted {
        return Err(RunError::Io(String::from_str("the event list ran out of sequence numbers")));
    }
    let ghost k0 = k;
    let ghost due = due_count(cfg0.mix.jobs@, cfg0.mix.horizon_ps) as int;
    loop
        invariant_except_break
            k.counts.arrivals + arrivals_before(k.fel@, cut_time(&cfg0)) == due,
            k.fel@.contains(cut_event(&cfg0)),
            forall|e: Event| e.kind is HorizonCut && #[trigger] k.fel@.contains(e) ==> e == cut_event(&cfg0),
            k.table.by_id@.dom().union(arrival_ids_before(k.fel@, cut_time(&cfg0))) == due_ids(
                cfg0.mix.jobs@,
                cfg0.mix.horizon_ps,
            ),
        invariant
            same_run(&k0, &k),
            !k.exhausted,
            k0.graph == cfg0.graph && k0.seed == cfg0.seed && k0.policy == cfg0.policy && k0.mix_hash == cfg0.mix_hash
                && k0.topo_hash == cfg0.topo_hash && k0.horizon_ps == cfg0.mix.horizon_ps,
            k.wf(),
            k.strict == strict,
            strict == cfg.strict,
            fits0 == graph_fits(&cfg.graph),
            fits0,
            placeable0 == forall|k: int| 0 <= k < cfg.mix.jobs@.len() ==> spec_placeable(#[trigger] cfg.mix.jobs@[k]),
            placeable0,
        ensures
            k.wf(),
            same_run(&k0, &k),
            k.counts.arrivals == due,
            k.table.by_id@.dom() == due_ids(cfg0.mix.jobs@, cfg0.mix.horizon_ps),
        decreases fel_budget(&k.fel),
    {
        let ghost f0 = k.fel;
        let ghost hc = cut_event(&cfg0);
        let ghost tc = cut_time(&cfg0);
        let ev = match k.fel.pop() {
            Some(e) => e,
            None => {
                assert(f0@.contains(hc));
                break;
            },
        };
        assert(ev == f0@[0]);
        let ghost f1 = k.fel;
        let ghost d0 = k.table.by_id@.dom();
        proof {
            lemma_arrivals_first(f0@, tc);
            lemma_ids_first(f0@, tc);
            assert(spec_matches_payload(f0@[0].kind, f0@[0].payload));
            if ev == hc {
                assert forall|i: int| 0 <= i < f1@.len() implies !crate::types::time_lt(#[trigger] f1@[i].t, tc) by {
                    assert(crate::types::time_lt(ev.t, f1@[i].t));
                }
                lemma_arrivals_none(f1@, tc);
                lemma_ids_none(f1@, tc);
            } else {
                let i = choose|i: int| 0 <= i < f0@.len() && f0@[i] == hc;
                assert(i != 0);
                assert(f1@[i - 1] == hc);
                assert(f1@.contains(hc));
                assert(crate::types::time_lt(ev.t, f1@[i - 1].t));
                assert(f0@[0] == ev);
                assert(f0@.contains(ev));
                assert(!(ev.kind is HorizonCut));
            }
        }
        k.advance(ev.t.ps);
        let stop = k.handle(&ev)?;
        if k.exhausted {
            return Err(RunError::Io(String::from_str("the event list ran out of sequence numbers")));
        }
        proof {
            assert(arrival_ids_before(k.fel@, tc) == arrival_ids_before(f1@, tc));
            if ev.payload is JobArrive {
                assert(arrival_id(ev, tc) == set![ev.payload->JobArrive_job.0]);
            } else {
                assert(arrival_id(ev, tc) =~= Set::<u32>::empty());
            }
            assert(k.table.by_id@.dom().union(arrival_ids_before(k.fel@, tc)) =~= d0.union(arrival_ids_before(f0@, tc)));
            if ev != hc {
                assert forall|e: Event| e.kind is HorizonCut && #[trigger] k.fel@.contains(e) implies e == hc by {
                    assert(f1@.contains(e));
                    let j = choose|j: int| 0 <= j < f1@.len() && f1@[j] == e;
                    assert(f0@[j + 1] == e);
                    assert(f0@.contains(e));
                }
            }
        }
        if stop {
            break;
        }
    }
    Ok(k.finish())
}

/// Run the simulation for its report alone: the same run as
/// `run_sim_snapshot`, with the same errors on the same inputs.
pub fn run_sim(cfg: RunConfig) -> (r: Result<Report, RunError>)
    requires
        graph_wf(&cfg.graph),
    ensures
        r matches Err(e) ==> (e is Inv ==> cfg.strict),
        r matches Err(RunError::Inv(m)) ==> m@ != "I2"@ && m@ != "I3"@,
        (r matches Err(e) && e is Usage) <==> !(graph_fits(&cfg.graph) && forall|k: int|
            0 <= k < cfg.mix.jobs@.len() ==> spec_placeable(#[trigger] cfg.mix.jobs@[k])),
        r matches Err(e) ==> e is Usage || e is Io || (e is Inv && cfg.strict),
        r matches Err(RunError::Io(m)) ==> m@ == "the event list ran out of sequence numbers"@,
        r matches Ok(rep) ==> report_of_config(&cfg, &rep),
        r matches Ok(rep) ==> rep.counts.admits + rep.counts.rejects == rep.counts.arrivals,
        r matches Ok(rep) ==> exists|o: RunOutcome| o.report == rep && counters_match(rep.counts, o.traces),
{
    match run_sim_snapshot(cfg) {
        Ok(o) => {
            let ghost og = o;
            let rep = o.report;
            assert(og.report == rep && counters_match(rep.counts, og.traces));
            Ok(rep)
        },
        Err(e) => Err(e),
    }
}

} // verus!
