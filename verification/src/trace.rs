//! Trace rows and the in-memory trace book: what the run records for the
//! event, flow, link and job tables, the per-link row cap, and the counts the
//! run checks its live counters against.
#![allow(non_snake_case)]
use vstd::prelude::*;

use crate::cli_text::{chars_of, is_word};

verus! {

/// Rows written for one link before its stride starts doubling.
pub const LINK_ROW_CAP: u32 = 50_000;

/// Counts rolled up from the traces: arrivals from the event table, admits
/// and rejects from the admission log, kills and completions from the job table.
#[derive(Clone, Debug, Default, PartialEq, Eq, Structural)]
pub struct TraceRollup {
    pub arrivals: u64,
    pub admits: u64,
    pub rejects: u64,
    pub kills: u64,
    pub completes: u64,
}

/// A trace could not be written or read back; the message says why.
#[derive(Clone, Debug)]
pub struct TraceError(pub String);

/// One event.
#[derive(Clone, Debug)]
pub struct EventRow {
    pub t_ps: i64,
    pub seq: u64,
    pub kind: String,
    pub epoch: u32,
    pub job_id: Option<u32>,
    pub flow_id: Option<u64>,
    pub link_id: Option<u32>,
    pub spine_id: Option<u32>,
    pub leaf_id: Option<u32>,
    pub rail_id: Option<u8>,
    pub reject: Option<String>,
    pub bytes: Option<u64>,
}

/// One finished flow.
#[derive(Clone, Debug)]
pub struct FlowRow {
    pub flow_id: u64,
    pub job_id: u32,
    pub phase: u32,
    pub src_gpu: u32,
    pub dst_gpu: u32,
    pub path_links: Vec<u32>,
    pub rate_Bps: u64,
    pub bytes: u64,
    pub t_arrive_ps: i64,
    pub t_depart_ps: i64,
}

/// One snapshot of a link.
#[derive(Clone, Debug)]
pub struct LinkRow {
    pub link_id: u32,
    pub t_ps: i64,
    pub c_Bps: u64,
    pub cir_Bps: u64,
    pub r_avail_Bps: u64,
    pub q_bytes: u64,
    pub failed: bool,
}

/// One job's outcome.
#[derive(Clone, Debug)]
pub struct JobRow {
    pub job_id: u32,
    pub arrive_ps: i64,
    pub exit_ps: i64,
    pub decision: String,
    pub reject: Option<String>,
    pub binding_kind: Option<String>,
    pub t_pred_ps: i64,
    pub d_j_ps: i64,
    pub steps_done: u32,
}

/// `ps` clamped to the `i64` range.
pub open spec fn spec_ps_i64(ps: i128) -> i64 {
    if ps > i64::MAX {
        i64::MAX
    } else if ps < i64::MIN {
        i64::MIN
    } else {
        ps as i64
    }
}

/// Picoseconds as a trace column: clamped to `i64`.
pub fn ps_i64(ps: i128) -> (r: i64)
    ensures
        r == spec_ps_i64(ps),
{
    if ps > i64::MAX as i128 {
        i64::MAX
    } else if ps < i64::MIN as i128 {
        i64::MIN
    } else {
        ps as i64
    }
}

/// How many strings of `s` are the word `w`.
pub open spec fn count_word(s: Seq<Seq<char>>, w: Seq<char>) -> nat
    decreases s.len(),
{
    if s.len() == 0 {
        0
    } else {
        count_word(s.drop_last(), w) + if s.last() == w {
            1nat
        } else {
            0nat
        }
    }
}

pub proof fn lemma_count_word_le(s: Seq<Seq<char>>, w: Seq<char>)
    ensures
        count_word(s, w) <= s.len(),
    decreases s.len(),
{
    if s.len() > 0 {
        lemma_count_word_le(s.drop_last(), w);
    }
}

/// The views of a list of strings.
pub open spec fn views(v: Seq<String>) -> Seq<Seq<char>> {
    v.map_values(|x: String| x@)
}

/// How many of the strings are the word `w`.
pub fn count_matching(v: &Vec<String>, w: &str) -> (r: u64)
    ensures
        r == count_word(views(v@), w@),
{
    let mut n: u64 = 0;
    let mut i: usize = 0;
    while i < v.len()
        invariant
            i <= v@.len(),
            n == count_word(views(v@.take(i as int)), w@),
        decreases v@.len() - i,
    {
        let c = chars_of(v[i].as_str());
        assert(views(v@.take(i + 1)).drop_last() =~= views(v@.take(i as int)));
        proof {
            lemma_count_word_le(views(v@.take(i as int)), w@);
        }
        if is_word(&c, w) {
            n = n + 1;
        }
        i = i + 1;
    }
    assert(v@.take(v@.len() as int) =~= v@);
    n
}

/// Roll up the counts: arrivals are `JobArrive` events; admits and rejects
/// are admission-log decisions; kills are `kill` job rows and completions are
/// `admit` job rows.
pub fn rollup_counts(event_kinds: &Vec<String>, admit_decisions: &Vec<String>, job_decisions: &Vec<String>) -> (r:
    TraceRollup)
    ensures
        r.arrivals == count_word(views(event_kinds@), "JobArrive"@),
        r.admits == count_word(views(admit_decisions@), "admit"@),
        r.rejects == count_word(views(admit_decisions@), "reject"@),
        r.kills == count_word(views(job_decisions@), "kill"@),
        r.completes == count_word(views(job_decisions@), "admit"@),
{
    TraceRollup {
        arrivals: count_matching(event_kinds, "JobArrive"),
        admits: count_matching(admit_decisions, "admit"),
        rejects: count_matching(admit_decisions, "reject"),
        kills: count_matching(job_decisions, "kill"),
        completes: count_matching(job_decisions, "admit"),
    }
}

/// The rows a run records, with the per-link sampling state.
#[derive(Clone, Debug)]
pub struct TraceBook {
    pub events: Vec<EventRow>,
    pub flows: Vec<FlowRow>,
    pub links: Vec<LinkRow>,
    pub jobs: Vec<JobRow>,
    pub link_written: Vec<u32>,
    pub link_stride: Vec<u32>,
    pub link_tick: Vec<u32>,
    pub admit_ok: u64,
    pub admit_reject: u64,
}

impl TraceBook {
    /// The sampling tables run in step and no stride is zero.
    pub open spec fn wf(&self) -> bool {
        &&& self.link_stride@.len() == self.link_written@.len()
        &&& self.link_tick@.len() == self.link_written@.len()
        &&& forall|i: int| 0 <= i < self.link_stride@.len() ==> #[trigger] self.link_stride@[i] >= 1
    }

    pub fn new() -> (r: TraceBook)
        ensures
            r.wf(),
            r.events@.len() == 0,
            r.flows@.len() == 0,
            r.links@.len() == 0,
            r.jobs@.len() == 0,
            r.link_written@.len() == 0,
            r.admit_ok == 0,
            r.admit_reject == 0,
    {
        TraceBook {
            events: Vec::new(),
            flows: Vec::new(),
            links: Vec::new(),
            jobs: Vec::new(),
            link_written: Vec::new(),
            link_stride: Vec::new(),
            link_tick: Vec::new(),
            admit_ok: 0,
            admit_reject: 0,
        }
    }

    pub fn event(&mut self, row: EventRow)
        ensures
            final(self).events@ == old(self).events@.push(row),
            final(self).flows@ == old(self).flows@,
            final(self).links@ == old(self).links@,
            final(self).jobs@ == old(self).jobs@,
            final(self).link_written@ == old(self).link_written@,
            final(self).link_stride@ == old(self).link_stride@,
            final(self).link_tick@ == old(self).link_tick@,
            final(self).admit_ok == old(self).admit_ok,
            final(self).admit_reject == old(self).admit_reject,
    {
        self.events.push(row);
    }

    pub fn flow(&mut self, row: FlowRow)
        ensures
            final(self).flows@ == old(self).flows@.push(row),
            final(self).events@ == old(self).events@,
            final(self).links@ == old(self).links@,
            final(self).jobs@ == old(self).jobs@,
            final(self).link_written@ == old(self).link_written@,
            final(self).link_stride@ == old(self).link_stride@,
            final(self).link_tick@ == old(self).link_tick@,
            final(self).admit_ok == old(self).admit_ok,
            final(self).admit_reject == old(self).admit_reject,
    {
        self.flows.push(row);
    }

    pub fn job(&mut self, row: JobRow)
        ensures
            final(self).jobs@ == old(self).jobs@.push(row),
            final(self).events@ == old(self).events@,
            final(self).flows@ == old(self).flows@,
            final(self).links@ == old(self).links@,
            final(self).link_written@ == old(self).link_written@,
            final(self).link_stride@ == old(self).link_stride@,
            final(self).link_tick@ == old(self).link_tick@,
            final(self).admit_ok == old(self).admit_ok,
            final(self).admit_reject == old(self).admit_reject,
    {
        self.jobs.push(row);
    }

    /// Count an admission-log line by its decision: `admit` or `reject`;
    /// anything else counts nowhere.
    pub fn count_admit(&mut self, decision: &str)
        ensures
            final(self).admit_ok == if decision@ == "admit"@ {
                sat_inc(old(self).admit_ok)
            } else {
                old(self).admit_ok
            },
            final(self).admit_reject == if decision@ == "reject"@ {
                sat_inc(old(self).admit_reject)
            } else {
                old(self).admit_reject
            },
            final(self).events@ == old(self).events@,
            final(self).flows@ == old(self).flows@,
            final(self).links@ == old(self).links@,
            final(self).jobs@ == old(self).jobs@,
            final(self).link_written@ == old(self).link_written@,
            final(self).link_stride@ == old(self).link_stride@,
            final(self).link_tick@ == old(self).link_tick@,
    {
        proof {
            reveal_strlit("admit");
            reveal_strlit("reject");
            assert("admit"@[0] != "reject"@[0]);
        }
        let c = chars_of(decision);
        if is_word(&c, "admit") {
            self.admit_ok = self.admit_ok.saturating_add(1);
        } else if is_word(&c, "reject") {
            self.admit_reject = self.admit_reject.saturating_add(1);
        }
    }

    /// Record a link snapshot, sampled: each link keeps every `stride`-th
    /// offer. A link keeps up to the cap at stride 1; whenever what it has
    /// written reaches the cap times its stride, the stride doubles, the
    /// tick restarts and that offer is dropped, so later offers are still
    /// kept at the wider stride.
    pub fn link(&mut self, row: LinkRow)
        requires
            old(self).wf(),
            row.link_id < u32::MAX,
        ensures
            final(self).wf(),
            link_offer(*old(self), row, *final(self)),
            final(self).events@ == old(self).events@,
            final(self).flows@ == old(self).flows@,
            final(self).jobs@ == old(self).jobs@,
            final(self).admit_ok == old(self).admit_ok,
            final(self).admit_reject == old(self).admit_reject,
    {
        let id = row.link_id as usize;
        let ghost ow = self.link_written@;
        let ghost os = self.link_stride@;
        let ghost ot = self.link_tick@;
        if id >= self.link_written.len() {
            self.link_written.resize(id + 1, 0);
            self.link_stride.resize(id + 1, 1);
            self.link_tick.resize(id + 1, 0);
            assert forall|i: int| 0 <= i <= id implies #[trigger] self.link_written@[i] == entry_or(ow, i, 0)
                && self.link_stride@[i] == entry_or(os, i, 1) && self.link_tick@[i] == entry_or(ot, i, 0) by {
                if i < ow.len() {
                    assert(self.link_written@.subrange(0, ow.len() as int)[i] == ow[i]);
                    assert(self.link_stride@.subrange(0, ow.len() as int)[i] == os[i]);
                    assert(self.link_tick@.subrange(0, ow.len() as int)[i] == ot[i]);
                }
            }
        }
        let t = self.link_tick[id].saturating_add(1);
        self.link_tick.set(id, t);
        if t % self.link_stride[id] != 0 {
            return;
        }
        if (self.link_written[id] as u64) >= (LINK_ROW_CAP as u64) * (self.link_stride[id] as u64) {
            let cur = self.link_stride[id];
            let s: u32 = if cur > u32::MAX / 2 {
                u32::MAX
            } else if cur * 2 < 2 {
                2
            } else {
                cur * 2
            };
            self.link_stride.set(id, s);
            self.link_tick.set(id, 0);
            return;
        }
        let w = self.link_written[id].saturating_add(1);
        self.link_written.set(id, w);
        self.links.push(row);
    }

    /// The counts of what this book recorded.
    pub fn rollup(&self) -> (r: TraceRollup)
        ensures
            r.arrivals == count_word(kinds_of(self.events@), "JobArrive"@),
            r.admits == self.admit_ok,
            r.rejects == self.admit_reject,
            r.kills == count_word(decisions_of(self.jobs@), "kill"@),
            r.completes == count_word(decisions_of(self.jobs@), "admit"@),
    {
        let mut arrivals: u64 = 0;
        let mut i: usize = 0;
        while i < self.events.len()
            invariant
                i <= self.events@.len(),
                arrivals == count_word(kinds_of(self.events@.take(i as int)), "JobArrive"@),
            decreases self.events@.len() - i,
        {
            let c = chars_of(self.events[i].kind.as_str());
            assert(kinds_of(self.events@.take(i + 1)).drop_last() =~= kinds_of(self.events@.take(i as int)));
            proof {
                lemma_count_word_le(kinds_of(self.events@.take(i as int)), "JobArrive"@);
            }
            if is_word(&c, "JobArrive") {
                arrivals = arrivals + 1;
            }
            i = i + 1;
        }
        assert(self.events@.take(self.events@.len() as int) =~= self.events@);
        let mut kills: u64 = 0;
        let mut completes: u64 = 0;
        let mut i: usize = 0;
        while i < self.jobs.len()
            invariant
                i <= self.jobs@.len(),
                kills == count_word(decisions_of(self.jobs@.take(i as int)), "kill"@),
                completes == count_word(decisions_of(self.jobs@.take(i as int)), "admit"@),
            decreases self.jobs@.len() - i,
        {
            let c = chars_of(self.jobs[i].decision.as_str());
            assert(decisions_of(self.jobs@.take(i + 1)).drop_last() =~= decisions_of(self.jobs@.take(i as int)));
            proof {
                lemma_count_word_le(decisions_of(self.jobs@.take(i as int)), "kill"@);
                lemma_count_word_le(decisions_of(self.jobs@.take(i as int)), "admit"@);
            }
            if is_word(&c, "kill") {
                kills = kills + 1;
            }
            if is_word(&c, "admit") {
                completes = completes + 1;
            }
            i = i + 1;
        }
        assert(self.jobs@.take(self.jobs@.len() as int) =~= self.jobs@);
        TraceRollup { arrivals, admits: self.admit_ok, rejects: self.admit_reject, kills, completes }
    }
}

/// `x + 1`, or `u64::MAX`.
pub open spec fn sat_inc(x: u64) -> u64 {
    if x < u64::MAX {
        (x + 1) as u64
    } else {
        u64::MAX
    }
}

/// The kinds of a list of events.
pub open spec fn kinds_of(v: Seq<EventRow>) -> Seq<Seq<char>> {
    v.map_values(|e: EventRow| e.kind@)
}

/// The decisions of a list of job rows.
pub open spec fn decisions_of(v: Seq<JobRow>) -> Seq<Seq<char>> {
    v.map_values(|j: JobRow| j.decision@)
}

/// Entry `i` of a table, or the value a new entry starts at.
pub open spec fn entry_or(s: Seq<u32>, i: int, fresh: u32) -> u32 {
    if 0 <= i < s.len() {
        s[i]
    } else {
        fresh
    }
}

/// A link that has kept the cap's worth of rows at stride one drops the next
/// offer and doubles its stride, and then still keeps rows: of three more
/// offers for that link the third is kept, at stride two.
pub proof fn law_link_keeps_past_cap(a: TraceBook, rows: Seq<LinkRow>, books: Seq<TraceBook>)
    requires
        rows.len() >= 3,
        books.len() == rows.len() + 1,
        books[0] == a,
        forall|i: int| 0 <= i < rows.len() ==> link_offer(books[i], #[trigger] rows[i], books[i + 1]),
        forall|i: int| 0 <= i < rows.len() ==> (#[trigger] rows[i]).link_id == rows[0].link_id,
        forall|i: int| 0 <= i < books.len() ==> (#[trigger] books[i]).wf(),
        (rows[0].link_id as int) < a.link_written@.len(),
        a.link_written@[rows[0].link_id as int] == LINK_ROW_CAP,
        a.link_stride@[rows[0].link_id as int] == 1,
    ensures
        books[1].links@ == a.links@,
        books[2].links@ == a.links@,
        books[3].links@ == a.links@.push(rows[2]),
        books[3].link_stride@[rows[0].link_id as int] == 2,
        books[3].link_written@[rows[0].link_id as int] == LINK_ROW_CAP + 1,
{
    let id = rows[0].link_id as int;
    assert(link_offer(books[0], rows[0], books[1]));
    assert(rows[1].link_id == rows[0].link_id);
    assert(link_offer(books[1], rows[1], books[2]));
    assert(rows[2].link_id == rows[0].link_id);
    assert(link_offer(books[2], rows[2], books[3]));
    assert(books[1].wf() && books[2].wf() && books[3].wf());
    assert(books[1].link_stride@[id] == 2 && books[1].link_tick@[id] == 0);
    assert(entry_or(books[1].link_tick@, id, 0) == 0);
    assert(entry_or(books[1].link_stride@, id, 1) == 2);
    assert(entry_or(books[1].link_written@, id, 0) == LINK_ROW_CAP);
    assert(1u32 % 2u32 == 1) by (bit_vector);
    assert(books[2].link_tick@[id] == 1 && books[2].link_stride@[id] == 2);
    assert(books[2].link_written@[id] == LINK_ROW_CAP);
    assert(entry_or(books[2].link_tick@, id, 0) == 1);
    assert(entry_or(books[2].link_stride@, id, 1) == 2);
    assert(2u32 % 2u32 == 0) by (bit_vector);
    assert(LINK_ROW_CAP < LINK_ROW_CAP * 2);
}

/// A link that has kept the cap's worth of rows and already samples at stride
/// two keeps one of its next two offers.
pub proof fn law_link_keeps_at_stride_two(a: TraceBook, rows: Seq<LinkRow>, books: Seq<TraceBook>)
    requires
        rows.len() >= 2,
        books.len() == rows.len() + 1,
        books[0] == a,
        forall|i: int| 0 <= i < books.len() ==> (#[trigger] books[i]).wf(),
        forall|i: int| 0 <= i < rows.len() ==> link_offer(books[i], #[trigger] rows[i], books[i + 1]),
        forall|i: int| 0 <= i < rows.len() ==> (#[trigger] rows[i]).link_id == rows[0].link_id,
        (rows[0].link_id as int) < a.link_written@.len(),
        a.link_written@[rows[0].link_id as int] == LINK_ROW_CAP,
        a.link_stride@[rows[0].link_id as int] == 2,
        a.link_tick@[rows[0].link_id as int] < u32::MAX - 2,
    ensures
        books[1].links@ == a.links@.push(rows[0]) || books[2].links@ == a.links@.push(rows[1]),
{
    let id = rows[0].link_id as int;
    let t = a.link_tick@[id];
    assert(link_offer(books[0], rows[0], books[1]));
    assert(rows[1].link_id == rows[0].link_id);
    assert(link_offer(books[1], rows[1], books[2]));
    assert(books[1].wf() && books[2].wf());
    assert(LINK_ROW_CAP < LINK_ROW_CAP * 2);
    assert(entry_or(a.link_tick@, id, 0) == t);
    assert(entry_or(a.link_stride@, id, 1) == 2);
    assert(entry_or(a.link_written@, id, 0) == LINK_ROW_CAP);
    if (t + 1) % 2 == 0 {
        assert(books[1].links@ == a.links@.push(rows[0]));
    } else {
        assert(books[1].link_tick@[id] == t + 1);
        assert(books[1].link_stride@[id] == 2);
        assert(books[1].link_written@[id] == LINK_ROW_CAP);
        assert(books[1].links@ == a.links@);
        assert(entry_or(books[1].link_tick@, id, 0) == t + 1);
        assert(entry_or(books[1].link_stride@, id, 1) == 2);
        assert(entry_or(books[1].link_written@, id, 0) == LINK_ROW_CAP);
        assert((t + 2) % 2 == 0);
        assert(books[2].links@ == a.links@.push(rows[1]));
    }
}

/// `b` is `a` after offering the snapshot `row`.
pub open spec fn link_offer(a: TraceBook, row: LinkRow, b: TraceBook) -> bool {
    let id = row.link_id as int;
    let n = if id < a.link_written@.len() {
        a.link_written@.len() as int
    } else {
        id + 1
    };
    let written = entry_or(a.link_written@, id, 0);
    let stride = entry_or(a.link_stride@, id, 1);
    let tick = if entry_or(a.link_tick@, id, 0) < u32::MAX {
        (entry_or(a.link_tick@, id, 0) + 1) as u32
    } else {
        u32::MAX
    };
    &&& b.link_written@.len() == n
    &&& forall|i: int|
        0 <= i < n && i != id ==> #[trigger] b.link_written@[i] == entry_or(a.link_written@, i, 0)
            && b.link_stride@[i] == entry_or(a.link_stride@, i, 1) && b.link_tick@[i] == entry_or(
            a.link_tick@,
            i,
            0,
        )
    &&& if tick % stride != 0 {
        b.link_written@[id] == written && b.link_stride@[id] == stride && b.link_tick@[id] == tick
            && b.links@ == a.links@
    } else if written >= LINK_ROW_CAP * stride {
        b.link_written@[id] == written && b.link_stride@[id] == (if stride * 2 >= 2 && stride * 2 <= u32::MAX {
            (stride * 2) as u32
        } else if stride * 2 > u32::MAX {
            u32::MAX
        } else {
            2u32
        }) && b.link_tick@[id] == 0 && b.links@ == a.links@
    } else {
        b.link_written@[id] == (if written < u32::MAX {
            (written + 1) as u32
        } else {
            u32::MAX
        }) && b.link_stride@[id] == stride && b.link_tick@[id] == tick
            && b.links@ == a.links@.push(row)
    }
}

} // verus!
