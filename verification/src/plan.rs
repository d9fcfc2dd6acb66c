//! The planner's side: fabric deltas and their grammar, the planner's errors,
//! and the helpers that read its runs.
use vstd::prelude::*;

use crate::cli_text::{
    chars_of, find_char, first_index_of, is_alpha, is_word, parse_u32, slice_chars, spec_parse_u32,
};
use crate::kernel::RunError;
use crate::mix::Mix;
use crate::report::{JobRow, PlanReject, Report};
use crate::topo::Graph;
use crate::types::{GpuAvail, UnavailReason};
use crate::text::{decimal, spec_decimal};
use crate::types::ProcessExit;

verus! {

/// A change to the fabric.
#[derive(Clone, Debug, PartialEq, Eq, Structural)]
pub enum Delta {
    /// Row `i` (`A` is 0) arrives late.
    DelayRow(u32),
    /// Rebuild with this many spines.
    Spines(u32),
    /// Remove this percentage of the spines.
    SpinesPercent(u32),
    /// Rebuild at this oversubscription.
    Oversub(u32),
}

/// Why the planner stopped.
#[derive(Clone, Debug)]
pub enum PlanError {
    Delta(String),
    Run(RunError),
}

impl PlanError {
    pub fn exit(&self) -> (r: ProcessExit)
        ensures
            r == match self {
                PlanError::Delta(_) => ProcessExit::BadInput,
                PlanError::Run(e) => crate::kernel::spec_run_exit(*e),
            },
    {
        match self {
            PlanError::Delta(_) => ProcessExit::BadInput,
            PlanError::Run(e) => e.exit(),
        }
    }

    pub fn e_code(&self) -> (r: &'static str)
        ensures
            r@ == match self {
                PlanError::Delta(_) => "E_FAILSPEC"@,
                PlanError::Run(e) => crate::kernel::spec_run_code(*e),
            },
    {
        match self {
            PlanError::Delta(_) => "E_FAILSPEC",
            PlanError::Run(e) => e.e_code(),
        }
    }

    /// The message printed for the error.
    pub fn message(&self) -> (r: String)
        ensures
            r@ == match self {
                PlanError::Delta(m) => "error[E_FAILSPEC]: "@ + m@,
                PlanError::Run(e) => crate::kernel::spec_run_message(*e),
            },
    {
        match self {
            PlanError::Delta(m) => String::from_str("error[E_FAILSPEC]: ").concat(m.as_str()),
            PlanError::Run(e) => e.message(),
        }
    }
}

/// The oversubscription ratios a delta may ask for.
pub open spec fn allowed_oversub(k: u32) -> bool {
    k == 1 || k == 2 || k == 4 || k == 8 || k == 16 || k == 32
}

/// ASCII upper case of a letter.
pub open spec fn upper(c: char) -> char {
    if 'a' <= c && c <= 'z' {
        ((c as u32) - 32) as char
    } else {
        c
    }
}

/// The `--delta` grammar: `delay-row=<letter>`, `spines=<n>`,
/// `spines=-<p>%` with `p <= 100`, `oversub=<k>` with `k` in 1, 2, 4, 8, 16, 32.
pub open spec fn spec_parse_delta(s: Seq<char>) -> Result<Delta, Seq<char>> {
    match first_index_of(s, '=') {
        None => Err("expected key=value, got "@ + s),
        Some(eq) => {
            let key = s.take(eq);
            let val = s.skip(eq + 1);
            if key == "delay-row"@ {
                if val.len() != 1 || !is_alpha(val[0]) {
                    Err("bad delay-row "@ + val)
                } else {
                    Ok(Delta::DelayRow(((upper(val[0]) as u32) - ('A' as u32)) as u32))
                }
            } else if key == "spines"@ {
                if val.len() >= 2 && val[0] == '-' && val.last() == '%' {
                    match spec_parse_u32(val.subrange(1, val.len() - 1)) {
                        Some(p) => if p <= 100 {
                            Ok(Delta::SpinesPercent(p))
                        } else {
                            Err("bad spines percent "@ + val)
                        },
                        None => Err("bad spines percent "@ + val),
                    }
                } else {
                    match spec_parse_u32(val) {
                        Some(n) => Ok(Delta::Spines(n)),
                        None => Err("bad spines "@ + val),
                    }
                }
            } else if key == "oversub"@ {
                match spec_parse_u32(val) {
                    Some(k) => if allowed_oversub(k) {
                        Ok(Delta::Oversub(k))
                    } else {
                        Err("oversub must be one of [1, 2, 4, 8, 16, 32], got "@ + spec_decimal(k as nat))
                    },
                    None => Err("bad oversub "@ + val),
                }
            } else {
                Err("unknown delta "@ + s)
            }
        },
    }
}

/// Parse a `--delta` argument.
pub fn parse_delta(s: &str) -> (r: Result<Delta, String>)
    ensures
        match r {
            Ok(d) => spec_parse_delta(s@) == Ok::<Delta, Seq<char>>(d),
            Err(m) => spec_parse_delta(s@) == Err::<Delta, Seq<char>>(m@),
        },
{
    let v = chars_of(s);
    let n = v.len();
    let eq = match find_char(&v, '=') {
        None => {
            return Err(String::from_str("expected key=value, got ").concat(s));
        },
        Some(e) => e,
    };
    let key = slice_chars(&v, 0, eq);
    let val = slice_chars(&v, eq + 1, n);
    assert(key@ =~= s@.take(eq as int));
    assert(val@ =~= s@.skip(eq + 1));
    let val_str = s.substring_char(eq + 1, n);
    assert(val_str@ =~= val@);
    if is_word(&key, "delay-row") {
        if val.len() != 1 || !(('a' <= val[0] && val[0] <= 'z') || ('A' <= val[0] && val[0] <= 'Z')) {
            return Err(String::from_str("bad delay-row ").concat(val_str));
        }
        let c = val[0];
        let u: u32 = if 'a' <= c && c <= 'z' {
            (c as u32) - 32
        } else {
            c as u32
        };
        assert(u == upper(c) as u32);
        return Ok(Delta::DelayRow(u - ('A' as u32)));
    }
    if is_word(&key, "spines") {
        let m = val.len();
        if m >= 2 && val[0] == '-' && val[m - 1] == '%' {
            let mid = slice_chars(&val, 1, m - 1);
            return match parse_u32(&mid) {
                Some(p) => if p <= 100 {
                    Ok(Delta::SpinesPercent(p))
                } else {
                    Err(String::from_str("bad spines percent ").concat(val_str))
                },
                None => Err(String::from_str("bad spines percent ").concat(val_str)),
            };
        }
        return match parse_u32(&val) {
            Some(x) => Ok(Delta::Spines(x)),
            None => Err(String::from_str("bad spines ").concat(val_str)),
        };
    }
    if is_word(&key, "oversub") {
        return match parse_u32(&val) {
            Some(k) => if k == 1 || k == 2 || k == 4 || k == 8 || k == 16 || k == 32 {
                Ok(Delta::Oversub(k))
            } else {
                let d = decimal(k as u128);
                Err(String::from_str("oversub must be one of [1, 2, 4, 8, 16, 32], got ").concat(d.as_str()))
            },
            None => Err(String::from_str("bad oversub ").concat(val_str)),
        };
    }
    Err(String::from_str("unknown delta ").concat(s))
}

/// The letter of a row, `R<i>` past `Z`.
pub open spec fn spec_row_letter(i: u32) -> Seq<char> {
    if i < 26 {
        seq![(('A' as u32) + i) as char]
    } else {
        seq!['R'] + spec_decimal(i as nat)
    }
}

/// The name of row `i`: `A` to `Z`, then `R<i>`.
pub fn row_letter(i: u32) -> (r: String)
    ensures
        r@ == spec_row_letter(i),
{
    if i < 26 {
        let letters = "ABCDEFGHIJKLMNOPQRSTUVWXYZ";
        proof {
            reveal_strlit("ABCDEFGHIJKLMNOPQRSTUVWXYZ");
        }
        let s = letters.substring_char(i as usize, i as usize + 1);
        let out = String::from_str(s);
        assert(out@ =~= spec_row_letter(i)) by {
            assert(s@ =~= seq![letters@[i as int]]);
            assert(letters@[i as int] == (('A' as u32) + i) as char) by {
                reveal_strlit("ABCDEFGHIJKLMNOPQRSTUVWXYZ");
            }
        }
        out
    } else {
        let d = decimal(i as u128);
        let out = String::from_str("R").concat(d.as_str());
        proof {
            reveal_strlit("R");
        }
        out
    }
}

/// Spines left after removing `p` percent of `s`, rounded up.
pub open spec fn spec_spines_after(s: nat, p: nat) -> nat {
    let keep = if p <= 100 {
        (100 - p) as nat
    } else {
        0
    };
    let x = s * keep;
    let c = (x + 99) / 100;
    if c > u32::MAX {
        (c % 0x1_0000_0000) as nat
    } else {
        c
    }
}

/// Spines left after removing `p` percent of `s`, rounded up.
pub fn spines_after_percent(s: u32, p: u32) -> (r: u32)
    ensures
        r == spec_spines_after(s as nat, p as nat),
{
    let keep: u64 = if p <= 100 {
        100 - p as u64
    } else {
        0
    };
    assert(s as u64 * keep <= 429_496_729_500) by (nonlinear_arith)
        requires
            s <= u32::MAX,
            keep <= 100,
    ;
    let x = (s as u64) * keep;
    let c = (x + 99) / 100;
    assert(c <= u32::MAX);
    c as u32
}

/// The job rows that were admitted.
pub open spec fn admitted(jobs: Seq<JobRow>, id: u32) -> bool {
    exists|k: int| 0 <= k < jobs.len() && (#[trigger] jobs[k]).job_id == id && jobs[k].decision@ == "admit"@
}

/// Every job of the mix was admitted.
pub fn fully_admits(report: &Report, mix: &Mix) -> (r: bool)
    ensures
        r == forall|j: int| 0 <= j < mix.jobs@.len() ==> admitted(report.jobs@, (#[trigger] mix.jobs@[j]).id.0),
{
    let mut j: usize = 0;
    while j < mix.jobs.len()
        invariant
            j <= mix.jobs@.len(),
            forall|q: int| 0 <= q < j ==> admitted(report.jobs@, (#[trigger] mix.jobs@[q]).id.0),
        decreases mix.jobs@.len() - j,
    {
        let id = mix.jobs[j].id.0;
        let mut found = false;
        let mut k: usize = 0;
        while k < report.jobs.len()
            invariant
                k <= report.jobs@.len(),
                found == exists|q: int| 0 <= q < k && (#[trigger] report.jobs@[q]).job_id == id && report.jobs@[q].decision@ == "admit"@,
            decreases report.jobs@.len() - k,
        {
            let c = chars_of(report.jobs[k].decision.as_str());
            if report.jobs[k].job_id == id && is_word(&c, "admit") {
                found = true;
            }
            k = k + 1;
        }
        if !found {
            return false;
        }
        j = j + 1;
    }
    true
}


/// The ids of the admitted rows, in row order.
pub open spec fn spec_admitted_ids(jobs: Seq<JobRow>) -> Seq<u32>
    decreases jobs.len(),
{
    if jobs.len() == 0 {
        Seq::empty()
    } else {
        let prev = spec_admitted_ids(jobs.drop_last());
        if jobs.last().decision@ == "admit"@ {
            prev.push(jobs.last().job_id)
        } else {
            prev
        }
    }
}

/// The jobs the planned fabric admitted, in report order.
pub fn jobs_admitted(report: &Report) -> (r: Vec<u32>)
    ensures
        r@ == spec_admitted_ids(report.jobs@),
{
    let mut out: Vec<u32> = Vec::new();
    let mut k: usize = 0;
    while k < report.jobs.len()
        invariant
            k <= report.jobs@.len(),
            out@ == spec_admitted_ids(report.jobs@.take(k as int)),
        decreases report.jobs@.len() - k,
    {
        assert(report.jobs@.take(k + 1).drop_last() =~= report.jobs@.take(k as int));
        let c = chars_of(report.jobs[k].decision.as_str());
        if is_word(&c, "admit") {
            out.push(report.jobs[k].job_id);
        }
        k = k + 1;
    }
    assert(report.jobs@.take(report.jobs@.len() as int) =~= report.jobs@);
    out
}

/// The deadline of the last mix job with this id, or zero.
pub open spec fn spec_deadline_of(jobs: Seq<crate::mix::JobSpec>, id: u32) -> i128
    decreases jobs.len(),
{
    if jobs.len() == 0 {
        0
    } else if jobs.last().id.0 == id {
        jobs.last().deadline_ps
    } else {
        spec_deadline_of(jobs.drop_last(), id)
    }
}

fn deadline_of(mix: &Mix, id: u32) -> (r: i128)
    ensures
        r == spec_deadline_of(mix.jobs@, id),
{
    let mut k: usize = mix.jobs.len();
    assert(mix.jobs@.take(mix.jobs@.len() as int) =~= mix.jobs@);
    while k > 0
        invariant
            k <= mix.jobs@.len(),
            spec_deadline_of(mix.jobs@, id) == spec_deadline_of(mix.jobs@.take(k as int), id),
        decreases k,
    {
        assert(mix.jobs@.take(k as int).drop_last() =~= mix.jobs@.take(k - 1));
        if mix.jobs[k - 1].id.0 == id {
            return mix.jobs[k - 1].deadline_ps;
        }
        k = k - 1;
    }
    0
}

/// The planner's line for a rejected row.
pub open spec fn reject_line(row: JobRow, jobs: Seq<crate::mix::JobSpec>, line: PlanReject) -> bool {
    &&& line.id == row.job_id
    &&& line.code@ == match row.reject {
        Some(c) => c@,
        None => Seq::<char>::empty(),
    }
    &&& line.T_pred_ps == row.t_pred_ps
    &&& line.D_j_ps == spec_deadline_of(jobs, row.job_id)
}

/// The rejected rows, in row order.
pub open spec fn spec_rejected_rows(jobs: Seq<JobRow>) -> Seq<JobRow>
    decreases jobs.len(),
{
    if jobs.len() == 0 {
        Seq::empty()
    } else {
        let prev = spec_rejected_rows(jobs.drop_last());
        if jobs.last().decision@ == "reject"@ {
            prev.push(jobs.last())
        } else {
            prev
        }
    }
}

/// The jobs the planned fabric rejected, in report order, each with its
/// code (empty when the row has none), prediction and mix deadline.
pub fn jobs_rejected(report: &Report, mix: &Mix) -> (r: Vec<PlanReject>)
    ensures
        r@.len() == spec_rejected_rows(report.jobs@).len(),
        forall|k: int| 0 <= k < r@.len() ==> reject_line(spec_rejected_rows(report.jobs@)[k], mix.jobs@, #[trigger] r@[k]),
{
    let mut out: Vec<PlanReject> = Vec::new();
    let mut k: usize = 0;
    while k < report.jobs.len()
        invariant
            k <= report.jobs@.len(),
            out@.len() == spec_rejected_rows(report.jobs@.take(k as int)).len(),
            forall|q: int|
                0 <= q < out@.len() ==> reject_line(spec_rejected_rows(report.jobs@.take(k as int))[q], mix.jobs@, #[trigger] out@[q]),
        decreases report.jobs@.len() - k,
    {
        assert(report.jobs@.take(k + 1).drop_last() =~= report.jobs@.take(k as int));
        let row = &report.jobs[k];
        let c = chars_of(row.decision.as_str());
        if is_word(&c, "reject") {
            let code = match &row.reject {
                Some(x) => x.clone(),
                None => String::new(),
            };
            out.push(PlanReject { id: row.job_id, code, T_pred_ps: row.t_pred_ps, D_j_ps: deadline_of(mix, row.job_id) });
        }
        k = k + 1;
    }
    assert(report.jobs@.take(report.jobs@.len() as int) =~= report.jobs@);
    out
}

/// The rows the deltas delay, each once, in the order first named.
pub open spec fn spec_delayed(ds: Seq<Delta>) -> Seq<u32>
    decreases ds.len(),
{
    if ds.len() == 0 {
        Seq::empty()
    } else {
        let prev = spec_delayed(ds.drop_last());
        match ds.last() {
            Delta::DelayRow(i) => if prev.contains(i) {
                prev
            } else {
                prev.push(i)
            },
            _ => prev,
        }
    }
}

/// The delayed rows, each once, in the order first named.
pub fn delayed_rows(deltas: &Vec<Delta>) -> (r: Vec<u32>)
    ensures
        r@ == spec_delayed(deltas@),
{
    let mut out: Vec<u32> = Vec::new();
    let mut k: usize = 0;
    while k < deltas.len()
        invariant
            k <= deltas@.len(),
            out@ == spec_delayed(deltas@.take(k as int)),
        decreases deltas@.len() - k,
    {
        assert(deltas@.take(k + 1).drop_last() =~= deltas@.take(k as int));
        match deltas[k] {
            Delta::DelayRow(i) => {
                let mut seen = false;
                let mut q: usize = 0;
                while q < out.len()
                    invariant
                        q <= out@.len(),
                        seen == out@.take(q as int).contains(i),
                    decreases out@.len() - q,
                {
                    let ghost t = out@.take(q as int);
                    assert(out@.take(q + 1) =~= t.push(out@[q as int]));
                    proof {
                        if out@[q as int] == i {
                            assert(t.push(out@[q as int])[q as int] == i);
                        } else {
                            if t.push(out@[q as int]).contains(i) {
                                let w = choose|w: int| 0 <= w < q + 1 && t.push(out@[q as int])[w] == i;
                                assert(t[w] == i);
                            }
                        }
                    }
                    if out[q] == i {
                        seen = true;
                    }
                    q = q + 1;
                }
                assert(out@.take(out@.len() as int) =~= out@);
                if !seen {
                    out.push(i);
                }
            },
            _ => {},
        }
        k = k + 1;
    }
    assert(deltas@.take(deltas@.len() as int) =~= deltas@);
    out
}

/// The ids of the nodes that are not present, in node order.
pub open spec fn spec_absent_nodes(ns: Seq<crate::topo::Node>) -> Seq<u32>
    decreases ns.len(),
{
    if ns.len() == 0 {
        Seq::empty()
    } else {
        let prev = spec_absent_nodes(ns.drop_last());
        if !ns.last().present {
            prev.push(ns.last().id.0)
        } else {
            prev
        }
    }
}

/// The nodes a planned fabric lacks.
pub fn nodes_removed(graph: &Graph) -> (r: Vec<u32>)
    ensures
        r@ == spec_absent_nodes(graph.nodes@),
{
    let mut out: Vec<u32> = Vec::new();
    let mut k: usize = 0;
    while k < graph.nodes.len()
        invariant
            k <= graph.nodes@.len(),
            out@ == spec_absent_nodes(graph.nodes@.take(k as int)),
        decreases graph.nodes@.len() - k,
    {
        assert(graph.nodes@.take(k + 1).drop_last() =~= graph.nodes@.take(k as int));
        if !graph.nodes[k].present {
            out.push(graph.nodes[k].id.0);
        }
        k = k + 1;
    }
    assert(graph.nodes@.take(graph.nodes@.len() as int) =~= graph.nodes@);
    out
}

/// How many GPUs sit in rows that are absent.
pub open spec fn spec_absent_gpus(gs: Seq<crate::topo::Gpu>) -> nat
    decreases gs.len(),
{
    if gs.len() == 0 {
        0
    } else {
        spec_absent_gpus(gs.drop_last()) + if gs.last().avail == GpuAvail::Unavailable(UnavailReason::AbsentRow) {
            1nat
        } else {
            0nat
        }
    }
}

proof fn lemma_absent_le(gs: Seq<crate::topo::Gpu>)
    ensures
        spec_absent_gpus(gs) <= gs.len(),
    decreases gs.len(),
{
    if gs.len() > 0 {
        lemma_absent_le(gs.drop_last());
    }
}

/// The GPUs a planned fabric lacks (absent rows), cut to 32 bits.
pub fn gpus_removed(graph: &Graph) -> (r: u32)
    ensures
        r == spec_absent_gpus(graph.gpus@) as u32,
{
    let mut n: u64 = 0;
    let mut k: usize = 0;
    while k < graph.gpus.len()
        invariant
            k <= graph.gpus@.len(),
            n == spec_absent_gpus(graph.gpus@.take(k as int)),
        decreases graph.gpus@.len() - k,
    {
        assert(graph.gpus@.take(k + 1).drop_last() =~= graph.gpus@.take(k as int));
        proof {
            lemma_absent_le(graph.gpus@.take(k as int));
        }
        match graph.gpus[k].avail {
            GpuAvail::Unavailable(UnavailReason::AbsentRow) => {
                n = n + 1;
            },
            _ => {},
        }
        k = k + 1;
    }
    assert(graph.gpus@.take(graph.gpus@.len() as int) =~= graph.gpus@);
    #[verifier::truncate]
    (n as u32)
}

} // verus!
