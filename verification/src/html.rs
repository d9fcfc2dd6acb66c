//! The static black-and-white `report.html`: a summary table, the jobs, the
//! rejects by code, the failures and the planner's section.
use vstd::prelude::*;

use crate::report::{count_of, spec_join, strs, FailRecord, PlanReject, PlanReport, Report};
use crate::types::{spec_reject_name, RejectCode};
use crate::text::{decimal, decimal_i128, spec_decimal, spec_decimal_int};

verus! {

/// `&`, `<` and `>` written as entities.
pub open spec fn spec_escape(s: Seq<char>) -> Seq<char>
    decreases s.len(),
{
    if s.len() == 0 {
        Seq::empty()
    } else {
        let c = s.last();
        spec_escape(s.drop_last()) + if c == '&' {
            "&amp;"@
        } else if c == '<' {
            "&lt;"@
        } else if c == '>' {
            "&gt;"@
        } else {
            seq![c]
        }
    }
}

/// The text with `&`, `<` and `>` escaped.
pub fn escape(s: &str) -> (r: String)
    ensures
        r@ == spec_escape(s@),
{
    let n = s.unicode_len();
    let mut out = String::new();
    let mut i: usize = 0;
    while i < n
        invariant
            n == s@.len(),
            i <= n,
            out@ == spec_escape(s@.take(i as int)),
        decreases n - i,
    {
        let c = s.get_char(i);
        assert(s@.take(i + 1).drop_last() =~= s@.take(i as int));
        if c == '&' {
            out.append("&amp;");
        } else if c == '<' {
            out.append("&lt;");
        } else if c == '>' {
            out.append("&gt;");
        } else {
            let one = s.substring_char(i, i + 1);
            assert(one@ =~= seq![c]);
            out.append(one);
        }
        i = i + 1;
    }
    assert(s@.take(n as int) =~= s@);
    out
}

/// Header cells.
pub open spec fn spec_heads(hs: Seq<Seq<char>>) -> Seq<char>
    decreases hs.len(),
{
    if hs.len() == 0 {
        Seq::empty()
    } else {
        spec_heads(hs.drop_last()) + "<th>"@ + hs.last() + "</th>"@
    }
}

/// One row's cells, escaped.
pub open spec fn spec_cells(cs: Seq<Seq<char>>) -> Seq<char>
    decreases cs.len(),
{
    if cs.len() == 0 {
        Seq::empty()
    } else {
        spec_cells(cs.drop_last()) + "<td>"@ + spec_escape(cs.last()) + "</td>"@
    }
}

/// The body rows.
pub open spec fn spec_rows(rows: Seq<Seq<Seq<char>>>) -> Seq<char>
    decreases rows.len(),
{
    if rows.len() == 0 {
        Seq::empty()
    } else {
        spec_rows(rows.drop_last()) + "<tr>"@ + spec_cells(rows.last()) + "</tr>\n"@
    }
}

/// A captioned table; with no rows, one `none` cell across every column.
pub open spec fn spec_table(caption: Seq<char>, heads: Seq<Seq<char>>, rows: Seq<Seq<Seq<char>>>) -> Seq<char> {
    "<table><caption>"@ + caption + "</caption><thead><tr>\n"@ + spec_heads(heads) + "</tr></thead><tbody>\n"@
        + spec_rows(rows) + (if rows.len() == 0 {
        "<tr><td colspan=\""@ + spec_decimal(heads.len()) + "\">none</td></tr>\n"@
    } else {
        Seq::empty()
    }) + "</tbody></table>\n"@
}

/// The views of a table's rows.
pub open spec fn rows_view(rows: Seq<Vec<String>>) -> Seq<Seq<Seq<char>>> {
    rows.map_values(|r: Vec<String>| strs(r@))
}

/// Append a captioned table.
pub fn push_table(out: &mut String, caption: &str, heads: &Vec<String>, rows: &Vec<Vec<String>>)
    ensures
        final(out)@ == old(out)@ + spec_table(caption@, strs(heads@), rows_view(rows@)),
{
    proof {
        reveal_strlit("<table><caption>");
        reveal_strlit("</caption><thead><tr>\n");
        reveal_strlit("<th>");
        reveal_strlit("</th>");
        reveal_strlit("</tr></thead><tbody>\n");
        reveal_strlit("<tr>");
        reveal_strlit("<td>");
        reveal_strlit("</td>");
        reveal_strlit("</tr>\n");
        reveal_strlit("<tr><td colspan=\"");
        reveal_strlit("\">none</td></tr>\n");
        reveal_strlit("</tbody></table>\n");
    }
    let ghost o = out@;
    out.append("<table><caption>");
    out.append(caption);
    out.append("</caption><thead><tr>\n");
    let ghost mid = out@;
    let mut h: usize = 0;
    while h < heads.len()
        invariant
            h <= heads@.len(),
            out@ == mid + spec_heads(strs(heads@.take(h as int))),
        decreases heads@.len() - h,
    {
        out.append("<th>");
        out.append(heads[h].as_str());
        out.append("</th>");
        proof {
            assert(strs(heads@.take(h + 1)).drop_last() =~= strs(heads@.take(h as int)));
            assert(strs(heads@.take(h + 1)).last() == heads@[h as int]@);
        }
        h = h + 1;
    }
    assert(heads@.take(heads@.len() as int) =~= heads@);
    out.append("</tr></thead><tbody>\n");
    let ghost mid2 = out@;
    let mut r: usize = 0;
    while r < rows.len()
        invariant
            r <= rows@.len(),
            out@ == mid2 + spec_rows(rows_view(rows@.take(r as int))),
        decreases rows@.len() - r,
    {
        let row = &rows[r];
        out.append("<tr>");
        let ghost mid3 = out@;
        let mut c: usize = 0;
        while c < row.len()
            invariant
                c <= row@.len(),
                out@ == mid3 + spec_cells(strs(row@.take(c as int))),
            decreases row@.len() - c,
        {
            out.append("<td>");
            let e = escape(row[c].as_str());
            out.append(e.as_str());
            out.append("</td>");
            proof {
                assert(strs(row@.take(c + 1)).drop_last() =~= strs(row@.take(c as int)));
                assert(strs(row@.take(c + 1)).last() == row@[c as int]@);
            }
            c = c + 1;
        }
        assert(row@.take(row@.len() as int) =~= row@);
        out.append("</tr>\n");
        proof {
            assert(rows_view(rows@.take(r + 1)).drop_last() =~= rows_view(rows@.take(r as int)));
            assert(rows_view(rows@.take(r + 1)).last() == strs(rows@[r as int]@));
        }
        r = r + 1;
    }
    assert(rows@.take(rows@.len() as int) =~= rows@);
    if rows.len() == 0 {
        out.append("<tr><td colspan=\"");
        let d = decimal(heads.len() as u128);
        out.append(d.as_str());
        out.append("\">none</td></tr>\n");
    }
    out.append("</tbody></table>\n");
    proof {
        assert(strs(heads@).len() == heads@.len());
    }
}

/// A one-cell row.
fn one(a: &str) -> (r: Vec<String>)
    ensures
        strs(r@) == seq![a@],
{
    let mut r: Vec<String> = Vec::new();
    r.push(String::from_str(a));
    assert(strs(r@) =~= seq![a@]);
    r
}

/// Two literal cells.
fn two(a: &str, b: &str) -> (r: Vec<String>)
    ensures
        strs(r@) == seq![a@, b@],
{
    pair(a, String::from_str(b))
}

/// A two-cell row.
fn pair(k: &str, v: String) -> (r: Vec<String>)
    ensures
        strs(r@) == seq![k@, v@],
{
    let mut r: Vec<String> = Vec::new();
    r.push(String::from_str(k));
    r.push(v);
    assert(strs(r@) =~= seq![k@, v@]);
    r
}

/// Decimal of an unsigned count.
fn dec(n: u64) -> (r: String)
    ensures
        r@ == spec_decimal(n as nat),
{
    decimal(n as u128)
}

/// `true` or `false`.
pub open spec fn spec_bool(b: bool) -> Seq<char> {
    if b {
        "true"@
    } else {
        "false"@
    }
}

fn bool_text(b: bool) -> (r: String)
    ensures
        r@ == spec_bool(b),
{
    if b {
        String::from_str("true")
    } else {
        String::from_str("false")
    }
}

/// The summary table's rows.
pub open spec fn spec_summary_rows(r: &Report) -> Seq<Seq<Seq<char>>> {
    seq![
        seq!["spec_version"@, r.spec_version@],
        seq!["seed"@, spec_decimal(r.seed as nat)],
        seq!["policy"@, r.policy@],
        seq!["mix_hash"@, r.mix_hash@],
        seq!["topo_hash"@, r.topo_hash@],
        seq!["horizon_ps"@, spec_decimal_int(r.horizon_ps as int)],
        seq!["invariants_ok"@, spec_bool(r.invariants_ok)],
        seq!["gpus"@, spec_decimal(r.topo.gpus as nat)],
        seq!["N"@, spec_decimal(r.topo.N as nat)],
        seq!["L"@, spec_decimal(r.topo.L as nat)],
        seq!["S"@, spec_decimal(r.topo.S as nat)],
        seq!["E_host"@, spec_decimal(r.topo.E_host as nat)],
        seq!["E_ls"@, spec_decimal(r.topo.E_ls as nat)],
        seq!["B_bisect_gbps"@, spec_decimal(r.topo.B_bisect_gbps as nat)],
        seq!["arrivals"@, spec_decimal(r.counts.arrivals as nat)],
        seq!["admits"@, spec_decimal(r.counts.admits as nat)],
        seq!["rejects"@, spec_decimal(r.counts.rejects as nat)],
        seq!["kills"@, spec_decimal(r.counts.kills as nat)],
        seq!["completes"@, spec_decimal(r.counts.completes as nat)],
        seq!["slo_misses"@, spec_decimal(r.counts.slo_misses as nat)],
        seq!["hotspot_us"@, spec_decimal_int(r.metrics.hotspot_us as int)],
        seq!["hotspot_threshold_ppm"@, spec_decimal(r.metrics.hotspot_threshold_ppm as nat)],
        seq!["completions_by_deadline"@, spec_decimal(r.metrics.completions_by_deadline as nat)],
        seq!["tail_collective_us_p99"@, spec_decimal_int(r.metrics.tail_collective_us_p99 as int)],
        seq!["last_flow_collective_us_max"@, spec_decimal_int(r.metrics.last_flow_collective_us_max as int)],
        seq!["slo_miss_us"@, spec_decimal_int(r.metrics.slo_miss_us as int)],
        seq!["disrupted_step_us"@, spec_decimal_int(r.metrics.disrupted_step_us as int)],
        seq!["mean_link_util_ppm"@, spec_decimal_int(r.metrics.mean_link_util_ppm as int)],
    ]
}

/// The summary table's rows.
fn summary_rows(r: &Report) -> (rows: Vec<Vec<String>>)
    ensures
        rows_view(rows@) == spec_summary_rows(r),
{
    let mut rows: Vec<Vec<String>> = Vec::new();
    rows.push(pair("spec_version", r.spec_version.clone()));
    rows.push(pair("seed", dec(r.seed)));
    rows.push(pair("policy", r.policy.clone()));
    rows.push(pair("mix_hash", r.mix_hash.clone()));
    rows.push(pair("topo_hash", r.topo_hash.clone()));
    rows.push(pair("horizon_ps", decimal_i128(r.horizon_ps)));
    rows.push(pair("invariants_ok", bool_text(r.invariants_ok)));
    rows.push(pair("gpus", dec(r.topo.gpus as u64)));
    rows.push(pair("N", dec(r.topo.N as u64)));
    rows.push(pair("L", dec(r.topo.L as u64)));
    rows.push(pair("S", dec(r.topo.S as u64)));
    rows.push(pair("E_host", dec(r.topo.E_host as u64)));
    rows.push(pair("E_ls", dec(r.topo.E_ls as u64)));
    rows.push(pair("B_bisect_gbps", dec(r.topo.B_bisect_gbps)));
    rows.push(pair("arrivals", dec(r.counts.arrivals)));
    rows.push(pair("admits", dec(r.counts.admits)));
    rows.push(pair("rejects", dec(r.counts.rejects)));
    rows.push(pair("kills", dec(r.counts.kills)));
    rows.push(pair("completes", dec(r.counts.completes)));
    rows.push(pair("slo_misses", dec(r.counts.slo_misses)));
    rows.push(pair("hotspot_us", decimal_i128(r.metrics.hotspot_us)));
    rows.push(pair("hotspot_threshold_ppm", dec(r.metrics.hotspot_threshold_ppm)));
    rows.push(pair("completions_by_deadline", dec(r.metrics.completions_by_deadline)));
    rows.push(pair("tail_collective_us_p99", decimal_i128(r.metrics.tail_collective_us_p99)));
    rows.push(pair("last_flow_collective_us_max", decimal_i128(r.metrics.last_flow_collective_us_max)));
    rows.push(pair("slo_miss_us", decimal_i128(r.metrics.slo_miss_us)));
    rows.push(pair("disrupted_step_us", decimal_i128(r.metrics.disrupted_step_us)));
    rows.push(pair("mean_link_util_ppm", decimal_i128(r.metrics.mean_link_util_ppm)));
    assert(rows_view(rows@) =~= spec_summary_rows(r));
    rows
}

/// Words joined by a separator.
pub open spec fn spec_join_sep(ws: Seq<Seq<char>>, sep: Seq<char>) -> Seq<char>
    decreases ws.len(),
{
    if ws.len() == 0 {
        Seq::empty()
    } else if ws.len() == 1 {
        ws[0]
    } else {
        spec_join_sep(ws.drop_last(), sep) + sep + ws.last()
    }
}

/// The strings joined by `sep`.
pub fn join_sep(ws: &Vec<String>, sep: &str) -> (r: String)
    ensures
        r@ == spec_join_sep(strs(ws@), sep@),
{
    let mut out = String::new();
    let mut i: usize = 0;
    while i < ws.len()
        invariant
            i <= ws@.len(),
            out@ == spec_join_sep(strs(ws@.take(i as int)), sep@),
        decreases ws@.len() - i,
    {
        if i > 0 {
            out.append(sep);
        }
        out.append(ws[i].as_str());
        proof {
            assert(strs(ws@.take(i + 1)).drop_last() =~= strs(ws@.take(i as int)));
            assert(strs(ws@.take(i + 1)).last() == ws@[i as int]@);
            if i == 0 {
                assert(strs(ws@.take(1)) =~= seq![ws@[0]@]);
            }
        }
        i = i + 1;
    }
    assert(ws@.take(ws@.len() as int) =~= ws@);
    out
}

/// Decimals of a list of ids.
pub open spec fn decs(xs: Seq<u32>) -> Seq<Seq<char>> {
    xs.map_values(|x: u32| spec_decimal(x as nat))
}

fn dec_list(xs: &Vec<u32>) -> (r: Vec<String>)
    ensures
        strs(r@) == decs(xs@),
{
    let mut out: Vec<String> = Vec::new();
    let mut i: usize = 0;
    while i < xs.len()
        invariant
            i <= xs@.len(),
            out@.len() == i,
            forall|k: int| 0 <= k < i ==> (#[trigger] out@[k])@ == spec_decimal(xs@[k] as nat),
        decreases xs@.len() - i,
    {
        out.push(dec(xs[i] as u64));
        i = i + 1;
    }
    assert(strs(out@) =~= decs(xs@));
    out
}

/// A JSON array of ids, compact.
pub open spec fn spec_json_ids(xs: Seq<u32>) -> Seq<char> {
    "["@ + spec_join_sep(decs(xs), ","@) + "]"@
}

/// A failure epoch as compact JSON with its keys in order.
pub open spec fn spec_fail_json(f: FailRecord) -> Seq<char> {
    "{\"dead_link_bytes\":"@ + spec_decimal(f.dead_link_bytes as nat) + ",\"epoch_from\":"@ + spec_decimal(
        f.epoch_from as nat,
    ) + ",\"epoch_to\":"@ + spec_decimal(f.epoch_to as nat) + ",\"kills\":"@ + spec_json_ids(f.kills@)
        + ",\"reroutes\":"@ + spec_json_ids(f.reroutes@) + ",\"t_ps\":"@ + spec_decimal_int(f.t_ps as int) + "}"@
}

/// The JSON text of a failure epoch, keys in order, no spaces.
pub fn fail_json(f: &FailRecord) -> (r: String)
    ensures
        r@ == spec_fail_json(*f),
{
    let kills = join_sep(&dec_list(&f.kills), ",");
    let reroutes = join_sep(&dec_list(&f.reroutes), ",");
    let out = String::from_str("{\"dead_link_bytes\":").concat(dec(f.dead_link_bytes).as_str()).concat(
        ",\"epoch_from\":",
    ).concat(dec(f.epoch_from as u64).as_str()).concat(",\"epoch_to\":").concat(dec(f.epoch_to as u64).as_str()).concat(
        ",\"kills\":[",
    ).concat(kills.as_str()).concat("],\"reroutes\":[").concat(reroutes.as_str()).concat("],\"t_ps\":").concat(
        decimal_i128(f.t_ps as i128).as_str(),
    ).concat("}");
    proof {
        reveal_strlit("{\"dead_link_bytes\":");
        reveal_strlit(",\"epoch_from\":");
        reveal_strlit(",\"epoch_to\":");
        reveal_strlit(",\"kills\":[");
        reveal_strlit("],\"reroutes\":[");
        reveal_strlit("],\"t_ps\":");
        reveal_strlit("}");
        reveal_strlit(",\"kills\":");
        reveal_strlit(",\"reroutes\":");
        reveal_strlit(",\"t_ps\":");
        reveal_strlit("[");
        reveal_strlit("]");
        assert(out@ =~= spec_fail_json(*f));
    }
    out
}

/// The page's head, up to the opening of the body.
pub open spec fn page_head() -> Seq<char> {
    "<!DOCTYPE html>\n<html lang=\"en\"><head><meta charset=\"utf-8\"><title>fabric-te report</title><style>body{background:#fff;color:#000;font-family:sans-serif}table{border-collapse:collapse;margin:1em 0}th,td{border:1px solid #000;padding:4px;text-align:left}caption{caption-side:top;font-weight:bold;text-align:left}</style></head><body>\n"@
}

/// The jobs table's rows.
pub open spec fn spec_job_rows(jobs: Seq<crate::report::JobRow>) -> Seq<Seq<Seq<char>>> {
    jobs.map_values(
        |j: crate::report::JobRow|
            seq![
                spec_decimal(j.job_id as nat),
                j.decision@,
                spec_decimal(j.steps_done as nat),
                spec_decimal_int(j.t_pred_ps as int),
                match j.reject {
                    Some(s) => s@,
                    None => "-"@,
                },
            ],
    )
}

fn job_rows(jobs: &Vec<crate::report::JobRow>) -> (rows: Vec<Vec<String>>)
    ensures
        rows_view(rows@) == spec_job_rows(jobs@),
{
    let mut rows: Vec<Vec<String>> = Vec::new();
    let mut i: usize = 0;
    while i < jobs.len()
        invariant
            i <= jobs@.len(),
            rows@.len() == i,
            forall|k: int| 0 <= k < i ==> strs((#[trigger] rows@[k])@) == spec_job_rows(jobs@)[k],
        decreases jobs@.len() - i,
    {
        let j = &jobs[i];
        let mut row: Vec<String> = Vec::new();
        row.push(dec(j.job_id as u64));
        row.push(j.decision.clone());
        row.push(dec(j.steps_done as u64));
        row.push(decimal_i128(j.t_pred_ps));
        let rej = match &j.reject {
            Some(s) => s.clone(),
            None => {
                proof {
                    reveal_strlit("-");
                }
                String::from_str("-")
            },
        };
        row.push(rej);
        assert(strs(row@) =~= spec_job_rows(jobs@)[i as int]);
        rows.push(row);
        i = i + 1;
    }
    assert(rows_view(rows@) =~= spec_job_rows(jobs@));
    rows
}

/// Reject codes in name order.
pub open spec fn codes_by_name() -> Seq<RejectCode> {
    seq![
        RejectCode::CrossRailUnsupported,
        RejectCode::DeadElementOnPath,
        RejectCode::EpochPrepareFailed,
        RejectCode::FragmentedGpus,
        RejectCode::MixDoesNotFit,
        RejectCode::NoFreeGpus,
        RejectCode::OddRingDegenerate,
        RejectCode::ResidualExhausted,
        RejectCode::SloMiss,
        RejectCode::ZeroLeftover,
    ]
}

/// The rejects table's rows: every code in name order with its count.
pub open spec fn spec_reject_rows(m: Seq<(String, u64)>) -> Seq<Seq<Seq<char>>> {
    codes_by_name().map_values(
        |c: RejectCode| seq![spec_reject_name(c), spec_decimal(count_of(m, spec_reject_name(c)) as nat)],
    )
}

fn reject_rows(m: &Vec<(String, u64)>) -> (rows: Vec<Vec<String>>)
    ensures
        rows_view(rows@) == spec_reject_rows(m@),
{
    let codes = vec![
        RejectCode::CrossRailUnsupported,
        RejectCode::DeadElementOnPath,
        RejectCode::EpochPrepareFailed,
        RejectCode::FragmentedGpus,
        RejectCode::MixDoesNotFit,
        RejectCode::NoFreeGpus,
        RejectCode::OddRingDegenerate,
        RejectCode::ResidualExhausted,
        RejectCode::SloMiss,
        RejectCode::ZeroLeftover,
    ];
    assert(codes@ =~= codes_by_name());
    let mut rows: Vec<Vec<String>> = Vec::new();
    let mut i: usize = 0;
    while i < codes.len()
        invariant
            codes@ == codes_by_name(),
            i <= codes@.len(),
            rows@.len() == i,
            forall|k: int| 0 <= k < i ==> strs((#[trigger] rows@[k])@) == spec_reject_rows(m@)[k],
        decreases codes@.len() - i,
    {
        let name = codes[i].as_str();
        let n = count_named(m, name);
        let row = pair(name, dec(n));
        rows.push(row);
        i = i + 1;
    }
    assert(rows_view(rows@) =~= spec_reject_rows(m@));
    rows
}

fn count_named(m: &Vec<(String, u64)>, name: &str) -> (r: u64)
    ensures
        r == count_of(m@, name@),
{
    let mut i: usize = 0;
    assert(m@.skip(0) =~= m@);
    while i < m.len()
        invariant
            i <= m@.len(),
            count_of(m@, name@) == count_of(m@.skip(i as int), name@),
        decreases m@.len() - i,
    {
        let a = crate::cli_text::chars_of(m[i].0.as_str());
        assert(m@.skip(i as int).drop_first() =~= m@.skip(i + 1));
        if crate::cli_text::is_word(&a, name) {
            return m[i].1;
        }
        i = i + 1;
    }
    assert(m@.skip(i as int).len() == 0);
    0
}

/// The failures table's rows: each epoch as JSON, or one `none`.
pub open spec fn spec_fail_rows(fails: Seq<FailRecord>) -> Seq<Seq<Seq<char>>> {
    if fails.len() == 0 {
        seq![seq!["none"@]]
    } else {
        fails.map_values(|f: FailRecord| seq![spec_fail_json(f)])
    }
}

fn fail_rows(fails: &Vec<FailRecord>) -> (rows: Vec<Vec<String>>)
    ensures
        rows_view(rows@) == spec_fail_rows(fails@),
{
    let mut rows: Vec<Vec<String>> = Vec::new();
    if fails.len() == 0 {
        let mut row: Vec<String> = Vec::new();
        row.push(String::from_str("none"));
        assert(strs(row@) =~= seq!["none"@]);
        rows.push(row);
        assert(rows_view(rows@) =~= spec_fail_rows(fails@));
        return rows;
    }
    let mut i: usize = 0;
    while i < fails.len()
        invariant
            i <= fails@.len(),
            rows@.len() == i,
            forall|k: int| 0 <= k < i ==> strs((#[trigger] rows@[k])@) == seq![spec_fail_json(fails@[k])],
        decreases fails@.len() - i,
    {
        let mut row: Vec<String> = Vec::new();
        row.push(fail_json(&fails[i]));
        assert(strs(row@) =~= seq![spec_fail_json(fails@[i as int])]);
        rows.push(row);
        i = i + 1;
    }
    assert(rows_view(rows@) =~= spec_fail_rows(fails@));
    rows
}

/// `id:code` of each rejected job.
pub open spec fn spec_rejected(js: Seq<PlanReject>) -> Seq<Seq<char>> {
    js.map_values(|j: PlanReject| spec_decimal(j.id as nat) + ":"@ + j.code@)
}

/// The planner table's rows.
pub open spec fn spec_plan_rows(p: PlanReport) -> Seq<Seq<Seq<char>>> {
    seq![
        seq!["deltas"@, spec_join_sep(strs(p.deltas@), ", "@)],
        seq!["nodes_removed"@, spec_join_sep(decs(p.nodes_removed@), ", "@)],
        seq!["gpus_removed"@, spec_decimal(p.gpus_removed as nat)],
        seq!["S_before"@, spec_decimal(p.S_before as nat)],
        seq!["S_after"@, spec_decimal(p.S_after as nat)],
        seq!["jobs_admitted"@, spec_join_sep(decs(p.jobs_admitted@), ", "@)],
        seq!["jobs_rejected"@, spec_join_sep(spec_rejected(p.jobs_rejected@), ", "@)],
        seq!["new_hotspots"@, spec_join_sep(decs(p.new_hotspots@), ", "@)],
        seq![
            "restore.extra_spines"@,
            match p.restore.extra_spines {
                Some(n) => spec_decimal(n as nat),
                None => "null"@,
            },
        ],
        seq!["restore.rows_needed"@, spec_join_sep(strs(p.restore.rows_needed@), ", "@)],
        seq!["vs_baseline.admits"@, spec_decimal(p.vs_baseline.admits as nat)],
        seq!["vs_baseline.rejects"@, spec_decimal(p.vs_baseline.rejects as nat)],
    ]
}

fn rejected_list(js: &Vec<PlanReject>) -> (r: Vec<String>)
    ensures
        strs(r@) == spec_rejected(js@),
{
    let mut out: Vec<String> = Vec::new();
    let mut i: usize = 0;
    while i < js.len()
        invariant
            i <= js@.len(),
            out@.len() == i,
            forall|k: int| 0 <= k < i ==> (#[trigger] out@[k])@ == spec_decimal(js@[k].id as nat) + ":"@ + js@[k].code@,
        decreases js@.len() - i,
    {
        let s = dec(js[i].id as u64).concat(":").concat(js[i].code.as_str());
        proof {
            reveal_strlit(":");
        }
        out.push(s);
        i = i + 1;
    }
    assert(strs(out@) =~= spec_rejected(js@));
    out
}

fn plan_rows(p: &PlanReport) -> (rows: Vec<Vec<String>>)
    ensures
        rows_view(rows@) == spec_plan_rows(*p),
{
    let mut rows: Vec<Vec<String>> = Vec::new();
    rows.push(pair("deltas", join_sep(&p.deltas, ", ")));
    rows.push(pair("nodes_removed", join_sep(&dec_list(&p.nodes_removed), ", ")));
    rows.push(pair("gpus_removed", dec(p.gpus_removed as u64)));
    rows.push(pair("S_before", dec(p.S_before as u64)));
    rows.push(pair("S_after", dec(p.S_after as u64)));
    rows.push(pair("jobs_admitted", join_sep(&dec_list(&p.jobs_admitted), ", ")));
    rows.push(pair("jobs_rejected", join_sep(&rejected_list(&p.jobs_rejected), ", ")));
    rows.push(pair("new_hotspots", join_sep(&dec_list(&p.new_hotspots), ", ")));
    let extra = match p.restore.extra_spines {
        Some(n) => dec(n as u64),
        None => String::from_str("null"),
    };
    assert(extra@ == match p.restore.extra_spines {
        Some(n) => spec_decimal(n as nat),
        None => "null"@,
    });
    rows.push(pair("restore.extra_spines", extra));
    rows.push(pair("restore.rows_needed", join_sep(&p.restore.rows_needed, ", ")));
    rows.push(pair("vs_baseline.admits", dec(p.vs_baseline.admits)));
    rows.push(pair("vs_baseline.rejects", dec(p.vs_baseline.rejects)));
    proof {
        assert(rows_view(rows@) =~= spec_plan_rows(*p)) by {
            assert forall|k: int| 0 <= k < 12 implies rows_view(rows@)[k] == spec_plan_rows(*p)[k] by {
                assert(rows_view(rows@)[k] == strs(rows@[k]@));
            }
        }
    }
    rows
}

/// The planner section: its table, or a note that the run had no delta.
pub open spec fn spec_plan_section(p: Option<PlanReport>) -> Seq<char> {
    match p {
        Some(pr) => spec_table("Planner"@, seq!["key"@, "value"@], spec_plan_rows(pr)),
        None => spec_table("Planner"@, seq!["note"@], seq![seq!["No planner delta in this run."@]]),
    }
}

/// The whole page.
pub open spec fn spec_page(r: &Report) -> Seq<char> {
    page_head() + "<h1>Summary</h1>\n"@ + spec_table("Run summary"@, seq!["key"@, "value"@], spec_summary_rows(r))
        + "<h1>Jobs</h1>\n"@ + spec_table(
        "Jobs"@,
        seq!["job_id"@, "decision"@, "steps_done"@, "t_pred_ps"@, "reject"@],
        spec_job_rows(r.jobs@),
    ) + "<h1>Rejects</h1>\n"@ + spec_table(
        "Rejects by code"@,
        seq!["code"@, "count"@],
        spec_reject_rows(r.rejects_by_code@),
    ) + "<h1>Hot links</h1>\n"@ + spec_table(
        "Hot links"@,
        seq!["note"@],
        seq![seq!["See links.parquet for per-link snapshots."@]],
    ) + "<h1>Failures</h1>\n"@ + spec_table("Failures"@, seq!["fail"@], spec_fail_rows(r.fails@))
        + "<h1>Planner</h1>\n"@ + spec_plan_section(r.plan) + "</body></html>\n"@
}

/// The jobs table's column names.
fn job_heads() -> (r: Vec<String>)
    ensures
        strs(r@) == seq!["job_id"@, "decision"@, "steps_done"@, "t_pred_ps"@, "reject"@],
{
    let mut r: Vec<String> = Vec::new();
    r.push(String::from_str("job_id"));
    r.push(String::from_str("decision"));
    r.push(String::from_str("steps_done"));
    r.push(String::from_str("t_pred_ps"));
    r.push(String::from_str("reject"));
    assert(strs(r@) =~= seq!["job_id"@, "decision"@, "steps_done"@, "t_pred_ps"@, "reject"@]);
    r
}

/// Append a heading and a table.
fn push_section(s: &mut String, heading: &str, caption: &str, heads: &Vec<String>, rows: &Vec<Vec<String>>)
    ensures
        final(s)@ == old(s)@ + heading@ + spec_table(caption@, strs(heads@), rows_view(rows@)),
{
    let ghost o = s@;
    s.append(heading);
    push_table(s, caption, heads, rows);
    assert(s@ =~= o + heading@ + spec_table(caption@, strs(heads@), rows_view(rows@)));
}

/// The report as a static page.
#[verifier::rlimit(50)]
pub fn render_html(r: &Report) -> (s: String)
    ensures
        s@ == spec_page(r),
{
    let mut s = String::from_str(
        "<!DOCTYPE html>\n<html lang=\"en\"><head><meta charset=\"utf-8\"><title>fabric-te report</title><style>body{background:#fff;color:#000;font-family:sans-serif}table{border-collapse:collapse;margin:1em 0}th,td{border:1px solid #000;padding:4px;text-align:left}caption{caption-side:top;font-weight:bold;text-align:left}</style></head><body>\n",
    );
    let ghost p0 = s@;
    push_section(&mut s, "<h1>Summary</h1>\n", "Run summary", &two("key", "value"), &summary_rows(r));
    let ghost p1 = s@;
    push_section(
        &mut s,
        "<h1>Jobs</h1>\n",
        "Jobs",
        &job_heads(),
        &job_rows(&r.jobs),
    );
    let ghost p2 = s@;
    push_section(&mut s, "<h1>Rejects</h1>\n", "Rejects by code", &two("code", "count"), &reject_rows(&r.rejects_by_code));
    let ghost p3 = s@;
    let mut note: Vec<Vec<String>> = Vec::new();
    note.push(one("See links.parquet for per-link snapshots."));
    assert(rows_view(note@) =~= seq![seq!["See links.parquet for per-link snapshots."@]]);
    push_section(&mut s, "<h1>Hot links</h1>\n", "Hot links", &one("note"), &note);
    let ghost p4 = s@;
    push_section(&mut s, "<h1>Failures</h1>\n", "Failures", &one("fail"), &fail_rows(&r.fails));
    let ghost p5 = s@;
    match &r.plan {
        Some(p) => push_section(&mut s, "<h1>Planner</h1>\n", "Planner", &two("key", "value"), &plan_rows(p)),
        None => {
            let mut n: Vec<Vec<String>> = Vec::new();
            n.push(one("No planner delta in this run."));
            assert(rows_view(n@) =~= seq![seq!["No planner delta in this run."@]]);
            push_section(&mut s, "<h1>Planner</h1>\n", "Planner", &one("note"), &n);
        },
    }
    let ghost p6 = s@;
    s.append("</body></html>\n");
    proof {
        assert(p6 == p5 + "<h1>Planner</h1>\n"@ + spec_plan_section(r.plan));
        assert(s@ =~= spec_page(r));
    }
    s
}

} // verus!
