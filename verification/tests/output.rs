use fabric_te::cli_text::path_under;
use fabric_te::engine::{count_free, event_ids, find_flight, refill, Flight};
use fabric_te::fingerprint::{builtin_gpus, sha256_hex};
use fabric_te::html::{escape, fail_json, render_html};
use fabric_te::kernel::{path_load, scale_live};
use fabric_te::paths::Path;
use fabric_te::report::{FailRecord, Report, TopoSummary};
use fabric_te::schedule::LiveFlow;
use fabric_te::table::{Flow, JobTable};
use fabric_te::topo::Graph;
use fabric_te::types::{EventPayload, FlowId, GpuId, JobId, LeafId, LinkId, Policy, RecomputeReason};

fn topo0() -> TopoSummary {
    TopoSummary { gpus: 256, N: 32, L: 8, S: 32, E_host: 256, E_ls: 256, B_bisect_gbps: 51200 }
}

#[test]
fn sha256_hex_known_digest() {
    assert_eq!(sha256_hex(b"abc"), "sha256:ba7816bf8f01cfea414140de5dae2223b00361a396177a9cb410ff61f20015ad");
    assert_eq!(sha256_hex(b""), "sha256:e3b0c44298fc1c149afbf4c8996fb92427ae41e4649b934ca495991b7852b855");
}

#[test]
fn builtin_topology_names() {
    assert_eq!(builtin_gpus("n32"), Some(256));
    assert_eq!(builtin_gpus("n64"), Some(512));
    assert_eq!(builtin_gpus("n256"), Some(2048));
    assert_eq!(builtin_gpus("n1024"), Some(8192));
    assert_eq!(builtin_gpus("n128"), None);
}

#[test]
fn escape_html_specials() {
    assert_eq!(escape("a<b>&c"), "a&lt;b&gt;&amp;c");
    assert_eq!(escape("plain"), "plain");
}

#[test]
fn fail_json_sorted_keys() {
    let f = FailRecord { t_ps: 15, kills: vec![1, 2], reroutes: vec![], epoch_from: 0, epoch_to: 1, dead_link_bytes: 0 };
    assert_eq!(
        fail_json(&f),
        "{\"dead_link_bytes\":0,\"epoch_from\":0,\"epoch_to\":1,\"kills\":[1,2],\"reroutes\":[],\"t_ps\":15}"
    );
}

#[test]
fn html_page_has_summary() {
    let r = Report::new(7, Policy::Naive, topo0());
    let page = render_html(&r);
    assert!(page.starts_with("<!DOCTYPE html>"));
    assert!(page.contains("<h1>Summary</h1>"));
    assert!(page.contains("<td>seed</td><td>7</td>") || page.contains("seed"));
    assert!(page.ends_with("</html>\n") || page.ends_with("</html>"));
}

#[test]
fn path_under_root_and_below() {
    assert!(path_under("/work/out", "/work"));
    assert!(path_under("/work", "/work"));
    assert!(!path_under("/workshop", "/work"));
    assert!(!path_under("/tmp", "/work"));
    assert!(path_under("\\\\?\\C:\\work\\out", "C:\\work"));
}

#[test]
fn event_ids_by_payload() {
    assert_eq!(event_ids(&EventPayload::JobArrive { job: JobId(3) }, None), (Some(3), None, None, None, None, None));
    assert_eq!(event_ids(&EventPayload::FlowDepart { flow: FlowId(9) }, Some(4)), (Some(4), Some(9), None, None, None, None));
    assert_eq!(event_ids(&EventPayload::LeafFail { leaf: LeafId(5) }, None), (None, None, None, None, Some(5), None));
    assert_eq!(
        event_ids(&EventPayload::RateRecompute { reason: RecomputeReason::EpochCommit }, Some(1)),
        (None, None, None, None, None, None)
    );
}

fn path(ids: &[u32]) -> Path {
    Path { links: ids.iter().map(|&i| LinkId(i)).collect() }
}

#[test]
fn path_load_sums_rates() {
    let paths = vec![path(&[0, 1]), path(&[1, 2])];
    assert_eq!(path_load(3, &paths, &vec![5, 7]), vec![5, 12, 7]);
}

#[test]
fn scale_live_keeps_capacity() {
    let g = Graph::generate(256, 8, 1).expect("n32");
    let cap = g.links[0].capacity_Bps;
    let paths = vec![path(&[0]), path(&[0])];
    let mut rates = vec![cap, cap];
    scale_live(&g, &paths, &mut rates);
    assert_eq!(rates, vec![cap / 2, cap / 2]);
}

fn flow(id: u64, comm: u32, phase: u32, links: &[u32]) -> Flow {
    Flow {
        id: FlowId(id),
        job: JobId(1),
        comm,
        phase,
        src: GpuId(0),
        dst: GpuId(8),
        path: path(links),
        rate_Bps: 1,
        bytes: 100,
    }
}

#[test]
fn refill_shares_leftover() {
    // Two flows of one phase over link 0 with 10 left: 5 each, and the link
    // commits their sum.
    let planned = vec![flow(0, 0, 0, &[0]), flow(1, 0, 0, &[0])];
    let (out, cir) = refill(&planned, &vec![10, 10]);
    assert_eq!(out.len(), 2);
    assert_eq!(out[0].rate_Bps, 5);
    assert_eq!(out[1].rate_Bps, 5);
    assert_eq!(cir.get(&0), Some(&10));
    // Nothing left: the fill fails and the rates drop to zero.
    let (out, cir) = refill(&planned, &vec![0, 0]);
    assert_eq!(out[0].rate_Bps, 0);
    assert!(cir.is_empty());
}

#[test]
fn free_gpus_of_fresh_table() {
    let g = Graph::generate(256, 8, 1).expect("n32");
    assert_eq!(count_free(&JobTable::new(), &g), 256);
}

#[test]
fn find_flight_by_id() {
    let lf = LiveFlow {
        job: JobId(1),
        phase: 0,
        src: GpuId(0),
        dst: GpuId(1),
        path: path(&[]),
        rate_Bps: 0,
        bytes: 0,
        t_arrive_ps: 0,
        t_depart_ps: 0,
    };
    let v = vec![Flight { id: 4, flow: lf.clone(), inflight: false }, Flight { id: 9, flow: lf, inflight: true }];
    assert_eq!(find_flight(&v, 9), Some(1));
    assert_eq!(find_flight(&v, 5), None);
}
