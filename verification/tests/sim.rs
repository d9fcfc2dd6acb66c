use fabric_te::fel::Fel;
use fabric_te::paths::{first_spine, hops, k_shortest, Path, PathMode};
use fabric_te::residual::Residual;
use fabric_te::topo::Graph;
use fabric_te::types::{EventKind, EventPayload, GpuId, JobId, LeafId, LinkId, RejectCode};
use fabric_te::waterfill::water_fill;

fn n32() -> Graph {
    Graph::generate(256, 8, 1).expect("n32")
}

#[test]
fn clock_ps_total_order() {
    let mut fel = Fel::new();
    fel.push(100, EventKind::JobArrive, EventPayload::JobArrive { job: JobId(1) });
    fel.push(50, EventKind::JobArrive, EventPayload::JobArrive { job: JobId(2) });
    fel.push(100, EventKind::HorizonCut, EventPayload::HorizonCut);

    let first = fel.pop().expect("50ps");
    assert_eq!(first.t.ps, 50);
    assert_eq!(first.t.seq, 1);

    let second = fel.pop().expect("100ps seq0");
    assert_eq!(second.t.ps, 100);
    assert_eq!(second.t.seq, 0);
    assert_eq!(second.payload, EventPayload::JobArrive { job: JobId(1) });

    let third = fel.pop().expect("100ps seq2");
    assert_eq!(third.t.ps, 100);
    assert_eq!(third.t.seq, 2);
    assert_eq!(third.kind, EventKind::HorizonCut);

    assert!(fel.pop().is_none());
}

#[test]
fn fel_fires_one_event() {
    let mut fel = Fel::new();
    fel.push(0, EventKind::JobArrive, EventPayload::JobArrive { job: JobId(7) });
    let e = fel.pop().expect("one event");
    assert_eq!(e.t.ps, 0);
    assert_eq!(e.t.seq, 0);
    assert_eq!(e.kind, EventKind::JobArrive);
    assert_eq!(e.payload, EventPayload::JobArrive { job: JobId(7) });
    assert!(fel.pop().is_none());
    assert!(fel.peek_ps().is_none());
}

#[test]
fn drain_fails_at_keeps_non_fails_and_seq() {
    let mut fel = Fel::new();
    fel.push(10, EventKind::JobArrive, EventPayload::JobArrive { job: JobId(1) });
    fel.push(10, EventKind::LinkFail, EventPayload::LinkFail { link: LinkId(0) });
    fel.push(10, EventKind::LeafFail, EventPayload::LeafFail { leaf: LeafId(0) });
    fel.push(20, EventKind::HorizonCut, EventPayload::HorizonCut);

    let fails = fel.drain_fails_at(10);
    assert_eq!(fails.len(), 2);
    assert!(fails.iter().all(|e| e.kind.is_fail()));
    assert_eq!(fails[0].t.seq, 1);
    assert_eq!(fails[1].t.seq, 2);

    let kept = fel.pop().expect("non-fail at 10");
    assert_eq!(kept.kind, EventKind::JobArrive);
    assert_eq!(kept.t.ps, 10);
    assert_eq!(kept.t.seq, 0);

    let later = fel.pop().expect("20ps");
    assert_eq!(later.t.ps, 20);
    assert!(fel.pop().is_none());
}

#[test]
fn naive_ecmp_tiebreak_lowest_linkid() {
    let g = n32();
    let res = Residual::new(&g);
    let paths = k_shortest(GpuId(0), GpuId(9), &g, &res, 8, PathMode::Ecmp);
    assert_eq!(paths.len(), 8);
    let first = &paths[0];
    let spine = first_spine(&g, first).expect("spine");
    assert_eq!(spine.0, 0);
    let sl = g.leaf_of(GpuId(0)).unwrap();
    let dl = g.leaf_of(GpuId(9)).unwrap();
    let ups = g.ups_to_spine(sl, spine);
    let downs = g.downs_from_spine(spine, dl);
    assert_eq!(first.links[1], ups[0]);
    assert_eq!(first.links[2], downs[0]);
    let hops0 = hops(first);
    assert!(paths.iter().all(|p| hops(p) == hops0));
}

#[test]
fn same_node_is_empty_path() {
    let g = n32();
    let res = Residual::new(&g);
    let paths = k_shortest(GpuId(0), GpuId(1), &g, &res, 8, PathMode::Joint);
    assert_eq!(paths.len(), 1);
    assert_eq!(paths[0].links, Path::empty().links);
}

#[test]
fn same_leaf_is_two_hops() {
    let g = n32();
    let res = Residual::new(&g);
    let paths = k_shortest(GpuId(0), GpuId(8), &g, &res, 8, PathMode::Joint);
    assert_eq!(paths.len(), 1);
    assert_eq!(paths[0].links.len(), 2);
    assert_eq!(paths[0].links[0], g.host_up(GpuId(0)).unwrap());
    assert_eq!(paths[0].links[1], g.host_down(GpuId(8)).unwrap());
}

#[test]
fn joint_skips_zero_leftover() {
    let g = n32();
    let mut res = Residual::new(&g);
    let hs = g.host_up(GpuId(0)).expect("hs");
    res.inject_cir(&g, hs, Residual::admissible(&g, hs));
    assert_eq!(res.r_avail(hs), 0);
    let joint = k_shortest(GpuId(0), GpuId(9), &g, &res, 8, PathMode::Joint);
    assert!(joint.is_empty());
    let same_leaf = k_shortest(GpuId(0), GpuId(8), &g, &res, 8, PathMode::Joint);
    assert!(same_leaf.is_empty());
}

#[test]
fn naive_ecmp_still_routes_zero_leftover() {
    let g = n32();
    let mut res = Residual::new(&g);
    let hs = g.host_up(GpuId(0)).expect("hs");
    res.inject_cir(&g, hs, Residual::admissible(&g, hs));
    let paths = k_shortest(GpuId(0), GpuId(9), &g, &res, 8, PathMode::Ecmp);
    assert_eq!(paths.len(), 8);
    assert!(paths.iter().all(|p| p.links[0] == hs));
}

#[test]
fn residual_admissible_integer() {
    let g = n32();
    let e = g.host_up(GpuId(0)).expect("hs");
    let c = g.link(e).expect("link").capacity_Bps;
    assert_eq!(c, 50_000_000_000);
    assert_eq!(c * 95 / 100, 47_500_000_000);
    assert_eq!(c - c * 95 / 100, 2_500_000_000);
    assert_eq!(Residual::admissible(&g, e), 47_500_000_000);
    let res = Residual::new(&g);
    assert_eq!(res.r_avail(e), 47_500_000_000);
}

#[test]
fn joint_waterfill_maxmin() {
    let leftover = vec![100u64];
    let p = Path { links: vec![LinkId(0)] };
    let rates = water_fill(&[p.clone(), p], &leftover).expect("fill");
    assert_eq!(rates.len(), 2);
    let d = (rates[0] as i128 - rates[1] as i128).abs();
    assert!(d <= 1, "rates {rates:?} differ by {d}");
    assert_eq!(rates[0] + rates[1], 100);
}

#[test]
fn water_fill_caps_a_flow_at_its_tight_link() {
    let a = Path { links: vec![LinkId(0)] };
    let b = Path { links: vec![LinkId(0), LinkId(1)] };
    let rates = water_fill(&[a, b], &[100, 30]).expect("fill");
    assert_eq!(rates, vec![70, 30]);
}

#[test]
fn water_fill_refuses_an_empty_route() {
    let a = Path { links: vec![LinkId(0)] };
    assert_eq!(water_fill(&[a, Path::empty()], &[100]), Err(RejectCode::ResidualExhausted));
    let b = Path { links: vec![LinkId(0)] };
    assert_eq!(water_fill(&[b], &[0]), Err(RejectCode::ZeroLeftover));
    let c = Path { links: vec![LinkId(5)] };
    assert_eq!(water_fill(&[c], &[]), Err(RejectCode::ZeroLeftover));
}

#[test]
fn joint_kshortest_k8() {
    let g = n32();
    let res = Residual::new(&g);
    let paths = k_shortest(GpuId(0), GpuId(9), &g, &res, 8, PathMode::Joint);
    assert!(!paths.is_empty());
    assert!(paths.len() <= 8);
    assert_eq!(paths.len(), 8);
    assert!(paths.iter().all(|p| p.links.len() == 4));
}

#[test]
fn k_shortest_zero_is_empty() {
    let g = n32();
    let res = Residual::new(&g);
    assert!(k_shortest(GpuId(0), GpuId(9), &g, &res, 0, PathMode::Ecmp).is_empty());
    assert_eq!(k_shortest(GpuId(0), GpuId(9), &g, &res, 3, PathMode::Ecmp).len(), 3);
}
