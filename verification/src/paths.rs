//! Candidate routes through the Clos: intra-node, via the shared leaf, or up to
//! a spine and down.
use vstd::prelude::*;

use crate::residual::{cir_at, Residual};
use crate::topo::{
    first_link_where, graph_wf, host_down_pred, host_up_pred, ids_where, is_down_from, is_up_to,
    spec_gpu, spec_has_path_via, spec_leaf_of, spec_link, Graph, Link, Spine,
};
use crate::types::{Endpoint, GpuId, LeafId, LinkId, NicId, SpineId};

verus! {

/// A route as its links in order; empty inside a node.
#[derive(Clone, Debug, PartialEq, Eq)]
pub struct Path {
    pub links: Vec<LinkId>,
}

/// How candidates are filtered: `Joint` drops routes over a link with nothing
/// left; `Ecmp` keeps every live route. Both list routes in spine and link
/// order (a ranking by residual cost is a floating-point sum and is left to
/// the caller).
#[derive(Copy, Clone, Debug, PartialEq, Eq, Structural)]
pub enum PathMode {
    Joint,
    Ecmp,
}

impl Path {
    pub fn empty() -> (p: Path)
        ensures
            p.links@ == Seq::<LinkId>::empty(),
    {
        Path { links: Vec::new() }
    }
}

/// A copy of a path.
pub fn copy_path(p: &Path) -> (r: Path)
    ensures
        r.links@ == p.links@,
{
    let links = p.links.clone();
    assert(links@ =~= p.links@);
    Path { links }
}

/// The links of each path.
pub open spec fn paths_view(v: Seq<Path>) -> Seq<Seq<LinkId>> {
    v.map_values(|p: Path| p.links@)
}

/// The GPU's NIC-to-leaf uplink, as `host_up` finds it.
pub open spec fn spec_host_up(g: &Graph, gpu: GpuId) -> Option<LinkId> {
    match first_link_where(g.links@, host_up_pred(NicId(gpu.0))) {
        Some(i) => Some(g.links@[i].id),
        None => None,
    }
}

/// The GPU's leaf-to-NIC downlink, as `host_down` finds it.
pub open spec fn spec_host_down(g: &Graph, gpu: GpuId) -> Option<LinkId> {
    match first_link_where(g.links@, host_down_pred(NicId(gpu.0))) {
        Some(i) => Some(g.links@[i].id),
        None => None,
    }
}

/// The link exists and has failed.
pub open spec fn link_failed(g: &Graph, e: LinkId) -> bool {
    match spec_link(g, e) {
        Some(l) => l.failed,
        None => false,
    }
}

/// No link of the route has failed; under `Joint`, every link has some rate left.
pub open spec fn path_usable(g: &Graph, res: &Residual, mode: PathMode, p: Seq<LinkId>) -> bool {
    &&& forall|i: int| 0 <= i < p.len() ==> !link_failed(g, #[trigger] p[i])
    &&& mode == PathMode::Joint ==> forall|i: int|
        0 <= i < p.len() ==> cir_at(res.r_avail@, (#[trigger] p[i]).0 as int) > 0
}

/// Cables from `leaf` up to `spine`, ascending.
pub open spec fn spec_ups(g: &Graph, leaf: LeafId, spine: SpineId) -> Seq<LinkId> {
    ids_where(g.links@, |l: Link| is_up_to(l, leaf, spine))
}

/// Cables from `spine` down to `leaf`, ascending.
pub open spec fn spec_downs(g: &Graph, spine: SpineId, leaf: LeafId) -> Seq<LinkId> {
    ids_where(g.links@, |l: Link| is_down_from(l, spine, leaf))
}

/// Spines reachable up from `sl` and down to `dl`, ascending.
pub open spec fn spec_common_spines(g: &Graph, sl: LeafId, dl: LeafId) -> Seq<SpineId> {
    g.spines@.map_values(|s: Spine| s.id).filter(|sid: SpineId| spec_has_path_via(g, sl, dl, sid))
}

/// The four-hop routes that pair the `i`-th up cable with the `i`-th down cable,
/// for `i < n`, keeping the usable ones.
pub open spec fn zip_cands(
    g: &Graph,
    res: &Residual,
    mode: PathMode,
    hs: LinkId,
    hd: LinkId,
    ups: Seq<LinkId>,
    downs: Seq<LinkId>,
    n: nat,
) -> Seq<Seq<LinkId>>
    decreases n,
{
    if n == 0 {
        Seq::empty()
    } else {
        let prev = zip_cands(g, res, mode, hs, hd, ups, downs, (n - 1) as nat);
        let p = seq![hs, ups[n - 1], downs[n - 1], hd];
        if path_usable(g, res, mode, p) {
            prev.push(p)
        } else {
            prev
        }
    }
}

/// Routes via each of `spines` in turn.
pub open spec fn spine_cands(
    g: &Graph,
    res: &Residual,
    mode: PathMode,
    hs: LinkId,
    hd: LinkId,
    sl: LeafId,
    dl: LeafId,
    spines: Seq<SpineId>,
) -> Seq<Seq<LinkId>>
    decreases spines.len(),
{
    if spines.len() == 0 {
        Seq::empty()
    } else {
        let sp = spines.last();
        let ups = spec_ups(g, sl, sp);
        let downs = spec_downs(g, sp, dl);
        let n = if ups.len() <= downs.len() {
            ups.len()
        } else {
            downs.len()
        };
        spine_cands(g, res, mode, hs, hd, sl, dl, spines.drop_last()) + zip_cands(
            g,
            res,
            mode,
            hs,
            hd,
            ups,
            downs,
            n,
        )
    }
}

/// Every route from `src` to `dst`, in order: the empty route inside a node;
/// none when a GPU, its host link or a live host link is missing; the two-hop
/// route under a shared leaf; else the four-hop routes by spine, then cable.
pub open spec fn spec_candidates(
    g: &Graph,
    res: &Residual,
    src: GpuId,
    dst: GpuId,
    mode: PathMode,
) -> Seq<Seq<LinkId>> {
    match (spec_gpu(g, src), spec_gpu(g, dst)) {
        (Some(sn), Some(dn)) => if sn.node == dn.node {
            seq![Seq::empty()]
        } else {
            match (spec_host_up(g, src), spec_host_down(g, dst)) {
                (Some(hs), Some(hd)) => {
                    let sl = spec_leaf_of(g, src)->0;
                    let dl = spec_leaf_of(g, dst)->0;
                    if link_failed(g, hs) || link_failed(g, hd) {
                        Seq::empty()
                    } else if sl == dl {
                        if path_usable(g, res, mode, seq![hs, hd]) {
                            seq![seq![hs, hd]]
                        } else {
                            Seq::empty()
                        }
                    } else {
                        spine_cands(g, res, mode, hs, hd, sl, dl, spec_common_spines(g, sl, dl))
                    }
                },
                _ => Seq::empty(),
            }
        },
        _ => Seq::empty(),
    }
}

fn is_failed(g: &Graph, e: LinkId) -> (r: bool)
    ensures
        r == link_failed(g, e),
{
    match g.link(e) {
        Some(l) => l.failed,
        None => false,
    }
}

fn usable(g: &Graph, res: &Residual, mode: PathMode, p: &Vec<LinkId>) -> (r: bool)
    ensures
        r == path_usable(g, res, mode, p@),
{
    let mut i: usize = 0;
    while i < p.len()
        invariant
            i <= p@.len(),
            forall|k: int| 0 <= k < i ==> !link_failed(g, #[trigger] p@[k]),
            mode == PathMode::Joint ==> forall|k: int|
                0 <= k < i ==> cir_at(res.r_avail@, (#[trigger] p@[k]).0 as int) > 0,
        decreases p@.len() - i,
    {
        if is_failed(g, p[i]) {
            return false;
        }
        if mode == PathMode::Joint && res.r_avail(p[i]) == 0 {
            return false;
        }
        i = i + 1;
    }
    true
}

/// At most `k` candidate routes from `src` to `dst`: the first `k` of
/// `path_candidates`, none when `k` is zero.
pub fn k_shortest(src: GpuId, dst: GpuId, g: &Graph, res: &Residual, k: usize, mode: PathMode) -> (r: Vec<Path>)
    requires
        graph_wf(g),
    ensures
        r@.len() <= k,
        forall|i: int, j: int|
            0 <= i < r@.len() && 0 <= j < r@[i].links@.len() ==> !link_failed(g, #[trigger] r@[i].links@[j]) && (mode
                == PathMode::Joint ==> cir_at(res.r_avail@, r@[i].links@[j].0 as int) > 0),
        paths_view(r@) == spec_candidates(g, res, src, dst, mode).take(
            if k <= spec_candidates(g, res, src, dst, mode).len() {
                k as int
            } else {
                spec_candidates(g, res, src, dst, mode).len() as int
            },
        ),
{
    let all = path_candidates(src, dst, g, res, mode);
    let ghost c = spec_candidates(g, res, src, dst, mode);
    let n = if k <= all.len() {
        k
    } else {
        all.len()
    };
    let mut out: Vec<Path> = Vec::new();
    let mut i: usize = 0;
    while i < n
        invariant
            n <= all@.len(),
            paths_view(all@) == c,
            i <= n,
            paths_view(out@) == c.take(i as int),
        decreases n - i,
    {
        assert(all@[i as int].links@ == paths_view(all@)[i as int]);
        let ghost o0 = out@;
        assert(paths_view(o0).len() == o0.len());
        assert(o0.len() == i);
        let p = copy_path(&all[i]);
        out.push(p);
        assert(out@ == o0.push(p));
        assert forall|q: int| 0 <= q < i + 1 implies #[trigger] paths_view(out@)[q] == c.take(i + 1)[q] by {
            if q < i {
                assert(out@[q] == o0[q]);
                assert(paths_view(o0)[q] == c.take(i as int)[q]);
            }
        }
        assert(paths_view(out@) =~= c.take(i + 1));
        i = i + 1;
    }
    proof {
        assert forall|q: int| 0 <= q < out@.len() implies (#[trigger] out@[q]).links@ == all@[q].links@ by {
            assert(paths_view(out@)[q] == c.take(n as int)[q]);
            assert(paths_view(all@)[q] == c[q]);
        }
    }
    out
}

/// Every candidate route from `src` to `dst`, in the order of `spec_candidates`.
pub fn path_candidates(src: GpuId, dst: GpuId, g: &Graph, res: &Residual, mode: PathMode) -> (r: Vec<Path>)
    requires
        graph_wf(g),
    ensures
        paths_view(r@) == spec_candidates(g, res, src, dst, mode),
        forall|i: int, j: int|
            0 <= i < r@.len() && 0 <= j < r@[i].links@.len() ==> !link_failed(g, #[trigger] r@[i].links@[j]) && (mode
                == PathMode::Joint ==> cir_at(res.r_avail@, r@[i].links@[j].0 as int) > 0),
{
    let mut out: Vec<Path> = Vec::new();
    let sn = match g.gpu(src) {
        Some(x) => x,
        None => {
            assert(paths_view(out@) =~= Seq::<Seq<LinkId>>::empty());
            proof {
                lemma_routes_have_room(g, res, src, dst, mode, out@);
            }
            return out;
        },
    };
    let dn = match g.gpu(dst) {
        Some(x) => x,
        None => {
            assert(paths_view(out@) =~= Seq::<Seq<LinkId>>::empty());
            proof {
                lemma_routes_have_room(g, res, src, dst, mode, out@);
            }
            return out;
        },
    };
    if sn.node.0 == dn.node.0 {
        out.push(Path::empty());
        assert(paths_view(out@) =~= seq![Seq::<LinkId>::empty()]);
        proof {
                lemma_routes_have_room(g, res, src, dst, mode, out@);
            }
            return out;
    }
    let hs = match g.host_up(src) {
        Some(x) => x,
        None => {
            assert(paths_view(out@) =~= Seq::<Seq<LinkId>>::empty());
            proof {
                lemma_routes_have_room(g, res, src, dst, mode, out@);
            }
            return out;
        },
    };
    let hd = match g.host_down(dst) {
        Some(x) => x,
        None => {
            assert(paths_view(out@) =~= Seq::<Seq<LinkId>>::empty());
            proof {
                lemma_routes_have_room(g, res, src, dst, mode, out@);
            }
            return out;
        },
    };
    let sl = g.leaf_of(src).unwrap();
    let dl = g.leaf_of(dst).unwrap();
    if is_failed(g, hs) || is_failed(g, hd) {
        assert(paths_view(out@) =~= Seq::<Seq<LinkId>>::empty());
        proof {
                lemma_routes_have_room(g, res, src, dst, mode, out@);
            }
            return out;
    }
    if sl.0 == dl.0 {
        let mut links: Vec<LinkId> = Vec::new();
        links.push(hs);
        links.push(hd);
        assert(links@ =~= seq![hs, hd]);
        if usable(g, res, mode, &links) {
            out.push(Path { links });
            assert(paths_view(out@) =~= seq![seq![hs, hd]]);
        } else {
            assert(paths_view(out@) =~= Seq::<Seq<LinkId>>::empty());
        }
        proof {
                lemma_routes_have_room(g, res, src, dst, mode, out@);
            }
            return out;
    }
    let spines = g.common_spines(sl, dl);
    let ghost sp = spines@;
    let mut si: usize = 0;
    assert(paths_view(out@) =~= spine_cands(g, res, mode, hs, hd, sl, dl, sp.take(0)));
    while si < spines.len()
        invariant
            graph_wf(g),
            sp == spines@,
            si <= sp.len(),
            paths_view(out@) == spine_cands(g, res, mode, hs, hd, sl, dl, sp.take(si as int)),
        decreases sp.len() - si,
    {
        let spine = spines[si];
        let ups = g.ups_to_spine(sl, spine);
        let downs = g.downs_from_spine(spine, dl);
        let n = if ups.len() <= downs.len() {
            ups.len()
        } else {
            downs.len()
        };
        let ghost base = paths_view(out@);
        let mut i: usize = 0;
        while i < n
            invariant
                n <= ups@.len(),
                n <= downs@.len(),
                i <= n,
                paths_view(out@) == base + zip_cands(g, res, mode, hs, hd, ups@, downs@, i as nat),
            decreases n - i,
        {
            let mut links: Vec<LinkId> = Vec::new();
            links.push(hs);
            links.push(ups[i]);
            links.push(downs[i]);
            links.push(hd);
            assert(links@ =~= seq![hs, ups@[i as int], downs@[i as int], hd]);
            if usable(g, res, mode, &links) {
                let ghost before = out@;
                out.push(Path { links });
                assert(paths_view(out@) =~= paths_view(before).push(
                    seq![hs, ups@[i as int], downs@[i as int], hd],
                ));
            }
            i = i + 1;
        }
        proof {
            assert(sp.take(si + 1).drop_last() =~= sp.take(si as int));
            assert(sp.take(si + 1).last() == spine);
        }
        si = si + 1;
    }
    assert(sp.take(sp.len() as int) =~= sp);
    proof {
        lemma_routes_have_room(g, res, src, dst, mode, out@);
    }
    out
}

/// Each link of each listed route is live and, under `Joint`, has rate left,
/// when the routes are the candidates.
proof fn lemma_routes_have_room(g: &Graph, res: &Residual, src: GpuId, dst: GpuId, mode: PathMode, r: Seq<Path>)
    requires
        paths_view(r) == spec_candidates(g, res, src, dst, mode),
    ensures
        forall|i: int, j: int|
            0 <= i < r.len() && 0 <= j < r[i].links@.len() ==> !link_failed(g, #[trigger] r[i].links@[j]) && (mode
                == PathMode::Joint ==> cir_at(res.r_avail@, r[i].links@[j].0 as int) > 0),
{
    assert forall|i: int, j: int| 0 <= i < r.len() && 0 <= j < r[i].links@.len() implies !link_failed(
        g,
        #[trigger] r[i].links@[j],
    ) && (mode == PathMode::Joint ==> cir_at(res.r_avail@, r[i].links@[j].0 as int) > 0) by {
        assert(paths_view(r)[i] == r[i].links@);
        law_joint_routes_have_room(g, res, src, dst, mode, i, j);
    }
}

/// No candidate route crosses a failed link, and under `Joint` none crosses a
/// link with nothing left: every link of the route, the leaf-to-spine and
/// spine-to-leaf cables as much as the host links.
pub proof fn law_joint_routes_have_room(g: &Graph, res: &Residual, src: GpuId, dst: GpuId, mode: PathMode, i: int, j: int)
    requires
        0 <= i < spec_candidates(g, res, src, dst, mode).len(),
        0 <= j < spec_candidates(g, res, src, dst, mode)[i].len(),
    ensures
        !link_failed(g, spec_candidates(g, res, src, dst, mode)[i][j]),
        mode == PathMode::Joint ==> cir_at(res.r_avail@, spec_candidates(g, res, src, dst, mode)[i][j].0 as int) > 0,
{
    law_candidates_usable(g, res, src, dst, mode, i);
}

/// A four-hop route from `hs` to `hd`.
pub open spec fn spine_route(p: Seq<LinkId>, hs: LinkId, hd: LinkId) -> bool {
    p.len() == 4 && p[0] == hs && p[3] == hd
}

proof fn lemma_zip_cands_routes(
    g: &Graph,
    res: &Residual,
    mode: PathMode,
    hs: LinkId,
    hd: LinkId,
    ups: Seq<LinkId>,
    downs: Seq<LinkId>,
    n: nat,
)
    ensures
        forall|i: int|
            0 <= i < zip_cands(g, res, mode, hs, hd, ups, downs, n).len() ==> {
                &&& path_usable(g, res, mode, #[trigger] zip_cands(g, res, mode, hs, hd, ups, downs, n)[i])
                &&& spine_route(zip_cands(g, res, mode, hs, hd, ups, downs, n)[i], hs, hd)
            },
    decreases n,
{
    if n > 0 {
        lemma_zip_cands_routes(g, res, mode, hs, hd, ups, downs, (n - 1) as nat);
        let prev = zip_cands(g, res, mode, hs, hd, ups, downs, (n - 1) as nat);
        let p = seq![hs, ups[n - 1], downs[n - 1], hd];
        let cur = zip_cands(g, res, mode, hs, hd, ups, downs, n);
        if path_usable(g, res, mode, p) {
            assert(cur == prev.push(p));
            assert forall|i: int| 0 <= i < cur.len() implies {
                &&& path_usable(g, res, mode, #[trigger] cur[i])
                &&& spine_route(cur[i], hs, hd)
            } by {
                if i < prev.len() {
                    assert(cur[i] == prev[i]);
                }
            }
        } else {
            assert(cur == prev);
        }
    }
}

proof fn lemma_spine_cands_routes(
    g: &Graph,
    res: &Residual,
    mode: PathMode,
    hs: LinkId,
    hd: LinkId,
    sl: LeafId,
    dl: LeafId,
    spines: Seq<SpineId>,
)
    ensures
        forall|i: int|
            0 <= i < spine_cands(g, res, mode, hs, hd, sl, dl, spines).len() ==> {
                &&& path_usable(g, res, mode, #[trigger] spine_cands(g, res, mode, hs, hd, sl, dl, spines)[i])
                &&& spine_route(spine_cands(g, res, mode, hs, hd, sl, dl, spines)[i], hs, hd)
            },
    decreases spines.len(),
{
    if spines.len() > 0 {
        let sp = spines.last();
        let ups = spec_ups(g, sl, sp);
        let downs = spec_downs(g, sp, dl);
        let n = if ups.len() <= downs.len() {
            ups.len()
        } else {
            downs.len()
        };
        lemma_spine_cands_routes(g, res, mode, hs, hd, sl, dl, spines.drop_last());
        lemma_zip_cands_routes(g, res, mode, hs, hd, ups, downs, n);
        let a = spine_cands(g, res, mode, hs, hd, sl, dl, spines.drop_last());
        let b = zip_cands(g, res, mode, hs, hd, ups, downs, n);
        assert(spine_cands(g, res, mode, hs, hd, sl, dl, spines) == a + b);
        assert forall|i: int| 0 <= i < (a + b).len() implies {
            &&& path_usable(g, res, mode, #[trigger] (a + b)[i])
            &&& spine_route((a + b)[i], hs, hd)
        } by {
            if i < a.len() {
                assert((a + b)[i] == a[i]);
            } else {
                assert((a + b)[i] == b[i - a.len()]);
            }
        }
    }
}

/// Every candidate route is usable (no failed link; under `Joint`, no link with
/// nothing left), and between GPUs of different nodes it starts on the source's
/// uplink and ends on the destination's downlink, with two or four links.
pub proof fn law_candidates_usable(g: &Graph, res: &Residual, src: GpuId, dst: GpuId, mode: PathMode, i: int)
    requires
        0 <= i < spec_candidates(g, res, src, dst, mode).len(),
    ensures
        path_usable(g, res, mode, spec_candidates(g, res, src, dst, mode)[i]),
        spec_gpu(g, src)->0.node != spec_gpu(g, dst)->0.node ==> {
            let p = spec_candidates(g, res, src, dst, mode)[i];
            &&& p.len() == 2 || p.len() == 4
            &&& p[0] == spec_host_up(g, src)->0
            &&& p[p.len() - 1] == spec_host_down(g, dst)->0
        },
{
    let sn = spec_gpu(g, src);
    let dn = spec_gpu(g, dst);
    if sn.is_some() && dn.is_some() && sn->0.node != dn->0.node {
        let hs = spec_host_up(g, src);
        let hd = spec_host_down(g, dst);
        if hs.is_some() && hd.is_some() {
            let sl = spec_leaf_of(g, src)->0;
            let dl = spec_leaf_of(g, dst)->0;
            lemma_spine_cands_routes(g, res, mode, hs->0, hd->0, sl, dl, spec_common_spines(g, sl, dl));
        }
    }
}

proof fn lemma_zip_cands_modes(
    g: &Graph,
    res1: &Residual,
    res2: &Residual,
    m1: PathMode,
    m2: PathMode,
    hs: LinkId,
    hd: LinkId,
    ups: Seq<LinkId>,
    downs: Seq<LinkId>,
    n: nat,
)
    requires
        forall|p: Seq<LinkId>| path_usable(g, res1, m1, p) == #[trigger] path_usable(g, res2, m2, p),
    ensures
        zip_cands(g, res1, m1, hs, hd, ups, downs, n) == zip_cands(g, res2, m2, hs, hd, ups, downs, n),
    decreases n,
{
    if n > 0 {
        lemma_zip_cands_modes(g, res1, res2, m1, m2, hs, hd, ups, downs, (n - 1) as nat);
        let p = seq![hs, ups[n - 1], downs[n - 1], hd];
        assert(path_usable(g, res1, m1, p) == path_usable(g, res2, m2, p));
    }
}

proof fn lemma_spine_cands_modes(
    g: &Graph,
    res1: &Residual,
    res2: &Residual,
    m1: PathMode,
    m2: PathMode,
    hs: LinkId,
    hd: LinkId,
    sl: LeafId,
    dl: LeafId,
    spines: Seq<SpineId>,
)
    requires
        forall|p: Seq<LinkId>| path_usable(g, res1, m1, p) == #[trigger] path_usable(g, res2, m2, p),
    ensures
        spine_cands(g, res1, m1, hs, hd, sl, dl, spines) == spine_cands(g, res2, m2, hs, hd, sl, dl, spines),
    decreases spines.len(),
{
    if spines.len() > 0 {
        let sp = spines.last();
        let ups = spec_ups(g, sl, sp);
        let downs = spec_downs(g, sp, dl);
        let n = if ups.len() <= downs.len() {
            ups.len()
        } else {
            downs.len()
        };
        lemma_spine_cands_modes(g, res1, res2, m1, m2, hs, hd, sl, dl, spines.drop_last());
        lemma_zip_cands_modes(g, res1, res2, m1, m2, hs, hd, ups, downs, n);
    }
}

proof fn lemma_candidates_modes(g: &Graph, res1: &Residual, res2: &Residual, m1: PathMode, m2: PathMode, src: GpuId, dst: GpuId)
    requires
        forall|p: Seq<LinkId>| path_usable(g, res1, m1, p) == #[trigger] path_usable(g, res2, m2, p),
    ensures
        spec_candidates(g, res1, src, dst, m1) == spec_candidates(g, res2, src, dst, m2),
{
    let hs = spec_host_up(g, src);
    let hd = spec_host_down(g, dst);
    if hs.is_some() && hd.is_some() {
        let sl = spec_leaf_of(g, src)->0;
        let dl = spec_leaf_of(g, dst)->0;
        lemma_spine_cands_modes(g, res1, res2, m1, m2, hs->0, hd->0, sl, dl, spec_common_spines(g, sl, dl));
        assert(path_usable(g, res1, m1, seq![hs->0, hd->0]) == path_usable(g, res2, m2, seq![hs->0, hd->0]));
    }
}

/// Every link of the route has some rate left.
pub open spec fn has_room(res: &Residual, p: Seq<LinkId>) -> bool {
    forall|i: int| 0 <= i < p.len() ==> cir_at(res.r_avail@, (#[trigger] p[i]).0 as int) > 0
}

/// `has_room` as a predicate on routes.
pub open spec fn room_pred(res: &Residual) -> spec_fn(Seq<LinkId>) -> bool {
    |p: Seq<LinkId>| has_room(res, p)
}

proof fn lemma_zip_cands_filter(
    g: &Graph,
    res: &Residual,
    m1: PathMode,
    m2: PathMode,
    hs: LinkId,
    hd: LinkId,
    ups: Seq<LinkId>,
    downs: Seq<LinkId>,
    n: nat,
)
    requires
        forall|p: Seq<LinkId>| #[trigger] path_usable(g, res, m1, p) == (path_usable(g, res, m2, p) && has_room(res, p)),
    ensures
        zip_cands(g, res, m1, hs, hd, ups, downs, n) == zip_cands(g, res, m2, hs, hd, ups, downs, n).filter(room_pred(res)),
    decreases n,
{
    if n == 0 {
        assert(Seq::<Seq<LinkId>>::empty().filter(room_pred(res)) =~= Seq::<Seq<LinkId>>::empty()) by {
            reveal_with_fuel(Seq::filter, 1);
        }
    } else {
        lemma_zip_cands_filter(g, res, m1, m2, hs, hd, ups, downs, (n - 1) as nat);
        let p = seq![hs, ups[n - 1], downs[n - 1], hd];
        let prev2 = zip_cands(g, res, m2, hs, hd, ups, downs, (n - 1) as nat);
        assert(path_usable(g, res, m1, p) == (path_usable(g, res, m2, p) && has_room(res, p)));
        prev2.lemma_filter_push(p, room_pred(res));
    }
}

proof fn lemma_spine_cands_filter(
    g: &Graph,
    res: &Residual,
    m1: PathMode,
    m2: PathMode,
    hs: LinkId,
    hd: LinkId,
    sl: LeafId,
    dl: LeafId,
    spines: Seq<SpineId>,
)
    requires
        forall|p: Seq<LinkId>| #[trigger] path_usable(g, res, m1, p) == (path_usable(g, res, m2, p) && has_room(res, p)),
    ensures
        spine_cands(g, res, m1, hs, hd, sl, dl, spines) == spine_cands(g, res, m2, hs, hd, sl, dl, spines).filter(
            room_pred(res),
        ),
    decreases spines.len(),
{
    if spines.len() == 0 {
        assert(Seq::<Seq<LinkId>>::empty().filter(room_pred(res)) =~= Seq::<Seq<LinkId>>::empty()) by {
            reveal_with_fuel(Seq::filter, 1);
        }
    } else {
        let sp = spines.last();
        let ups = spec_ups(g, sl, sp);
        let downs = spec_downs(g, sp, dl);
        let n = if ups.len() <= downs.len() {
            ups.len()
        } else {
            downs.len()
        };
        lemma_spine_cands_filter(g, res, m1, m2, hs, hd, sl, dl, spines.drop_last());
        lemma_zip_cands_filter(g, res, m1, m2, hs, hd, ups, downs, n);
        Seq::filter_distributes_over_add(
            spine_cands(g, res, m2, hs, hd, sl, dl, spines.drop_last()),
            zip_cands(g, res, m2, hs, hd, ups, downs, n),
            room_pred(res),
        );
    }
}

proof fn lemma_candidates_filter(g: &Graph, res: &Residual, m1: PathMode, m2: PathMode, src: GpuId, dst: GpuId)
    requires
        forall|p: Seq<LinkId>| #[trigger] path_usable(g, res, m1, p) == (path_usable(g, res, m2, p) && has_room(res, p)),
    ensures
        spec_candidates(g, res, src, dst, m1) == spec_candidates(g, res, src, dst, m2).filter(room_pred(res)),
{
    let e = Seq::<Seq<LinkId>>::empty();
    assert(e.filter(room_pred(res)) =~= e) by {
        reveal_with_fuel(Seq::filter, 1);
    }
    let one = seq![Seq::<LinkId>::empty()];
    assert(one =~= e.push(Seq::<LinkId>::empty()));
    e.lemma_filter_push(Seq::<LinkId>::empty(), room_pred(res));
    assert(has_room(res, Seq::<LinkId>::empty()));
    let hs = spec_host_up(g, src);
    let hd = spec_host_down(g, dst);
    if hs.is_some() && hd.is_some() {
        let sl = spec_leaf_of(g, src)->0;
        let dl = spec_leaf_of(g, dst)->0;
        lemma_spine_cands_filter(g, res, m1, m2, hs->0, hd->0, sl, dl, spec_common_spines(g, sl, dl));
        let two = seq![hs->0, hd->0];
        assert(path_usable(g, res, m1, two) == (path_usable(g, res, m2, two) && has_room(res, two)));
        assert(seq![two] =~= e.push(two));
        e.lemma_filter_push(two, room_pred(res));
    }
}

/// `Joint` keeps exactly the `Ecmp` routes on which every link has some rate
/// left, in the same order: it drops a route over an exhausted link, whichever
/// link of the route that is, and nothing else.
pub proof fn law_joint_filters_ecmp(g: &Graph, res: &Residual, src: GpuId, dst: GpuId)
    ensures
        spec_candidates(g, res, src, dst, PathMode::Joint) == spec_candidates(g, res, src, dst, PathMode::Ecmp).filter(
            room_pred(res),
        ),
{
    lemma_candidates_filter(g, res, PathMode::Joint, PathMode::Ecmp, src, dst);
}

/// `Ecmp` does not look at what is left on the links: two residual states give
/// the same equal-cost routes.
pub proof fn law_ecmp_ignores_leftover(g: &Graph, res1: &Residual, res2: &Residual, src: GpuId, dst: GpuId)
    ensures
        spec_candidates(g, res1, src, dst, PathMode::Ecmp) == spec_candidates(g, res2, src, dst, PathMode::Ecmp),
{
    lemma_candidates_modes(g, res1, res2, PathMode::Ecmp, PathMode::Ecmp, src, dst);
}

/// Number of links on the path.
pub fn hops(p: &Path) -> (r: usize)
    ensures
        r == p.links@.len(),
{
    p.links.len()
}

/// The spine of the first link of the path that lands on one, if any.
pub open spec fn spec_first_spine(g: &Graph, links: Seq<LinkId>) -> Option<SpineId>
    decreases links.len(),
{
    if links.len() == 0 {
        None
    } else {
        match spec_link(g, links[0]) {
            Some(l) => match l.dst {
                Endpoint::Spine(s) => Some(s),
                _ => spec_first_spine(g, links.drop_first()),
            },
            None => spec_first_spine(g, links.drop_first()),
        }
    }
}

pub fn first_spine(g: &Graph, p: &Path) -> (r: Option<SpineId>)
    ensures
        r == spec_first_spine(g, p.links@),
{
    let mut i: usize = 0;
    assert(p.links@.skip(0) =~= p.links@);
    while i < p.links.len()
        invariant
            i <= p.links@.len(),
            spec_first_spine(g, p.links@) == spec_first_spine(g, p.links@.skip(i as int)),
        decreases p.links@.len() - i,
    {
        assert(p.links@.skip(i as int).drop_first() =~= p.links@.skip(i + 1));
        assert(p.links@.skip(i as int)[0] == p.links@[i as int]);
        if let Some(l) = g.link(p.links[i]) {
            if let Endpoint::Spine(s) = l.dst {
                return Some(s);
            }
        }
        i = i + 1;
    }
    assert(p.links@.skip(i as int).len() == 0);
    None
}

} // verus!
