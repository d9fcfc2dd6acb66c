//! Candidate bindings for the joint policy: first-fit with shifts, then rail
//! rotations, without repeats, at most sixteen.
use vstd::prelude::*;

use crate::mix::JobSpec;
use crate::naive::{gpu_scan_order, lemma_existing_all, lemma_filter_prefix};
use crate::table::{rank_map, spec_is_free, Binding, Occupancy};
use crate::topo::{spec_gpu, Graph};
use crate::types::{BindingKind, GpuId, JobId};

verus! {

broadcast use vstd::std_specs::btree::group_btree_axioms, vstd::laws_cmp::group_laws_cmp;

/// First-fit shifts tried.
pub const N_FF: u32 = 8;

/// Most candidates kept.
pub const MAX_BINDINGS: usize = 16;

/// Every GPU id below `n * r`, node-major.
pub open spec fn scan_seq(n: nat, r: nat) -> Seq<GpuId> {
    Seq::new(n * r, |k: int| GpuId(k as u32))
}

/// The free GPUs in scan order.
pub open spec fn free_list(occ: Map<u32, JobId>, graph: &Graph, n: nat, r: nat) -> Seq<GpuId> {
    scan_seq(n, r).filter(|g: GpuId| spec_is_free(occ, graph, g))
}

/// GPU ids rail by rail starting at rail `rot`, node by node within a rail.
pub open spec fn rail_seq(n: nat, r: nat, rot: nat) -> Seq<GpuId> {
    Seq::new(r * n, |k: int| GpuId(((k % (n as int)) * (r as int) + (rot + k / (n as int)) % (r as int)) as u32))
}

/// Two positions of a rail sequence name different GPUs.
proof fn lemma_rail_distinct(n: nat, r: nat, rot: nat, i: int, j: int)
    requires
        n * r <= u32::MAX + 1,
        0 <= i < r * n,
        0 <= j < r * n,
        i != j,
    ensures
        rail_seq(n, r, rot)[i] != rail_seq(n, r, rot)[j],
{
    let ni = n as int;
    let ri = r as int;
    assert(ni > 0 && ri > 0) by (nonlinear_arith)
        requires
            0 <= i < ri * ni,
            ni >= 0,
            ri >= 0,
    ;
    let ai = i % ni;
    let bi = i / ni;
    let aj = j % ni;
    let bj = j / ni;
    vstd::arithmetic::div_mod::lemma_fundamental_div_mod(i, ni);
    vstd::arithmetic::div_mod::lemma_fundamental_div_mod(j, ni);
    vstd::arithmetic::div_mod::lemma_mod_pos_bound(i, ni);
    vstd::arithmetic::div_mod::lemma_mod_pos_bound(j, ni);
    assert(0 <= bi < ri) by (nonlinear_arith)
        requires
            i == ni * bi + ai,
            0 <= ai < ni,
            0 <= i < ri * ni,
    ;
    assert(0 <= bj < ri) by (nonlinear_arith)
        requires
            j == ni * bj + aj,
            0 <= aj < ni,
            0 <= j < ri * ni,
    ;
    let xi = rot as int + bi;
    let xj = rot as int + bj;
    let ti = xi % ri;
    let tj = xj % ri;
    vstd::arithmetic::div_mod::lemma_fundamental_div_mod(xi, ri);
    vstd::arithmetic::div_mod::lemma_fundamental_div_mod(xj, ri);
    vstd::arithmetic::div_mod::lemma_mod_pos_bound(xi, ri);
    vstd::arithmetic::div_mod::lemma_mod_pos_bound(xj, ri);
    let vi = ai * ri + ti;
    let vj = aj * ri + tj;
    assert(0 <= vi < ni * ri && 0 <= vj < ni * ri) by (nonlinear_arith)
        requires
            vi == ai * ri + ti,
            vj == aj * ri + tj,
            0 <= ai < ni,
            0 <= aj < ni,
            0 <= ti < ri,
            0 <= tj < ri,
    ;
    if vi == vj {
        vstd::arithmetic::div_mod::lemma_fundamental_div_mod_converse(vi, ri, ai, ti);
        vstd::arithmetic::div_mod::lemma_fundamental_div_mod_converse(vj, ri, aj, tj);
        assert(ai == aj && ti == tj);
        let qi = xi / ri;
        let qj = xj / ri;
        assert(bi == bj) by (nonlinear_arith)
            requires
                xi == ri * qi + ti,
                xj == ri * qj + tj,
                ti == tj,
                xi == rot + bi,
                xj == rot + bj,
                0 <= bi < ri,
                0 <= bj < ri,
        ;
        assert(false);
    }
    assert(rail_seq(n, r, rot)[i] == GpuId(vi as u32));
    assert(rail_seq(n, r, rot)[j] == GpuId(vj as u32));
}

/// A filter keeps a list free of repeats.
proof fn lemma_filter_distinct(s: Seq<GpuId>, pred: spec_fn(GpuId) -> bool)
    requires
        s.no_duplicates(),
    ensures
        s.filter(pred).no_duplicates(),
    decreases s.len(),
{
    reveal_with_fuel(Seq::filter, 1);
    if s.len() > 0 {
        let d = s.drop_last();
        assert(d.no_duplicates()) by {
            assert forall|a: int, b: int| 0 <= a < d.len() && 0 <= b < d.len() && a != b implies d[a] != d[b] by {
                assert(d[a] == s[a] && d[b] == s[b]);
            }
        }
        lemma_filter_distinct(d, pred);
        let fd = d.filter(pred);
        if pred(s.last()) {
            assert(!fd.contains(s.last())) by {
                if fd.contains(s.last()) {
                    d.lemma_filter_contains_rev(pred, s.last());
                    let j = choose|j: int| 0 <= j < d.len() && d[j] == s.last();
                    assert(s[j] == s[s.len() - 1]);
                }
            }
            let t = fd.push(s.last());
            assert forall|a: int, b: int| 0 <= a < t.len() && 0 <= b < t.len() && a != b implies t[a] != t[b] by {
                if a < fd.len() && b < fd.len() {
                } else if a < fd.len() {
                    assert(fd.contains(fd[a]));
                } else {
                    assert(fd.contains(fd[b]));
                }
            }
        }
    }
}

/// Shift `i`: `p` free GPUs after skipping `i * r` of them, when there are enough.
pub open spec fn ff_cands(free: Seq<GpuId>, r: nat, p: nat, i: nat) -> Seq<(BindingKind, Seq<GpuId>)>
    decreases i,
{
    if i == 0 {
        Seq::empty()
    } else {
        let prev = ff_cands(free, r, p, (i - 1) as nat);
        let skip = ((i - 1) * r) as nat;
        if prev.len() == i - 1 && skip + p <= free.len() {
            prev.push(
                (BindingKind::FirstFitShift { skip_free_gpus: skip as u8 }, free.subrange(skip as int, (skip + p) as int)),
            )
        } else {
            prev
        }
    }
}

/// Rotation `rot`: the first `p` free GPUs rail by rail from rail `rot`, when
/// there are enough.
pub open spec fn rail_cands(
    occ: Map<u32, JobId>,
    graph: &Graph,
    n: nat,
    r: nat,
    p: nat,
    rot: nat,
) -> Seq<(BindingKind, Seq<GpuId>)>
    decreases rot,
{
    if rot == 0 {
        Seq::empty()
    } else {
        let prev = rail_cands(occ, graph, n, r, p, (rot - 1) as nat);
        let avail = rail_seq(n, r, (rot - 1) as nat).filter(|g: GpuId| spec_is_free(occ, graph, g));
        if avail.len() >= p {
            prev.push((BindingKind::RailRotate { start_rail: (rot - 1) as u8 }, avail.take(p as int)))
        } else {
            prev
        }
    }
}

/// Candidates in order with any whose GPU set repeats an earlier one dropped.
pub open spec fn dedup_sets(c: Seq<(BindingKind, Seq<GpuId>)>) -> Seq<(BindingKind, Seq<GpuId>)>
    decreases c.len(),
{
    if c.len() == 0 {
        Seq::empty()
    } else {
        let prev = dedup_sets(c.drop_last());
        if exists|k: int| 0 <= k < prev.len() && (#[trigger] prev[k]).1.to_set() == c.last().1.to_set() {
            prev
        } else {
            prev.push(c.last())
        }
    }
}

/// Every candidate the generator keeps, in order, at most sixteen.
pub open spec fn spec_bindings(occ: Map<u32, JobId>, graph: &Graph, p: nat, n: nat, r: nat) -> Seq<
    (BindingKind, Seq<GpuId>),
> {
    let d = dedup_sets(ff_cands(free_list(occ, graph, n, r), r, p, N_FF as nat) + rail_cands(occ, graph, n, r, p, r));
    if d.len() <= 16 {
        d
    } else {
        d.take(16)
    }
}

fn free_gpus(occ: &Occupancy, graph: &Graph, n: u32, r: u32) -> (f: Vec<GpuId>)
    requires
        n * r <= u32::MAX + 1,
    ensures
        f@ == free_list(occ.by_gpu@, graph, n as nat, r as nat),
{
    let scan = gpu_scan_order(n, r);
    let ghost pred = |g: GpuId| spec_is_free(occ.by_gpu@, graph, g);
    let mut out: Vec<GpuId> = Vec::new();
    let mut i: usize = 0;
    while i < scan.len()
        invariant
            pred == (|g: GpuId| spec_is_free(occ.by_gpu@, graph, g)),
            i <= scan@.len(),
            out@ == scan@.take(i as int).filter(pred),
        decreases scan@.len() - i,
    {
        proof {
            assert(scan@.take(i + 1).drop_last() =~= scan@.take(i as int));
            reveal_with_fuel(Seq::filter, 1);
        }
        if occ.is_free(scan[i], graph) {
            out.push(scan[i]);
        }
        assert(scan@.take(i + 1).last() == scan@[i as int]);
        i = i + 1;
    }
    assert(scan@.take(i as int) =~= scan@);
    assert(scan@ =~= scan_seq(n as nat, r as nat));
    out
}

/// The first `p` free GPUs rail by rail from rail `rot`, or fewer if there are not
/// that many.
fn rail_pick(occ: &Occupancy, graph: &Graph, n: u32, r: u32, p: usize, rot: u32) -> (pick: Vec<GpuId>)
    requires
        n * r <= u32::MAX + 1,
        rot < r,
    ensures
        ({
            let avail = rail_seq(n as nat, r as nat, rot as nat).filter(|g: GpuId| spec_is_free(occ.by_gpu@, graph, g));
            &&& avail.len() >= p ==> pick@ == avail.take(p as int)
            &&& avail.len() < p ==> pick@.len() < p
        }),
{
    let ghost pred = |g: GpuId| spec_is_free(occ.by_gpu@, graph, g);
    let ghost rs = rail_seq(n as nat, r as nat, rot as nat);
    assert((r as u64) * (n as u64) <= u32::MAX + 1) by (nonlinear_arith)
        requires
            n * r <= u32::MAX + 1,
    ;
    let total = (r as u64) * (n as u64);
    let mut pick: Vec<GpuId> = Vec::new();
    let mut k: u64 = 0;
    while k < total && pick.len() < p
        invariant
            pred == (|g: GpuId| spec_is_free(occ.by_gpu@, graph, g)),
            rs == rail_seq(n as nat, r as nat, rot as nat),
            total == r * n,
            n * r <= u32::MAX + 1,
            rot < r,
            k <= total,
            pick@ == rs.take(k as int).filter(pred),
            pick@.len() <= p,
        decreases total - k,
    {
        assert(n > 0) by (nonlinear_arith)
            requires
                k < total,
                total == r * n,
        ;
        let ni = k % (n as u64);
        let off = k / (n as u64);
        let rail = (rot as u64 + off) % (r as u64);
        assert(ni * r + rail < n * r) by (nonlinear_arith)
            requires
                ni < n,
                rail < r,
        ;
        let id = (ni * (r as u64) + rail) as u32;
        let g = GpuId(id);
        assert(rs[k as int] == g);
        proof {
            assert(rs.take(k + 1).drop_last() =~= rs.take(k as int));
            reveal_with_fuel(Seq::filter, 1);
        }
        if occ.is_free(g, graph) {
            pick.push(g);
        }
        assert(rs.take(k + 1).last() == rs[k as int]);
        k = k + 1;
    }
    proof {
        let avail = rs.filter(pred);
        if k == total {
            assert(rs.take(k as int) =~= rs);
        } else {
            lemma_filter_prefix(rs, pred, k as int);
            assert(avail.take(p as int) =~= pick@);
        }
        if avail.len() >= p && k == total {
            assert(avail.take(p as int) =~= pick@);
        }
    }
    pick
}

/// The two lists hold the same GPUs.
fn same_set(a: &Vec<GpuId>, b: &Vec<GpuId>) -> (r: bool)
    ensures
        r == (a@.to_set() == b@.to_set()),
{
    let mut i: usize = 0;
    while i < a.len()
        invariant
            i <= a@.len(),
            forall|k: int| 0 <= k < i ==> b@.contains(#[trigger] a@[k]),
        decreases a@.len() - i,
    {
        if !has_gpu(b, a[i]) {
            assert(a@.to_set().contains(a@[i as int]));
            assert(!b@.to_set().contains(a@[i as int]));
            return false;
        }
        i = i + 1;
    }
    let mut j: usize = 0;
    while j < b.len()
        invariant
            j <= b@.len(),
            forall|k: int| 0 <= k < a@.len() ==> b@.contains(#[trigger] a@[k]),
            forall|k: int| 0 <= k < j ==> a@.contains(#[trigger] b@[k]),
        decreases b@.len() - j,
    {
        if !has_gpu(a, b[j]) {
            assert(b@.to_set().contains(b@[j as int]));
            assert(!a@.to_set().contains(b@[j as int]));
            return false;
        }
        j = j + 1;
    }
    assert forall|x: GpuId| a@.to_set().contains(x) <==> b@.to_set().contains(x) by {
        if a@.to_set().contains(x) {
            let k = choose|k: int| 0 <= k < a@.len() && a@[k] == x;
            assert(b@.contains(a@[k]));
        }
        if b@.to_set().contains(x) {
            let k = choose|k: int| 0 <= k < b@.len() && b@[k] == x;
            assert(a@.contains(b@[k]));
        }
    }
    assert(a@.to_set() =~= b@.to_set());
    true
}

fn has_gpu(v: &Vec<GpuId>, g: GpuId) -> (r: bool)
    ensures
        r == v@.contains(g),
{
    let mut i: usize = 0;
    while i < v.len()
        invariant
            i <= v@.len(),
            forall|k: int| 0 <= k < i ==> v@[k] != g,
        decreases v@.len() - i,
    {
        if v[i].0 == g.0 {
            assert(v@[i as int] == g);
            return true;
        }
        i = i + 1;
    }
    false
}

/// The binding of `pick` under `kind`: ranks in order on the picked GPUs.
fn bind(pick: &Vec<GpuId>, job: &JobSpec, graph: &Graph, kind: BindingKind) -> (b: Binding)
    requires
        (job.pp as int) * (job.dp as int) * (job.tp as int) == job.gpu_count,
        pick@.len() == job.gpu_count,
        forall|k: int| 0 <= k < pick@.len() ==> spec_gpu(graph, #[trigger] pick@[k]) is Some,
        pick@.no_duplicates(),
    ensures
        b.kind == kind,
        b.map@.len() == job.gpu_count,
        forall|j: int| 0 <= j < b.map@.len() ==> pick@.contains(#[trigger] b.map@[j].1),
        gpus_of(b).no_duplicates(),
        gpus_of(b).to_set() == pick@.to_set(),
{
    proof {
        lemma_existing_all(graph, pick@);
    }
    let map = rank_map(pick, job, graph);
    proof {
        let perm = choose|perm: Seq<int>|
            crate::table::rank_order(graph, pick@, perm) && perm.len() >= map@.len() && forall|k: int|
                0 <= k < map@.len() ==> #[trigger] map@[k] == (crate::types::Rank(k as u32), pick@[perm[k]]);
        assert forall|j: int| 0 <= j < map@.len() implies pick@.contains(#[trigger] map@[j].1) by {
            assert(map@[j] == (crate::types::Rank(j as u32), pick@[perm[j]]));
            assert(0 <= perm[j] < pick@.len());
        }
        let gs = map@.map_values(|x: (crate::types::Rank, GpuId)| x.1);
        assert forall|a: int, c: int| 0 <= a < gs.len() && 0 <= c < gs.len() && a != c implies gs[a] != gs[c] by {
            assert(map@[a] == (crate::types::Rank(a as u32), pick@[perm[a]]));
            assert(map@[c] == (crate::types::Rank(c as u32), pick@[perm[c]]));
            if a < c {
                crate::naive::lemma_rank_order_distinct(graph, pick@, perm, a, c);
            } else {
                crate::naive::lemma_rank_order_distinct(graph, pick@, perm, c, a);
            }
            assert(0 <= perm[a] < pick@.len() && 0 <= perm[c] < pick@.len());
        }
        assert(gs.no_duplicates());
        assert(gs.to_set().subset_of(pick@.to_set())) by {
            assert forall|g: GpuId| gs.to_set().contains(g) implies pick@.to_set().contains(g) by {
                let j = choose|j: int| 0 <= j < gs.len() && gs[j] == g;
                assert(pick@.contains(map@[j].1));
            }
        }
        gs.unique_seq_to_set();
        pick@.unique_seq_to_set();
        vstd::set_lib::lemma_subset_equality(gs.to_set(), pick@.to_set());
    }
    let b = Binding { kind, map };
    assert(gpus_of(b) == map@.map_values(|x: (crate::types::Rank, GpuId)| x.1));
    b
}

fn seen_before(kept: &Vec<Vec<GpuId>>, pick: &Vec<GpuId>) -> (r: bool)
    ensures
        r == exists|k: int| 0 <= k < kept@.len() && (#[trigger] kept@[k])@.to_set() == pick@.to_set(),
{
    let mut k: usize = 0;
    while k < kept.len()
        invariant
            k <= kept@.len(),
            forall|j: int| 0 <= j < k ==> (#[trigger] kept@[j])@.to_set() != pick@.to_set(),
        decreases kept@.len() - k,
    {
        if same_set(&kept[k], pick) {
            return true;
        }
        k = k + 1;
    }
    false
}

proof fn lemma_ff_len(free: Seq<GpuId>, r: nat, p: nat, i: nat)
    ensures
        ff_cands(free, r, p, i).len() <= i,
    decreases i,
{
    if i > 0 {
        lemma_ff_len(free, r, p, (i - 1) as nat);
    }
}

proof fn lemma_ff_stops(free: Seq<GpuId>, r: nat, p: nat, i: nat, j: nat)
    requires
        i <= j,
        ff_cands(free, r, p, i).len() < i,
    ensures
        ff_cands(free, r, p, j) == ff_cands(free, r, p, i),
    decreases j,
{
    if j > i {
        lemma_ff_stops(free, r, p, i, (j - 1) as nat);
    }
}

/// Shift `k` of the first-fit candidates skips `k * r` free GPUs and takes the
/// next `p`, and is labelled with that skip.
proof fn lemma_ff_shape(free: Seq<GpuId>, r: nat, p: nat, i: nat)
    ensures
        forall|k: int|
            0 <= k < ff_cands(free, r, p, i).len() ==> {
                &&& (#[trigger] ff_cands(free, r, p, i)[k]).0 == (BindingKind::FirstFitShift {
                    skip_free_gpus: (k * r) as u8,
                })
                &&& k * r + p <= free.len()
                &&& ff_cands(free, r, p, i)[k].1 == free.subrange(k * r, k * r + p)
            },
    decreases i,
{
    if i > 0 {
        lemma_ff_shape(free, r, p, (i - 1) as nat);
        lemma_ff_len(free, r, p, (i - 1) as nat);
        let prev = ff_cands(free, r, p, (i - 1) as nat);
        let cur = ff_cands(free, r, p, i);
        assert forall|k: int| 0 <= k < cur.len() implies {
            &&& (#[trigger] cur[k]).0 == BindingKind::FirstFitShift { skip_free_gpus: (k * r) as u8 }
            &&& k * r + p <= free.len()
            &&& cur[k].1 == free.subrange(k * r, k * r + p)
        } by {
            if k < prev.len() {
                assert(cur[k] == prev[k]);
            } else {
                assert(k == i - 1);
            }
        }
    }
}

/// Rail candidates are all labelled as rotations.
proof fn lemma_rail_kinds(occ: Map<u32, JobId>, graph: &Graph, n: nat, r: nat, p: nat, rot: nat)
    ensures
        forall|k: int|
            0 <= k < rail_cands(occ, graph, n, r, p, rot).len() ==> ((#[trigger] rail_cands(occ, graph, n, r, p, rot)[k]).0 is RailRotate),
    decreases rot,
{
    if rot > 0 {
        lemma_rail_kinds(occ, graph, n, r, p, (rot - 1) as nat);
        let prev = rail_cands(occ, graph, n, r, p, (rot - 1) as nat);
        let cur = rail_cands(occ, graph, n, r, p, rot);
        assert forall|k: int| 0 <= k < cur.len() implies (#[trigger] cur[k]).0 is RailRotate by {
            if k < prev.len() {
                assert(cur[k] == prev[k]);
            }
        }
    }
}

/// Every kept candidate is one of the candidates.
proof fn lemma_dedup_from(c: Seq<(BindingKind, Seq<GpuId>)>)
    ensures
        forall|k: int| 0 <= k < dedup_sets(c).len() ==> (exists|m: int| 0 <= m < c.len() && #[trigger] dedup_sets(c)[k] == c[m]),
    decreases c.len(),
{
    if c.len() > 0 {
        lemma_dedup_from(c.drop_last());
        let prev = dedup_sets(c.drop_last());
        let d = dedup_sets(c);
        assert forall|k: int| 0 <= k < d.len() implies exists|m: int| 0 <= m < c.len() && #[trigger] d[k] == c[m] by {
            if k < prev.len() {
                assert(d[k] == prev[k]);
                let m = choose|m: int| 0 <= m < c.drop_last().len() && prev[k] == c.drop_last()[m];
                assert(c.drop_last()[m] == c[m]);
            } else {
                assert(d[k] == c[c.len() - 1]);
            }
        }
    }
}

/// Each rail candidate takes the first `p` free GPUs rail by rail from some
/// starting rail below `rot`, and is labelled with that rail.
proof fn lemma_rail_shape(occ: Map<u32, JobId>, graph: &Graph, n: nat, r: nat, p: nat, rot: nat)
    ensures
        forall|k: int|
            0 <= k < rail_cands(occ, graph, n, r, p, rot).len() ==> (exists|x: nat|
                x < rot && #[trigger] rail_cands(occ, graph, n, r, p, rot)[k] == (
                    BindingKind::RailRotate { start_rail: x as u8 },
                    (#[trigger] rail_seq(n, r, x)).filter(|g: GpuId| spec_is_free(occ, graph, g)).take(p as int),
                )),
    decreases rot,
{
    if rot > 0 {
        lemma_rail_shape(occ, graph, n, r, p, (rot - 1) as nat);
        let prev = rail_cands(occ, graph, n, r, p, (rot - 1) as nat);
        let cur = rail_cands(occ, graph, n, r, p, rot);
        assert forall|k: int| 0 <= k < cur.len() implies (exists|x: nat|
            x < rot && #[trigger] cur[k] == (
                BindingKind::RailRotate { start_rail: x as u8 },
                (#[trigger] rail_seq(n, r, x)).filter(|g: GpuId| spec_is_free(occ, graph, g)).take(p as int),
            )) by {
            if k < prev.len() {
                assert(cur[k] == prev[k]);
                let x = choose|x: nat|
                    x < rot - 1 && prev[k] == (
                        BindingKind::RailRotate { start_rail: x as u8 },
                        (#[trigger] rail_seq(n, r, x)).filter(|g: GpuId| spec_is_free(occ, graph, g)).take(p as int),
                    );
                assert(rail_seq(n, r, x) == rail_seq(n, r, x));
            } else {
                let x = (rot - 1) as nat;
                assert(rail_seq(n, r, x) == rail_seq(n, r, x));
            }
        }
    }
}

/// First-fit candidates are all labelled as shifts.
proof fn lemma_ff_kinds(free: Seq<GpuId>, r: nat, p: nat, i: nat)
    ensures
        forall|k: int| 0 <= k < ff_cands(free, r, p, i).len() ==> ((#[trigger] ff_cands(free, r, p, i)[k]).0 is FirstFitShift),
{
    lemma_ff_shape(free, r, p, i);
}

/// A rail-rotation candidate labelled `start_rail: s` places its ranks on
/// exactly the first `p` free GPUs met rail by rail from rail `s` (node by
/// node within a rail).
pub proof fn law_rail_rotation_starts_at_label(occ: Map<u32, JobId>, graph: &Graph, p: nat, n: nat, r: nat, k: int)
    requires
        0 <= k < spec_bindings(occ, graph, p, n, r).len(),
        (spec_bindings(occ, graph, p, n, r)[k].0 is RailRotate),
        r <= 256,
    ensures
        ({
            let s = spec_bindings(occ, graph, p, n, r)[k].0->start_rail;
            &&& s < r
            &&& spec_bindings(occ, graph, p, n, r)[k].1 == rail_seq(n, r, s as nat).filter(
                |g: GpuId| spec_is_free(occ, graph, g),
            ).take(p as int)
        }),
{
    let free = free_list(occ, graph, n, r);
    let ff = ff_cands(free, r, p, N_FF as nat);
    let rc = rail_cands(occ, graph, n, r, p, r);
    let c = ff + rc;
    let d = dedup_sets(c);
    lemma_ff_kinds(free, r, p, N_FF as nat);
    lemma_rail_shape(occ, graph, n, r, p, r);
    lemma_dedup_from(c);
    let b = spec_bindings(occ, graph, p, n, r);
    assert(b[k] == d[k]);
    let m = choose|m: int| 0 <= m < c.len() && d[k] == c[m];
    if m < ff.len() {
        assert(c[m] == ff[m]);
        assert(false);
    }
    assert(c[m] == rc[m - ff.len()]);
    let x = choose|x: nat|
        x < r && rc[m - ff.len()] == (
            BindingKind::RailRotate { start_rail: x as u8 },
            (#[trigger] rail_seq(n, r, x)).filter(|g: GpuId| spec_is_free(occ, graph, g)).take(p as int),
        );
    assert((x as u8) as nat == x);
}

/// A first-fit shift candidate labelled `skip_free_gpus: s` places its ranks on
/// exactly the free GPUs `free[s..s + p]`, free GPUs taken in node-major scan
/// order: shift `i` skips `i * r` free GPUs (the label is that count, kept in a
/// byte), never `i` of them.
pub proof fn law_first_fit_shift_skips(occ: Map<u32, JobId>, graph: &Graph, p: nat, n: nat, r: nat, k: int)
    requires
        0 <= k < spec_bindings(occ, graph, p, n, r).len(),
        (spec_bindings(occ, graph, p, n, r)[k].0 is FirstFitShift),
    ensures
        7 * r <= 255 ==> ({
            let s = spec_bindings(occ, graph, p, n, r)[k].0->skip_free_gpus;
            &&& s + p <= free_list(occ, graph, n, r).len()
            &&& spec_bindings(occ, graph, p, n, r)[k].1 == free_list(occ, graph, n, r).subrange(s as int, s + p)
        }),
{
    let free = free_list(occ, graph, n, r);
    let ff = ff_cands(free, r, p, N_FF as nat);
    let rc = rail_cands(occ, graph, n, r, p, r);
    let c = ff + rc;
    let d = dedup_sets(c);
    lemma_ff_shape(free, r, p, N_FF as nat);
    lemma_ff_len(free, r, p, N_FF as nat);
    lemma_rail_kinds(occ, graph, n, r, p, r);
    lemma_dedup_from(c);
    let b = spec_bindings(occ, graph, p, n, r);
    assert(b[k] == d[k]);
    let m = choose|m: int| 0 <= m < c.len() && d[k] == c[m];
    if m >= ff.len() {
        assert(c[m] == rc[m - ff.len()]);
        assert(false);
    }
    assert(c[m] == ff[m]);
    let i = m as nat;
    assert(i < N_FF);
    assert(b[k].0 == BindingKind::FirstFitShift { skip_free_gpus: (i * r) as u8 });
    if 7 * r <= 255 {
        assert(i * r <= 7 * r) by (nonlinear_arith)
            requires
                i < 8,
        ;
        assert((i * r) as u8 == i * r);
    }
}

/// The GPUs a binding places its ranks on, in rank order.
pub open spec fn gpus_of(b: Binding) -> Seq<GpuId> {
    b.map@.map_values(|x: (crate::types::Rank, GpuId)| x.1)
}

/// The deduplicated candidates have pairwise different GPU sets.
proof fn lemma_dedup_distinct(c: Seq<(BindingKind, Seq<GpuId>)>)
    ensures
        forall|a: int, b: int| 0 <= a < b < dedup_sets(c).len() ==> (#[trigger] dedup_sets(c)[a]).1.to_set() != (#[trigger] dedup_sets(c)[b]).1.to_set(),
    decreases c.len(),
{
    if c.len() > 0 {
        lemma_dedup_distinct(c.drop_last());
        let prev = dedup_sets(c.drop_last());
        if !(exists|k: int| 0 <= k < prev.len() && (#[trigger] prev[k]).1.to_set() == c.last().1.to_set()) {
            let d = prev.push(c.last());
            assert forall|a: int, b: int| 0 <= a < b < d.len() implies (#[trigger] d[a]).1.to_set() != (#[trigger] d[b]).1.to_set() by {
                if b < prev.len() {
                    assert(d[a] == prev[a] && d[b] == prev[b]);
                } else {
                    assert(d[a] == prev[a]);
                }
            }
        }
    }
}

/// The pairs a list of bindings and their picked GPUs stand for.
pub open spec fn kept_view(out: Seq<Binding>, kept: Seq<Vec<GpuId>>) -> Seq<(BindingKind, Seq<GpuId>)> {
    Seq::new(out.len(), |k: int| (out[k].kind, kept[k]@))
}

/// Up to sixteen candidate bindings of `job`: `p` free GPUs after skipping
/// `i * r` free ones for each of eight shifts, then `p` free GPUs rail by rail
/// from each starting rail; a candidate whose GPU set repeats an earlier one is
/// dropped. Nothing is evaluated or admitted.
pub fn generate_bindings(job: &JobSpec, occ: &Occupancy, graph: &Graph, n: u32, r: u32) -> (out: Vec<Binding>)
    requires
        n * r <= u32::MAX + 1,
        (job.pp as int) * (job.dp as int) * (job.tp as int) == job.gpu_count,
    ensures
        out@.len() <= MAX_BINDINGS,
        out@.len() == spec_bindings(occ.by_gpu@, graph, job.gpu_count as nat, n as nat, r as nat).len(),
        forall|k: int|
            0 <= k < out@.len() ==> {
                let c = spec_bindings(occ.by_gpu@, graph, job.gpu_count as nat, n as nat, r as nat)[k];
                &&& (#[trigger] out@[k]).kind == c.0
                &&& out@[k].map@.len() == job.gpu_count
                &&& forall|j: int| 0 <= j < out@[k].map@.len() ==> c.1.contains(#[trigger] out@[k].map@[j].1)
                &&& gpus_of(out@[k]).no_duplicates()
                &&& gpus_of(out@[k]).to_set() == c.1.to_set()
            },
        forall|a: int, b: int| 0 <= a < b < out@.len() ==> gpus_of(#[trigger] out@[a]).to_set() != gpus_of(#[trigger] out@[b]).to_set(),
        7 * r <= 255 ==> forall|k: int|
            0 <= k < out@.len() ==> ((#[trigger] out@[k]).kind matches BindingKind::FirstFitShift { skip_free_gpus: s } ==> (s
                + job.gpu_count <= free_list(occ.by_gpu@, graph, n as nat, r as nat).len() && gpus_of(out@[k]).to_set()
                == free_list(occ.by_gpu@, graph, n as nat, r as nat).subrange(s as int, s + job.gpu_count).to_set())),
        r <= 256 ==> forall|k: int|
            0 <= k < out@.len() ==> ((#[trigger] out@[k]).kind matches BindingKind::RailRotate { start_rail: s } ==> (s < r
                && gpus_of(out@[k]).to_set() == rail_seq(n as nat, r as nat, s as nat).filter(
                |g: GpuId| spec_is_free(occ.by_gpu@, graph, g),
            ).take(job.gpu_count as int).to_set())),
{
    let p = job.gpu_count as usize;
    let free = free_gpus(occ, graph, n, r);
    let ghost pred = |g: GpuId| spec_is_free(occ.by_gpu@, graph, g);
    let ghost fl = free@;
    proof {
        scan_seq(n as nat, r as nat).filter_lemma(pred);
    }
    let mut out: Vec<Binding> = Vec::new();
    let mut kept: Vec<Vec<GpuId>> = Vec::new();
    let ghost mut cands: Seq<(BindingKind, Seq<GpuId>)> = Seq::empty();
    let mut i: u32 = 0;
    let mut stopped = false;
    while i < N_FF && !stopped
        invariant
            n * r <= u32::MAX + 1,
            (job.pp as int) * (job.dp as int) * (job.tp as int) == job.gpu_count,
            p == job.gpu_count,
            fl == free@,
            fl == free_list(occ.by_gpu@, graph, n as nat, r as nat),
            forall|k: int| 0 <= k < fl.len() ==> spec_is_free(occ.by_gpu@, graph, #[trigger] fl[k]),
            i <= N_FF,
            !stopped ==> cands == ff_cands(fl, r as nat, p as nat, i as nat),
            !stopped ==> cands.len() == i,
            stopped ==> cands == ff_cands(fl, r as nat, p as nat, N_FF as nat),
            kept_view(out@, kept@) == dedup_sets(cands),
            kept@.len() == out@.len(),
            forall|k: int|
                0 <= k < out@.len() ==> {
                    &&& (#[trigger] out@[k]).map@.len() == job.gpu_count
                    &&& forall|j: int| 0 <= j < out@[k].map@.len() ==> kept@[k]@.contains(#[trigger] out@[k].map@[j].1)
                    &&& gpus_of(out@[k]).no_duplicates()
                    &&& gpus_of(out@[k]).to_set() == kept@[k]@.to_set()
                },
        decreases N_FF - i + if stopped {
            0int
        } else {
            1int
        },
    {
        assert((i as u64) * (r as u64) <= 8 * 0xffff_ffffu64) by (nonlinear_arith)
            requires
                i < 8,
        ;
        let skip = (i as u64) * (r as u64);
        if skip + (p as u64) > free.len() as u64 {
            proof {
                assert(ff_cands(fl, r as nat, p as nat, (i + 1) as nat) == cands);
                lemma_ff_stops(fl, r as nat, p as nat, (i + 1) as nat, N_FF as nat);
            }
            stopped = true;
        } else {
        let s = skip as usize;
        let flen = free.len();
        assert(s + p <= flen);
        let mut pick: Vec<GpuId> = Vec::new();
        let mut q: usize = 0;
        while q < p
            invariant
                q <= p,
                flen == fl.len(),
                s + p <= flen,
                fl == free@,
                pick@ == fl.subrange(s as int, (s + q) as int),
            decreases p - q,
        {
            assert(s + q < free@.len());
            pick.push(free[s + q]);
            q = q + 1;
            assert(pick@ =~= fl.subrange(s as int, (s + q) as int));
        }
        let kind = BindingKind::FirstFitShift { skip_free_gpus: skip as u8 };
        let ghost c = (kind, pick@);
        let ghost d0 = dedup_sets(cands);
        proof {
            assert(ff_cands(fl, r as nat, p as nat, (i + 1) as nat) == cands.push(c));
            assert(cands.push(c).drop_last() =~= cands);
        }
        if !seen_before(&kept, &pick) {
            proof {
                assert forall|k: int| 0 <= k < pick@.len() implies spec_gpu(graph, #[trigger] pick@[k]) is Some by {
                    assert(pick@[k] == fl[s + k]);
                    assert(spec_is_free(occ.by_gpu@, graph, fl[s + k]));
                }
                assert forall|k: int| 0 <= k < d0.len() implies (#[trigger] d0[k]).1.to_set() != c.1.to_set() by {
                    assert(kept_view(out@, kept@)[k] == d0[k]);
                    assert(kept@[k]@.to_set() != pick@.to_set());
                }
            }
            proof {
                let sq = scan_seq(n as nat, r as nat);
                assert forall|a: int, b: int| 0 <= a < b < sq.len() implies (#[trigger] sq[a]).0 < (#[trigger] sq[b]).0 by {
                    assert(sq[a].0 == a as u32 && sq[b].0 == b as u32);
                }
                crate::naive::lemma_filter_increasing(sq, |g: GpuId| spec_is_free(occ.by_gpu@, graph, g));
                assert forall|a: int, b: int| 0 <= a < pick@.len() && 0 <= b < pick@.len() && a != b implies pick@[a] != pick@[b] by {
                    assert(pick@[a] == fl[s + a] && pick@[b] == fl[s + b]);
                    if a < b {
                        assert(fl[s + a].0 < fl[s + b].0);
                    } else {
                        assert(fl[s + b].0 < fl[s + a].0);
                    }
                }
            }
            let b = bind(&pick, job, graph, kind);
            out.push(b);
            kept.push(pick);
            proof {
                assert(kept_view(out@, kept@) =~= d0.push(c));
            }
        } else {
            proof {
                let k = choose|k: int| 0 <= k < kept@.len() && (#[trigger] kept@[k])@.to_set() == pick@.to_set();
                assert(kept_view(out@, kept@)[k] == d0[k]);
            }
        }
        proof {
            cands = cands.push(c);
        }
        i = i + 1;
        }
    }
    let ghost ff = cands;
    assert(ff == ff_cands(fl, r as nat, p as nat, N_FF as nat));
    let mut rot: u32 = 0;
    while rot < r
        invariant
            n * r <= u32::MAX + 1,
            (job.pp as int) * (job.dp as int) * (job.tp as int) == job.gpu_count,
            p == job.gpu_count,
            rot <= r,
            cands == ff + rail_cands(occ.by_gpu@, graph, n as nat, r as nat, p as nat, rot as nat),
            kept_view(out@, kept@) == dedup_sets(cands),
            kept@.len() == out@.len(),
            forall|k: int|
                0 <= k < out@.len() ==> {
                    &&& (#[trigger] out@[k]).map@.len() == job.gpu_count
                    &&& forall|j: int| 0 <= j < out@[k].map@.len() ==> kept@[k]@.contains(#[trigger] out@[k].map@[j].1)
                    &&& gpus_of(out@[k]).no_duplicates()
                    &&& gpus_of(out@[k]).to_set() == kept@[k]@.to_set()
                },
        decreases r - rot,
    {
        let pick = rail_pick(occ, graph, n, r, p, rot);
        let ghost avail = rail_seq(n as nat, r as nat, rot as nat).filter(|g: GpuId| spec_is_free(occ.by_gpu@, graph, g));
        let ghost prev_rail = rail_cands(occ.by_gpu@, graph, n as nat, r as nat, p as nat, rot as nat);
        if pick.len() == p {
            let kind = BindingKind::RailRotate { start_rail: rot as u8 };
            let ghost c = (kind, pick@);
            let ghost d0 = dedup_sets(cands);
            proof {
                assert(avail.len() >= p);
                assert(rail_cands(occ.by_gpu@, graph, n as nat, r as nat, p as nat, (rot + 1) as nat) == prev_rail.push(c));
                assert(ff + prev_rail.push(c) =~= cands.push(c));
                assert(cands.push(c).drop_last() =~= cands);
                rail_seq(n as nat, r as nat, rot as nat).filter_lemma(|g: GpuId| spec_is_free(occ.by_gpu@, graph, g));
            }
            if !seen_before(&kept, &pick) {
                proof {
                    assert forall|k: int| 0 <= k < pick@.len() implies spec_gpu(graph, #[trigger] pick@[k]) is Some by {
                        assert(pick@[k] == avail[k]);
                    }
                    assert forall|k: int| 0 <= k < d0.len() implies (#[trigger] d0[k]).1.to_set() != c.1.to_set() by {
                        assert(kept_view(out@, kept@)[k] == d0[k]);
                        assert(kept@[k]@.to_set() != pick@.to_set());
                    }
                }
                proof {
                    let rs = rail_seq(n as nat, r as nat, rot as nat);
                    assert forall|a: int, b: int| 0 <= a < rs.len() && 0 <= b < rs.len() && a != b implies rs[a] != rs[b] by {
                        lemma_rail_distinct(n as nat, r as nat, rot as nat, a, b);
                    }
                    lemma_filter_distinct(rs, |g: GpuId| spec_is_free(occ.by_gpu@, graph, g));
                    assert forall|a: int, b: int| 0 <= a < pick@.len() && 0 <= b < pick@.len() && a != b implies pick@[a] != pick@[b] by {
                        assert(pick@[a] == avail[a] && pick@[b] == avail[b]);
                    }
                }
                let b = bind(&pick, job, graph, kind);
                out.push(b);
                kept.push(pick);
                proof {
                    assert(kept_view(out@, kept@) =~= d0.push(c));
                }
            } else {
                proof {
                    let k = choose|k: int| 0 <= k < kept@.len() && (#[trigger] kept@[k])@.to_set() == pick@.to_set();
                    assert(kept_view(out@, kept@)[k] == d0[k]);
                }
            }
            proof {
                cands = cands.push(c);
            }
        } else {
            proof {
                assert(avail.len() < p);
                assert(rail_cands(occ.by_gpu@, graph, n as nat, r as nat, p as nat, (rot + 1) as nat) == prev_rail);
            }
        }
        rot = rot + 1;
    }
    let ghost d = dedup_sets(cands);
    proof {
        assert(d == dedup_sets(ff_cands(free_list(occ.by_gpu@, graph, n as nat, r as nat), r as nat, p as nat, N_FF as nat)
            + rail_cands(occ.by_gpu@, graph, n as nat, r as nat, p as nat, r as nat)));
    }
    let ghost full = out@;
    let ghost full_kept = kept@;
    out.truncate(MAX_BINDINGS);
    proof {
        assert forall|k: int| 0 <= k < out@.len() implies {
            let c = spec_bindings(occ.by_gpu@, graph, job.gpu_count as nat, n as nat, r as nat)[k];
            &&& (#[trigger] out@[k]).kind == c.0
            &&& out@[k].map@.len() == job.gpu_count
            &&& forall|j: int| 0 <= j < out@[k].map@.len() ==> c.1.contains(#[trigger] out@[k].map@[j].1)
        } by {
            assert(out@[k] == full[k]);
            assert(kept_view(full, full_kept)[k] == d[k]);
        }
        lemma_dedup_distinct(cands);
        assert forall|a: int, b: int| 0 <= a < b < out@.len() implies gpus_of(#[trigger] out@[a]).to_set() != gpus_of(
            #[trigger] out@[b],
        ).to_set() by {
            assert(out@[a] == full[a] && out@[b] == full[b]);
            assert(kept_view(full, full_kept)[a] == d[a]);
            assert(kept_view(full, full_kept)[b] == d[b]);
        }
        if 7 * r <= 255 {
            assert forall|k: int| 0 <= k < out@.len() implies ((#[trigger] out@[k]).kind matches BindingKind::FirstFitShift {
                skip_free_gpus: s,
            } ==> (s + job.gpu_count <= free_list(occ.by_gpu@, graph, n as nat, r as nat).len() && gpus_of(out@[k]).to_set()
                == free_list(occ.by_gpu@, graph, n as nat, r as nat).subrange(s as int, s + job.gpu_count).to_set())) by {
                if out@[k].kind is FirstFitShift {
                    law_first_fit_shift_skips(occ.by_gpu@, graph, job.gpu_count as nat, n as nat, r as nat, k);
                }
            }
        }
        if r <= 256 {
            assert forall|k: int| 0 <= k < out@.len() implies ((#[trigger] out@[k]).kind matches BindingKind::RailRotate {
                start_rail: s,
            } ==> (s < r && gpus_of(out@[k]).to_set() == rail_seq(n as nat, r as nat, s as nat).filter(
                |g: GpuId| spec_is_free(occ.by_gpu@, graph, g),
            ).take(job.gpu_count as int).to_set())) by {
                if out@[k].kind is RailRotate {
                    law_rail_rotation_starts_at_label(occ.by_gpu@, graph, job.gpu_count as nat, n as nat, r as nat, k);
                }
            }
        }
    }
    out
}

} // verus!
