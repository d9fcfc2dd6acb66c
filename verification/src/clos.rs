//! Generation of the rail-optimized two-tier Clos.
//!
//! `N = G_tot / R` nodes of `R` GPUs, one NIC per GPU on its own rail. Each rail
//! has `ceil(N / D)` leaves of `D` down ports; leaf `(rail, group)` serves the
//! nodes `group * D ..`. Each leaf has `U = D / K` up cables spread over
//! `S = ceil(L * U / P)` spines. Host links come first, two per NIC; then two
//! links per leaf-spine cable, by leaf then spine.
use vstd::prelude::*;

use crate::topo::{
    ceil_div, lemma_ceil_div_le, Gpu, Graph, Leaf, Link, Node, Spine, TopoError, TopoParams,
};
use crate::types::{
    Endpoint, EpochId, GpuAvail, GpuId, LeafId, LinkId, NicId, NodeId, RailId, SpineId,
};

verus! {

/// Default down ports per leaf.
pub const DEFAULT_DOWN: u32 = 32;

/// Default leaf radix.
pub const DEFAULT_LEAF_RADIX: u32 = 64;

/// Default port speed in Gb/s.
pub const DEFAULT_PORT_SPEED_GBPS: u32 = 400;

/// Default scratch share: 5%.
pub const DEFAULT_SCRATCH_PPM: u32 = 50_000;

/// The only fill the generator accepts: 1.0.
pub const FULL_FILL_PPM: u32 = 1_000_000;

/// Default switch buffer, bytes.
pub const DEFAULT_BUFFER_BYTES: u64 = 33_554_432;

/// What a topology is built from.
#[derive(Copy, Clone, Debug, PartialEq, Eq, Structural)]
pub struct TopoSpec {
    pub gpus: u32,
    pub rails: u32,
    pub oversub: u32,
    pub leaf_radix: u32,
    pub down: u32,
    pub port_speed_gbps: u32,
    pub scratch_ppm: u32,
    pub fill_ppm: u32,
    pub allow_cross_rail: bool,
    pub buffer_bytes: u64,
    pub buffer_infinite: bool,
}

/// The numbers every part of the build is drawn from.
#[derive(Copy, Clone, Debug, PartialEq, Eq, Structural)]
pub struct Shape {
    pub n: u32,
    pub r: u32,
    pub d: u32,
    pub p: u32,
    pub u: u32,
    pub ng: u32,
    pub l: u32,
    pub s: u32,
    pub full: bool,
}

/// Allowed oversubscription ratios.
pub open spec fn oversub_ok(k: u32) -> bool {
    k == 1 || k == 2 || k == 4 || k == 8 || k == 16 || k == 32
}

/// Nodes: `G_tot / R`.
pub open spec fn spec_n(t: TopoSpec) -> nat {
    (t.gpus / t.rails) as nat
}

/// Up cables per leaf: `D / K`.
pub open spec fn spec_u(t: TopoSpec) -> nat {
    (t.down / t.oversub) as nat
}

/// Leaves: `R * ceil(N / D)`.
pub open spec fn spec_l(t: TopoSpec) -> nat {
    (t.rails as nat) * ceil_div(spec_n(t), t.down as nat)
}

/// The parameters pass every rule of the generator.
pub open spec fn rules_ok(t: TopoSpec) -> bool {
    &&& t.fill_ppm == FULL_FILL_PPM
    &&& 1 <= t.rails <= 255
    &&& t.gpus % t.rails == 0
    &&& oversub_ok(t.oversub)
    &&& t.down > 0
    &&& t.leaf_radix > 0
    &&& t.down % t.oversub == 0
}

/// Every directed link can be numbered in `u32`.
pub open spec fn links_fit(t: TopoSpec) -> bool {
    2 * t.gpus + 2 * spec_l(t) * spec_u(t) <= u32::MAX
}

/// The parameters pass every rule and the links can be numbered.
pub open spec fn spec_valid(t: TopoSpec) -> bool {
    rules_ok(t) && links_fit(t)
}

/// The shape of a valid spec.
pub open spec fn spec_shape(t: TopoSpec) -> Shape {
    let n = spec_n(t);
    let u = spec_u(t);
    let ng = ceil_div(n, t.down as nat);
    let l = (t.rails as nat) * ng;
    let s = ceil_div(l * u, t.leaf_radix as nat);
    Shape {
        n: n as u32,
        r: t.rails,
        d: t.down,
        p: t.leaf_radix,
        u: u as u32,
        ng: ng as u32,
        l: l as u32,
        s: s as u32,
        full: s <= u && l <= t.leaf_radix,
    }
}

/// Of the `m` first up cables of a leaf whose first cable has index `base`,
/// how many land on `spine` (cable `i` lands on `(base + i) % S`).
pub open spec fn count_hits(base: nat, s: nat, spine: nat, m: nat) -> nat
    decreases m,
{
    if m == 0 {
        0
    } else {
        count_hits(base, s, spine, (m - 1) as nat) + if (base + m - 1) % (s as int) == spine {
            1nat
        } else {
            0nat
        }
    }
}

/// Cables between `leaf` and `spine`: an even spread of `U` over `S` when the
/// fabric is a full bipartite mesh, else `U` cables at `(leaf * U + i) % S`.
pub open spec fn cable_count(c: Shape, leaf: nat, spine: nat) -> nat {
    if c.full {
        (c.u / c.s) as nat + if spine < c.u % c.s {
            1nat
        } else {
            0nat
        }
    } else {
        count_hits(leaf * (c.u as nat), c.s as nat, spine, c.u as nat)
    }
}

/// `(leaf, spine)` of each up cable of `leaf` to the first `k` spines, ascending.
pub open spec fn leaf_pairs(c: Shape, leaf: nat, k: nat) -> Seq<(u32, u32)>
    decreases k,
{
    if k == 0 {
        Seq::empty()
    } else {
        leaf_pairs(c, leaf, (k - 1) as nat) + Seq::new(
            cable_count(c, leaf, (k - 1) as nat),
            |j: int| (leaf as u32, (k - 1) as u32),
        )
    }
}

/// `(leaf, spine)` of every up cable of the first `m` leaves, by leaf then spine.
pub open spec fn all_cables(c: Shape, m: nat) -> Seq<(u32, u32)>
    decreases m,
{
    if m == 0 {
        Seq::empty()
    } else {
        all_cables(c, (m - 1) as nat) + leaf_pairs(c, (m - 1) as nat, c.s as nat)
    }
}

/// The two directed links of a cable: leaf up to spine, then spine down to leaf.
pub open spec fn cable_ends(cab: (u32, u32), down: bool) -> (Endpoint, Endpoint) {
    let leaf = Endpoint::Leaf(LeafId(cab.0));
    let spine = Endpoint::Spine(SpineId(cab.1));
    if down {
        (spine, leaf)
    } else {
        (leaf, spine)
    }
}

/// Ends of host link `i`: even is NIC up to its leaf, odd is leaf down to NIC.
pub open spec fn host_ends(c: Shape, i: nat) -> (Endpoint, Endpoint) {
    let g = i / 2;
    let ni = g / (c.r as nat);
    let ri = g % (c.r as nat);
    let nic = Endpoint::Nic(NicId(g as u32));
    let leaf = Endpoint::Leaf(LeafId((ri * c.ng + ni / (c.d as nat)) as u32));
    if i % 2 == 0 {
        (nic, leaf)
    } else {
        (leaf, nic)
    }
}

/// Ends of leaf-spine link `j`: even is leaf up, odd is spine down.
pub open spec fn ls_ends(c: Shape, j: nat) -> (Endpoint, Endpoint) {
    cable_ends(all_cables(c, c.l as nat)[(j / 2) as int], j % 2 == 1)
}

/// Ends of link `i` of the whole graph.
pub open spec fn link_ends(c: Shape, i: nat) -> (Endpoint, Endpoint) {
    let h = 2 * c.n * c.r;
    if i < h {
        host_ends(c, i)
    } else {
        ls_ends(c, (i - h) as nat)
    }
}

/// Bytes per second of a port: `Gb/s * 10^9 / 8`.
pub open spec fn spec_capacity(t: TopoSpec) -> u64 {
    (t.port_speed_gbps * 1_000_000_000 / 8) as u64
}

/// The parameters a valid spec records.
pub open spec fn spec_params(t: TopoSpec) -> TopoParams {
    let c = spec_shape(t);
    TopoParams {
        nodes: c.n,
        gpus_per_node: c.r,
        rails: c.r,
        leaf_radix: c.p,
        down: c.d,
        up: c.u,
        port_speed_gbps: t.port_speed_gbps,
        scratch_ppm: t.scratch_ppm,
        fill_ppm: t.fill_ppm,
        allow_cross_rail: t.allow_cross_rail,
        buffer_bytes: t.buffer_bytes,
        buffer_infinite: t.buffer_infinite,
    }
}

/// Directed link `i` with the given ends, fresh and empty.
pub open spec fn mk_link(t: TopoSpec, i: nat, ends: (Endpoint, Endpoint)) -> Link {
    Link {
        id: LinkId(i as u32),
        src: ends.0,
        dst: ends.1,
        capacity_Bps: spec_capacity(t),
        scratch_ppm: t.scratch_ppm,
        failed: false,
        bytes_this_epoch: 0,
    }
}

/// Everything a successful build promises of the graph.
pub open spec fn built_from(g: Graph, t: TopoSpec) -> bool {
    let c = spec_shape(t);
    &&& g.epoch == EpochId(0)
    &&& g.params == spec_params(t)
    &&& g.nodes@.len() == c.n
    &&& forall|ni: int|
        0 <= ni < c.n ==> {
            &&& (#[trigger] g.nodes@[ni]).id == NodeId(ni as u32)
            &&& g.nodes@[ni].present
            &&& g.nodes@[ni].gpus@ == Seq::new(c.r as nat, |ri: int| GpuId((ni * c.r + ri) as u32))
        }
    &&& g.gpus@.len() == t.gpus
    &&& forall|gi: int|
        0 <= gi < t.gpus ==> #[trigger] g.gpus@[gi] == (Gpu {
            id: GpuId(gi as u32),
            node: NodeId((gi / (c.r as int)) as u32),
            rail: RailId((gi % (c.r as int)) as u8),
            nic: NicId(gi as u32),
            avail: GpuAvail::Present,
        })
    &&& g.leaves@.len() == c.l
    &&& forall|li: int|
        0 <= li < c.l ==> #[trigger] g.leaves@[li] == (Leaf {
            id: LeafId(li as u32),
            rail: RailId((li / (c.ng as int)) as u8),
            group: (li % (c.ng as int)) as u32,
            failed: false,
        })
    &&& g.spines@.len() == c.s
    &&& forall|si: int|
        0 <= si < c.s ==> #[trigger] g.spines@[si] == (Spine { id: SpineId(si as u32), failed: false })
    &&& g.links@.len() == 2 * t.gpus + 2 * c.l * c.u
    &&& forall|i: int|
        0 <= i < g.links@.len() ==> #[trigger] g.links@[i] == mk_link(t, i as nat, link_ends(c, i as nat))
}

pub(crate) proof fn lemma_shape_facts(t: TopoSpec)
    requires
        spec_valid(t),
    ensures
        ({
            let c = spec_shape(t);
            &&& c.n == spec_n(t)
            &&& c.u == spec_u(t)
            &&& c.u >= 1
            &&& c.ng == ceil_div(spec_n(t), t.down as nat)
            &&& c.l == spec_l(t)
            &&& c.s == ceil_div(spec_l(t) * spec_u(t), t.leaf_radix as nat)
            &&& c.n * c.r == t.gpus
            &&& c.ng <= c.n
            &&& c.l * c.u <= u32::MAX
            &&& c.s <= c.l * c.u
            &&& (c.l >= 1 ==> c.s >= 1)
            &&& c.r == t.rails
            &&& c.d == t.down
            &&& c.l == c.r * c.ng
            &&& 1 <= c.r <= 255
            &&& c.d >= 1
            &&& c.s >= 1 ==> c.l >= 1
        }),
{
    let n = spec_n(t);
    let u = spec_u(t);
    assert(n * t.rails == t.gpus) by (nonlinear_arith)
        requires
            n == t.gpus / t.rails,
            t.gpus % t.rails == 0,
            t.rails >= 1,
    ;
    assert(u >= 1) by (nonlinear_arith)
        requires
            u == t.down / t.oversub,
            t.down % t.oversub == 0,
            t.down >= 1,
            t.oversub >= 1,
    ;
    lemma_ceil_div_le(n, t.down as nat);
    let ng = ceil_div(n, t.down as nat);
    let l = spec_l(t);
    assert(l * u <= u32::MAX) by (nonlinear_arith)
        requires
            2 * t.gpus + 2 * l * u <= u32::MAX,
    ;
    lemma_ceil_div_le(l * u, t.leaf_radix as nat);
    if l >= 1 {
        assert(l * u >= 1) by (nonlinear_arith)
            requires
                l >= 1,
                u >= 1,
        ;
        assert(ceil_div(l * u, t.leaf_radix as nat) >= 1) by (nonlinear_arith)
            requires
                l * u >= 1,
                t.leaf_radix >= 1,
        ;
    }
    assert(n <= t.gpus) by (nonlinear_arith)
        requires
            n * t.rails == t.gpus,
            t.rails >= 1,
    ;
    assert(ng <= u32::MAX);
    assert(l <= u32::MAX) by (nonlinear_arith)
        requires
            l * u <= u32::MAX,
            u >= 1,
    ;
    assert(l == (t.rails as nat) * ng);
    if l == 0 {
        assert(l * u == 0) by (nonlinear_arith)
            requires
                l == 0,
        ;
        assert(ceil_div(0, t.leaf_radix as nat) == 0) by (nonlinear_arith)
            requires
                t.leaf_radix >= 1,
        ;
    }
}

pub(crate) fn compute_shape(t: &TopoSpec) -> (c: Shape)
    requires
        spec_valid(*t),
    ensures
        c == spec_shape(*t),
{
    proof {
        lemma_shape_facts(*t);
    }
    let n = t.gpus / t.rails;
    let u = t.down / t.oversub;
    let ng = ((n as u64 + t.down as u64 - 1) / t.down as u64) as u32;
    let l = t.rails * ng;
    let lu = (l as u64) * (u as u64);
    let s = ((lu + t.leaf_radix as u64 - 1) / t.leaf_radix as u64) as u32;
    Shape { n, r: t.rails, d: t.down, p: t.leaf_radix, u, ng, l, s, full: s <= u && l <= t.leaf_radix }
}

/// Up cables between `leaf` and `spine`.
pub(crate) fn count_cables(c: &Shape, leaf: u32, spine: u32) -> (r: u32)
    requires
        c.s >= 1,
        c.l as nat * c.u as nat <= u32::MAX,
        leaf < c.l,
    ensures
        r == cable_count(*c, leaf as nat, spine as nat),
        r <= c.u,
{
    if c.full {
        proof {
            assert(c.u / c.s + 1 <= c.u || (c.u % c.s == 0 && c.u / c.s <= c.u)) by (nonlinear_arith)
                requires
                    c.s >= 1,
            {
                if c.u % c.s != 0 {
                    assert(c.s >= 2);
                    assert(c.u >= 1);
                }
            }
        }
        let extra: u32 = if spine < c.u % c.s {
            1
        } else {
            0
        };
        if extra == 1 {
            assert(c.u % c.s > 0);
            assert(c.u / c.s + 1 <= c.u) by (nonlinear_arith)
                requires
                    c.s >= 1,
                    c.u % c.s > 0,
            {
                assert(c.s >= 2);
            }
        } else {
            assert(c.u / c.s <= c.u) by (nonlinear_arith)
                requires
                    c.s >= 1,
            ;
        }
        c.u / c.s + extra
    } else {
        assert(leaf as nat * c.u as nat + c.u as nat <= u32::MAX) by (nonlinear_arith)
            requires
                leaf < c.l,
                c.l as nat * c.u as nat <= u32::MAX,
        ;
        let base = leaf * c.u;
        let mut cnt: u32 = 0;
        let mut i: u32 = 0;
        while i < c.u
            invariant
                i <= c.u,
                base == leaf * c.u,
                base as nat + c.u as nat <= u32::MAX,
                c.s >= 1,
                !c.full,
                cnt == count_hits(base as nat, c.s as nat, spine as nat, i as nat),
                cnt <= i,
            decreases c.u - i,
        {
            if (base + i) % c.s == spine {
                cnt = cnt + 1;
            }
            i = i + 1;
        }
        cnt
    }
}

/// How many of the first `k` spines `x` is: `1` when `x < k`.
pub open spec fn hit_upto(x: nat, k: nat) -> nat {
    if x < k {
        1
    } else {
        0
    }
}

/// `sum_{spine < k} cable_count(leaf, spine)`.
pub open spec fn cables_upto(c: Shape, leaf: nat, k: nat) -> nat
    decreases k,
{
    if k == 0 {
        0
    } else {
        cables_upto(c, leaf, (k - 1) as nat) + cable_count(c, leaf, (k - 1) as nat)
    }
}

/// `sum_{spine < k} count_hits(base, s, spine, m)`.
pub open spec fn hits_upto(base: nat, s: nat, k: nat, m: nat) -> nat
    decreases k,
{
    if k == 0 {
        0
    } else {
        hits_upto(base, s, (k - 1) as nat, m) + count_hits(base, s, (k - 1) as nat, m)
    }
}

proof fn lemma_hits_step(base: nat, s: nat, k: nat, m: nat)
    requires
        s >= 1,
    ensures
        hits_upto(base, s, k, m + 1) == hits_upto(base, s, k, m) + hit_upto(
            (base + m) % s,
            k,
        ),
    decreases k,
{
    if k > 0 {
        lemma_hits_step(base, s, (k - 1) as nat, m);
    }
}

proof fn lemma_hits_zero(base: nat, s: nat, k: nat)
    ensures
        hits_upto(base, s, k, 0) == 0,
    decreases k,
{
    if k > 0 {
        lemma_hits_zero(base, s, (k - 1) as nat);
    }
}

proof fn lemma_hits_total(base: nat, s: nat, m: nat)
    requires
        s >= 1,
    ensures
        hits_upto(base, s, s, m) == m,
    decreases m,
{
    if m == 0 {
        lemma_hits_zero(base, s, s);
    } else {
        lemma_hits_total(base, s, (m - 1) as nat);
        lemma_hits_step(base, s, s, (m - 1) as nat);
        let x = (base + (m - 1) as nat) % s;
        assert(x < s) by (nonlinear_arith)
            requires
                x == (base + (m - 1) as nat) % s,
                s >= 1,
        ;
        assert(hit_upto(x, s) == 1);
    }
}

proof fn lemma_full_upto(c: Shape, leaf: nat, k: nat)
    requires
        c.full,
        c.s >= 1,
        k <= c.s,
    ensures
        cables_upto(c, leaf, k) == k * (c.u / c.s) as nat + if k < c.u % c.s {
            k
        } else {
            (c.u % c.s) as nat
        },
    decreases k,
{
    if k > 0 {
        lemma_full_upto(c, leaf, (k - 1) as nat);
        let q = (c.u / c.s) as nat;
        assert(k * q == (k - 1) * q + q) by (nonlinear_arith)
            requires
                k >= 1,
        ;
        let r = (c.u % c.s) as nat;
        let km1 = (k - 1) as nat;
        assert(km1 == k - 1);
        let prev = cables_upto(c, leaf, km1);
        assert(cables_upto(c, leaf, k) == prev + cable_count(c, leaf, (k - 1) as nat));
        let cur = cables_upto(c, leaf, k);
        assert(km1 * q + q == k * q) by (nonlinear_arith)
            requires
                km1 + 1 == k,
        ;
        if k - 1 < r {
            assert(cable_count(c, leaf, (k - 1) as nat) == q + 1);
            assert(prev == km1 * q + km1);
            assert(cur == k * q + if k < r { k } else { r });
        } else {
            assert(cable_count(c, leaf, (k - 1) as nat) == q);
            assert(prev == km1 * q + r);
            assert(cur == k * q + if k < r { k } else { r });
        }
    } else {
        assert(k * ((c.u / c.s) as nat) == 0) by (nonlinear_arith)
            requires
                k == 0,
        ;
    }
}

proof fn lemma_hits_eq_upto(c: Shape, leaf: nat, k: nat)
    requires
        !c.full,
    ensures
        cables_upto(c, leaf, k) == hits_upto(leaf * (c.u as nat), c.s as nat, k, c.u as nat),
    decreases k,
{
    if k > 0 {
        lemma_hits_eq_upto(c, leaf, (k - 1) as nat);
    }
}

/// Every leaf has exactly `U` up cables.
pub proof fn lemma_leaf_has_u_cables(c: Shape, leaf: nat)
    requires
        c.s >= 1,
    ensures
        cables_upto(c, leaf, c.s as nat) == c.u,
{
    if c.full {
        lemma_full_upto(c, leaf, c.s as nat);
        assert(c.s * (c.u / c.s) + c.u % c.s == c.u) by (nonlinear_arith)
            requires
                c.s >= 1,
        ;
    } else {
        lemma_hits_eq_upto(c, leaf, c.s as nat);
        lemma_hits_total(leaf * (c.u as nat), c.s as nat, c.u as nat);
    }
}

pub(crate) proof fn lemma_leaf_pairs_len(c: Shape, leaf: nat, k: nat)
    ensures
        leaf_pairs(c, leaf, k).len() == cables_upto(c, leaf, k),
    decreases k,
{
    if k > 0 {
        lemma_leaf_pairs_len(c, leaf, (k - 1) as nat);
    }
}

pub(crate) proof fn lemma_all_cables_len(c: Shape, m: nat)
    requires
        c.s >= 1,
    ensures
        all_cables(c, m).len() == m * c.u,
    decreases m,
{
    if m > 0 {
        lemma_all_cables_len(c, (m - 1) as nat);
        lemma_leaf_pairs_len(c, (m - 1) as nat, c.s as nat);
        lemma_leaf_has_u_cables(c, (m - 1) as nat);
        let lc = leaf_pairs(c, (m - 1) as nat, c.s as nat);
        assert(all_cables(c, m) == all_cables(c, (m - 1) as nat) + lc);
        assert(all_cables(c, m).len() == all_cables(c, (m - 1) as nat).len() + lc.len());
        let mm1 = (m - 1) as nat;
        let total = all_cables(c, m).len();
        let prev = all_cables(c, mm1).len();
        let uu = c.u as nat;
        assert(prev == mm1 * uu);
        assert(lc.len() == uu);
        assert(total == m * uu) by (nonlinear_arith)
            requires
                total == prev + uu,
                prev == mm1 * uu,
                mm1 + 1 == m,
        ;
    } else {
        assert(m * c.u == 0) by (nonlinear_arith)
            requires
                m == 0,
        ;
    }
}

} // verus!
