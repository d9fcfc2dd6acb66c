//! Building the graph: the rules on the parameters, then nodes, GPUs, leaves,
//! spines and links in their documented order.
use vstd::prelude::*;

use crate::clos::{
    all_cables, built_from, cable_count, cable_ends, cables_upto, compute_shape, count_cables,
    host_ends, lemma_all_cables_len, lemma_leaf_has_u_cables, lemma_leaf_pairs_len,
    lemma_shape_facts, leaf_pairs, spec_n, link_ends, links_fit, mk_link, oversub_ok, rules_ok,
    spec_capacity, spec_l, spec_params, spec_shape, spec_u, spec_valid, Shape, TopoSpec,
    DEFAULT_BUFFER_BYTES, DEFAULT_DOWN, DEFAULT_LEAF_RADIX, DEFAULT_PORT_SPEED_GBPS,
    DEFAULT_SCRATCH_PPM, FULL_FILL_PPM,
};
use crate::text::{decimal, ppm_text, spec_decimal, spec_ppm_text};
use crate::topo::{ceil_div, lemma_ceil_div_le, Gpu, Graph, Leaf, Link, Node, Spine, TopoError, TopoParams};
use crate::types::{
    Endpoint, EpochId, GpuAvail, GpuId, LeafId, LinkId, NicId, NodeId, RailId, SpineId,
};

verus! {

fn build_nodes(c: &Shape) -> (nodes: Vec<Node>)
    requires
        c.n * c.r <= u32::MAX,
    ensures
        nodes@.len() == c.n,
        forall|ni: int|
            0 <= ni < c.n ==> {
                &&& (#[trigger] nodes@[ni]).id == NodeId(ni as u32)
                &&& nodes@[ni].present
                &&& nodes@[ni].gpus@ == Seq::new(c.r as nat, |ri: int| GpuId((ni * c.r + ri) as u32))
            },
{
    let mut nodes: Vec<Node> = Vec::new();
    let mut ni: u32 = 0;
    while ni < c.n
        invariant
            ni <= c.n,
            c.n * c.r <= u32::MAX,
            nodes@.len() == ni,
            forall|k: int|
                0 <= k < ni ==> {
                    &&& (#[trigger] nodes@[k]).id == NodeId(k as u32)
                    &&& nodes@[k].present
                    &&& nodes@[k].gpus@ == Seq::new(c.r as nat, |ri: int| GpuId((k * c.r + ri) as u32))
                },
        decreases c.n - ni,
    {
        assert(ni * c.r + c.r <= c.n * c.r) by (nonlinear_arith)
            requires
                ni < c.n,
        ;
        let mut node_gpus: Vec<GpuId> = Vec::new();
        let mut ri: u32 = 0;
        while ri < c.r
            invariant
                ri <= c.r,
                ni * c.r + c.r <= u32::MAX,
                node_gpus@.len() == ri,
                forall|k: int| 0 <= k < ri ==> #[trigger] node_gpus@[k] == GpuId((ni * c.r + k) as u32),
            decreases c.r - ri,
        {
            node_gpus.push(GpuId(ni * c.r + ri));
            ri = ri + 1;
        }
        assert(node_gpus@ =~= Seq::new(c.r as nat, |k: int| GpuId((ni * c.r + k) as u32)));
        nodes.push(Node { id: NodeId(ni), gpus: node_gpus, present: true });
        ni = ni + 1;
    }
    nodes
}

fn build_gpus(c: &Shape, g_tot: u32) -> (gpus: Vec<Gpu>)
    requires
        1 <= c.r <= 255,
    ensures
        gpus@.len() == g_tot,
        forall|gi: int|
            0 <= gi < g_tot ==> #[trigger] gpus@[gi] == (Gpu {
                id: GpuId(gi as u32),
                node: NodeId((gi / (c.r as int)) as u32),
                rail: RailId((gi % (c.r as int)) as u8),
                nic: NicId(gi as u32),
                avail: GpuAvail::Present,
            }),
{
    let mut gpus: Vec<Gpu> = Vec::new();
    let mut gi: u32 = 0;
    while gi < g_tot
        invariant
            gi <= g_tot,
            1 <= c.r <= 255,
            gpus@.len() == gi,
            forall|k: int|
                0 <= k < gi ==> #[trigger] gpus@[k] == (Gpu {
                    id: GpuId(k as u32),
                    node: NodeId((k / (c.r as int)) as u32),
                    rail: RailId((k % (c.r as int)) as u8),
                    nic: NicId(k as u32),
                    avail: GpuAvail::Present,
                }),
        decreases g_tot - gi,
    {
        let rail = gi % c.r;
        assert(rail < 255);
        gpus.push(
            Gpu {
                id: GpuId(gi),
                node: NodeId(gi / c.r),
                rail: RailId(rail as u8),
                nic: NicId(gi),
                avail: GpuAvail::Present,
            },
        );
        gi = gi + 1;
    }
    gpus
}

fn build_leaves(c: &Shape) -> (leaves: Vec<Leaf>)
    requires
        c.l == c.r * c.ng,
        c.r <= 255,
    ensures
        leaves@.len() == c.l,
        forall|li: int|
            0 <= li < c.l ==> #[trigger] leaves@[li] == (Leaf {
                id: LeafId(li as u32),
                rail: RailId((li / (c.ng as int)) as u8),
                group: (li % (c.ng as int)) as u32,
                failed: false,
            }),
{
    let mut leaves: Vec<Leaf> = Vec::new();
    let mut li: u32 = 0;
    while li < c.l
        invariant
            li <= c.l,
            c.l == c.r * c.ng,
            c.r <= 255,
            leaves@.len() == li,
            forall|k: int|
                0 <= k < li ==> #[trigger] leaves@[k] == (Leaf {
                    id: LeafId(k as u32),
                    rail: RailId((k / (c.ng as int)) as u8),
                    group: (k % (c.ng as int)) as u32,
                    failed: false,
                }),
        decreases c.l - li,
    {
        assert(c.ng >= 1 && li / c.ng < c.r) by (nonlinear_arith)
            requires
                li < c.l,
                c.l == c.r * c.ng,
        ;
        let rail = li / c.ng;
        leaves.push(Leaf { id: LeafId(li), rail: RailId(rail as u8), group: li % c.ng, failed: false });
        li = li + 1;
    }
    leaves
}

fn build_spines(s: u32) -> (spines: Vec<Spine>)
    ensures
        spines@.len() == s,
        forall|si: int| 0 <= si < s ==> #[trigger] spines@[si] == (Spine { id: SpineId(si as u32), failed: false }),
{
    let mut spines: Vec<Spine> = Vec::new();
    let mut si: u32 = 0;
    while si < s
        invariant
            si <= s,
            spines@.len() == si,
            forall|k: int| 0 <= k < si ==> #[trigger] spines@[k] == (Spine { id: SpineId(k as u32), failed: false }),
        decreases s - si,
    {
        spines.push(Spine { id: SpineId(si), failed: false });
        si = si + 1;
    }
    spines
}

fn push_link(links: &mut Vec<Link>, t: &TopoSpec, cap: u64, src: Endpoint, dst: Endpoint)
    requires
        old(links)@.len() <= u32::MAX,
        cap == spec_capacity(*t),
    ensures
        final(links)@ == old(links)@.push(mk_link(*t, old(links)@.len(), (src, dst))),
{
    let id = links.len() as u32;
    links.push(
        Link {
            id: LinkId(id),
            src,
            dst,
            capacity_Bps: cap,
            scratch_ppm: t.scratch_ppm,
            failed: false,
            bytes_this_epoch: 0,
        },
    );
}

proof fn lemma_group_below(ni: nat, n: nat, d: nat)
    requires
        ni < n,
        d >= 1,
    ensures
        ni / d < ceil_div(n, d),
{
    let q = ((n + d - 1) as nat) / d;
    assert(q * d + ((n + d - 1) as nat) % d == n + d - 1) by (nonlinear_arith)
        requires
            d >= 1,
            q == ((n + d - 1) as nat) / d,
    ;
    assert((ni / d) * d <= ni) by (nonlinear_arith)
        requires
            d >= 1,
    ;
    assert(((n + d - 1) as nat) % d < d) by (nonlinear_arith)
        requires
            d >= 1,
    ;
    assert(ni / d < q) by (nonlinear_arith)
        requires
            q * d >= n,
            (ni / d) * d <= ni,
            ni < n,
            d >= 1,
    ;
}

fn build_host_links(t: &TopoSpec, c: &Shape, cap: u64, links: &mut Vec<Link>)
    requires
        spec_valid(*t),
        *c == spec_shape(*t),
        cap == spec_capacity(*t),
        old(links)@.len() == 0,
    ensures
        final(links)@.len() == 2 * t.gpus,
        forall|j: int|
            0 <= j < 2 * t.gpus ==> #[trigger] final(links)@[j] == mk_link(*t, j as nat, host_ends(*c, j as nat)),
{
    proof {
        lemma_shape_facts(*t);
    }
    let mut g: u32 = 0;
    while g < t.gpus
        invariant
            g <= t.gpus,
            spec_valid(*t),
            *c == spec_shape(*t),
            cap == spec_capacity(*t),
            c.n * c.r == t.gpus,
            c.l == c.r * c.ng,
            1 <= c.r <= 255,
            c.d >= 1,
            c.ng == ceil_div(c.n as nat, c.d as nat),
            2 * t.gpus <= u32::MAX,
            links@.len() == 2 * g,
            forall|j: int| 0 <= j < 2 * g ==> #[trigger] links@[j] == mk_link(*t, j as nat, host_ends(*c, j as nat)),
        decreases t.gpus - g,
    {
        let ni = g / c.r;
        let ri = g % c.r;
        assert(ni < c.n) by (nonlinear_arith)
            requires
                g < t.gpus,
                c.n * c.r == t.gpus,
                ni == g / c.r,
                c.r >= 1,
        ;
        proof {
            lemma_group_below(ni as nat, c.n as nat, c.d as nat);
        }
        assert(ri * c.ng + ni / c.d < c.l) by (nonlinear_arith)
            requires
                ri < c.r,
                ni / c.d < c.ng,
                c.l == c.r * c.ng,
        ;
        let leaf = LeafId(ri * c.ng + ni / c.d);
        let ghost before = links@;
        push_link(links, t, cap, Endpoint::Nic(NicId(g)), Endpoint::Leaf(leaf));
        push_link(links, t, cap, Endpoint::Leaf(leaf), Endpoint::Nic(NicId(g)));
        assert(host_ends(*c, (2 * g) as nat) == (Endpoint::Nic(NicId(g)), Endpoint::Leaf(leaf)));
        assert(host_ends(*c, (2 * g + 1) as nat) == (Endpoint::Leaf(leaf), Endpoint::Nic(NicId(g))));
        assert forall|j: int| 0 <= j < 2 * (g + 1) implies #[trigger] links@[j] == mk_link(
            *t,
            j as nat,
            host_ends(*c, j as nat),
        ) by {
            if j < 2 * g {
                assert(links@[j] == before[j]);
            }
        }
        g = g + 1;
    }
}

proof fn lemma_upto_mono(c: Shape, leaf: nat, a: nat, b: nat)
    requires
        a <= b,
    ensures
        cables_upto(c, leaf, a) <= cables_upto(c, leaf, b),
    decreases b,
{
    if a < b {
        lemma_upto_mono(c, leaf, a, (b - 1) as nat);
    }
}

/// Number of cables emitted before cable `k` to `spine` of `leaf`, and the bound
/// that keeps link numbers in `u32`.
proof fn lemma_cable_room(c: Shape, leaf: nat, spine: nat, k: nat)
    requires
        c.s >= 1,
        leaf < c.l,
        spine < c.s,
        k < cable_count(c, leaf, spine),
        c.l * c.u <= u32::MAX,
    ensures
        all_cables(c, leaf).len() + leaf_pairs(c, leaf, spine).len() + k + 1 <= c.l * c.u,
{
    lemma_all_cables_len(c, leaf);
    lemma_leaf_pairs_len(c, leaf, spine);
    lemma_upto_mono(c, leaf, spine + 1, c.s as nat);
    lemma_leaf_has_u_cables(c, leaf);
    assert(cables_upto(c, leaf, spine + 1) == cables_upto(c, leaf, spine) + cable_count(c, leaf, spine));
    assert(leaf * c.u + c.u <= c.l * c.u) by (nonlinear_arith)
        requires
            leaf < c.l,
    ;
}

fn build_ls_links(t: &TopoSpec, c: &Shape, cap: u64, links: &mut Vec<Link>)
    requires
        spec_valid(*t),
        *c == spec_shape(*t),
        cap == spec_capacity(*t),
        old(links)@.len() == 2 * t.gpus,
    ensures
        final(links)@.len() == 2 * t.gpus + 2 * all_cables(*c, c.l as nat).len(),
        forall|j: int| 0 <= j < 2 * t.gpus ==> #[trigger] final(links)@[j] == old(links)@[j],
        forall|j: int|
            2 * t.gpus <= j < final(links)@.len() ==> #[trigger] final(links)@[j] == mk_link(
                *t,
                j as nat,
                cable_ends(all_cables(*c, c.l as nat)[(j - 2 * t.gpus) / 2], (j - 2 * t.gpus) % 2 == 1),
            ),
{
    proof {
        lemma_shape_facts(*t);
    }
    let ghost h: int = 2 * t.gpus;
    let ghost host = links@;
    let ghost mut cur: Seq<(u32, u32)> = Seq::empty();
    let mut leaf: u32 = 0;
    while leaf < c.l
        invariant
            leaf <= c.l,
            h == 2 * t.gpus,
            *c == spec_shape(*t),
            cap == spec_capacity(*t),
            h + 2 * c.l * c.u <= u32::MAX,
            c.l * c.u <= u32::MAX,
            c.l >= 1 ==> c.s >= 1,
            host.len() == h,
            cur == all_cables(*c, leaf as nat),
            links@.len() == h + 2 * cur.len(),
            forall|j: int| 0 <= j < h ==> #[trigger] links@[j] == host[j],
            forall|j: int|
                h <= j < links@.len() ==> #[trigger] links@[j] == mk_link(
                    *t,
                    j as nat,
                    cable_ends(cur[(j - h) / 2], (j - h) % 2 == 1),
                ),
        decreases c.l - leaf,
    {
        let mut spine: u32 = 0;
        while spine < c.s
            invariant
                spine <= c.s,
                leaf < c.l,
                c.s >= 1,
                h == 2 * t.gpus,
                *c == spec_shape(*t),
                cap == spec_capacity(*t),
                h + 2 * c.l * c.u <= u32::MAX,
                c.l * c.u <= u32::MAX,
                host.len() == h,
                cur == all_cables(*c, leaf as nat) + leaf_pairs(*c, leaf as nat, spine as nat),
                links@.len() == h + 2 * cur.len(),
                forall|j: int| 0 <= j < h ==> #[trigger] links@[j] == host[j],
                forall|j: int|
                    h <= j < links@.len() ==> #[trigger] links@[j] == mk_link(
                        *t,
                        j as nat,
                        cable_ends(cur[(j - h) / 2], (j - h) % 2 == 1),
                    ),
            decreases c.s - spine,
        {
            let cnt = count_cables(c, leaf, spine);
            let mut k: u32 = 0;
            while k < cnt
                invariant
                    k <= cnt,
                    cnt == cable_count(*c, leaf as nat, spine as nat),
                    spine < c.s,
                    leaf < c.l,
                    c.s >= 1,
                    h == 2 * t.gpus,
                    cap == spec_capacity(*t),
                    h + 2 * c.l * c.u <= u32::MAX,
                    c.l * c.u <= u32::MAX,
                    host.len() == h,
                    cur == all_cables(*c, leaf as nat) + leaf_pairs(*c, leaf as nat, spine as nat)
                        + Seq::new(k as nat, |i: int| (leaf, spine)),
                    links@.len() == h + 2 * cur.len(),
                    forall|j: int| 0 <= j < h ==> #[trigger] links@[j] == host[j],
                    forall|j: int|
                        h <= j < links@.len() ==> #[trigger] links@[j] == mk_link(
                            *t,
                            j as nat,
                            cable_ends(cur[(j - h) / 2], (j - h) % 2 == 1),
                        ),
                decreases cnt - k,
            {
                proof {
                    lemma_cable_room(*c, leaf as nat, spine as nat, k as nat);
                    assert(2 * (c.l * c.u) == 2 * c.l * c.u) by (nonlinear_arith);
                }
                let ghost before = links@;
                let ghost old_cur = cur;
                push_link(
                    links,
                    t,
                    cap,
                    Endpoint::Leaf(LeafId(leaf)),
                    Endpoint::Spine(SpineId(spine)),
                );
                push_link(
                    links,
                    t,
                    cap,
                    Endpoint::Spine(SpineId(spine)),
                    Endpoint::Leaf(LeafId(leaf)),
                );
                proof {
                    cur = cur.push((leaf, spine));
                    assert(cur =~= all_cables(*c, leaf as nat) + leaf_pairs(*c, leaf as nat, spine as nat)
                        + Seq::new((k + 1) as nat, |i: int| (leaf, spine)));
                    assert forall|j: int| h <= j < links@.len() implies #[trigger] links@[j] == mk_link(
                        *t,
                        j as nat,
                        cable_ends(cur[(j - h) / 2], (j - h) % 2 == 1),
                    ) by {
                        if j < before.len() {
                            assert(links@[j] == before[j]);
                            assert(cur[(j - h) / 2] == old_cur[(j - h) / 2]);
                        }
                    }
                }
                k = k + 1;
            }
            proof {
                assert(leaf_pairs(*c, leaf as nat, (spine + 1) as nat) == leaf_pairs(*c, leaf as nat, spine as nat)
                    + Seq::new(cable_count(*c, leaf as nat, spine as nat), |i: int| (leaf, spine)));
                assert(cur =~= all_cables(*c, leaf as nat) + leaf_pairs(*c, leaf as nat, (spine + 1) as nat));
            }
            spine = spine + 1;
        }
        proof {
            assert(cur =~= all_cables(*c, (leaf + 1) as nat));
        }
        leaf = leaf + 1;
    }
}

/// The message of the first rule that `t` breaks, in the order the rules are
/// checked: fill, rails, divisibility by rails, oversubscription, port counts,
/// divisibility by oversubscription.
pub open spec fn rule_message(t: TopoSpec) -> Seq<char> {
    if t.fill_ppm != FULL_FILL_PPM {
        "fill must be 1.0, got "@ + spec_ppm_text(t.fill_ppm as nat)
    } else if !(1 <= t.rails <= 255) {
        "rails must be in 1..=255"@
    } else if t.gpus % t.rails != 0 {
        "gpus "@ + spec_decimal(t.gpus as nat) + " not divisible by rails "@ + spec_decimal(
            t.rails as nat,
        )
    } else if !oversub_ok(t.oversub) {
        "oversub must be one of [1, 2, 4, 8, 16, 32], got "@ + spec_decimal(t.oversub as nat)
    } else if t.down == 0 || t.leaf_radix == 0 {
        "down and leaf_radix must be > 0"@
    } else {
        "down "@ + spec_decimal(t.down as nat) + " not divisible by oversub "@ + spec_decimal(
            t.oversub as nat,
        )
    }
}

/// Check the rules on the parameters; the error names the first one broken.
pub fn check_rules(t: &TopoSpec) -> (r: Result<(), TopoError>)
    ensures
        r is Ok <==> rules_ok(*t),
        r matches Err(e) ==> e matches TopoError::Illegal(m) && m@ == rule_message(*t),
{
    if t.fill_ppm != FULL_FILL_PPM {
        let m = String::from_str("fill must be 1.0, got ").concat(ppm_text(t.fill_ppm).as_str());
        return Err(TopoError::Illegal(m));
    }
    if t.rails == 0 || t.rails > 255 {
        return Err(TopoError::Illegal(String::from_str("rails must be in 1..=255")));
    }
    if t.gpus % t.rails != 0 {
        let m = String::from_str("gpus ").concat(decimal(t.gpus as u128).as_str()).concat(
            " not divisible by rails ",
        ).concat(decimal(t.rails as u128).as_str());
        return Err(TopoError::Illegal(m));
    }
    let k = t.oversub;
    if !(k == 1 || k == 2 || k == 4 || k == 8 || k == 16 || k == 32) {
        let m = String::from_str("oversub must be one of [1, 2, 4, 8, 16, 32], got ").concat(
            decimal(k as u128).as_str(),
        );
        return Err(TopoError::Illegal(m));
    }
    if t.down == 0 || t.leaf_radix == 0 {
        return Err(TopoError::Illegal(String::from_str("down and leaf_radix must be > 0")));
    }
    if t.down % k != 0 {
        let m = String::from_str("down ").concat(decimal(t.down as u128).as_str()).concat(
            " not divisible by oversub ",
        ).concat(decimal(k as u128).as_str());
        return Err(TopoError::Illegal(m));
    }
    Ok(())
}

/// Whether the links of a spec that passes the rules can be numbered in `u32`
/// (always, for one that breaks a rule: it builds nothing).
pub fn link_ids_fit(t: &TopoSpec) -> (b: bool)
    ensures
        b == (rules_ok(*t) ==> links_fit(*t)),
{
    if check_rules(t).is_err() {
        return true;
    }
    proof {
        lemma_ceil_div_le(spec_n(*t), t.down as nat);
    }
    let n = (t.gpus / t.rails) as u128;
    let u = (t.down / t.oversub) as u128;
    let d = t.down as u128;
    let ng = (n + d - 1) / d;
    assert(ng == ceil_div(spec_n(*t), t.down as nat));
    assert(ng <= u32::MAX);
    assert((t.rails as u128) * ng <= 255 * 0x1_0000_0000) by (nonlinear_arith)
        requires
            t.rails <= 255,
            ng <= u32::MAX,
    ;
    let l = (t.rails as u128) * ng;
    assert(l == spec_l(*t));
    assert(l * u <= 255 * 0x1_0000_0000 * 0x1_0000_0000) by (nonlinear_arith)
        requires
            l <= 255 * 0x1_0000_0000,
            u <= u32::MAX,
    ;
    let lu = l * u;
    assert(lu == spec_l(*t) * spec_u(*t));
    assert(2 * spec_l(*t) * spec_u(*t) == 2 * (spec_l(*t) * spec_u(*t))) by (nonlinear_arith);
    2 * (t.gpus as u128) + 2 * lu <= u32::MAX as u128
}

/// Defaults of every parameter the command line does not set.
pub open spec fn default_spec(g_tot: u32, rails: u32, oversub: u32) -> TopoSpec {
    TopoSpec {
        gpus: g_tot,
        rails,
        oversub,
        leaf_radix: DEFAULT_LEAF_RADIX,
        down: DEFAULT_DOWN,
        port_speed_gbps: DEFAULT_PORT_SPEED_GBPS,
        scratch_ppm: DEFAULT_SCRATCH_PPM,
        fill_ppm: FULL_FILL_PPM,
        allow_cross_rail: true,
        buffer_bytes: DEFAULT_BUFFER_BYTES,
        buffer_infinite: false,
    }
}

impl Graph {
    /// The rail-optimized Clos that a valid spec describes: nodes, GPUs,
    /// leaves, spines, then host links and leaf-to-spine links, at epoch zero.
    fn build(t: &TopoSpec) -> (g: Graph)
        requires
            spec_valid(*t),
        ensures
            built_from(g, *t),
    {
        proof {
            lemma_shape_facts(*t);
        }
        let c = compute_shape(t);
        let params = TopoParams {
            nodes: c.n,
            gpus_per_node: c.r,
            rails: c.r,
            leaf_radix: c.p,
            down: c.d,
            up: c.u,
            port_speed_gbps: t.port_speed_gbps,
            scratch_ppm: t.scratch_ppm,
            fill_ppm: t.fill_ppm,
            allow_cross_rail: t.allow_cross_rail,
            buffer_bytes: t.buffer_bytes,
            buffer_infinite: t.buffer_infinite,
        };
        let nodes = build_nodes(&c);
        let gpus = build_gpus(&c, t.gpus);
        let leaves = build_leaves(&c);
        let spines = build_spines(c.s);
        let cap = (t.port_speed_gbps as u64) * 1_000_000_000 / 8;
        let mut links: Vec<Link> = Vec::new();
        build_host_links(t, &c, cap, &mut links);
        let ghost host = links@;
        build_ls_links(t, &c, cap, &mut links);
        proof {
            if c.l >= 1 {
                lemma_all_cables_len(c, c.l as nat);
            }
            assert(all_cables(c, c.l as nat).len() == c.l * c.u) by {
                if c.l == 0 {
                    assert(c.l * c.u == 0) by (nonlinear_arith)
                        requires
                            c.l == 0,
                    ;
                }
            }
            assert(2 * c.l * c.u == 2 * (c.l * c.u)) by (nonlinear_arith);
            assert(2 * c.n * c.r == 2 * t.gpus) by (nonlinear_arith)
                requires
                    c.n * c.r == t.gpus,
            ;
            assert forall|i: int| 0 <= i < links@.len() implies #[trigger] links@[i] == mk_link(
                *t,
                i as nat,
                link_ends(c, i as nat),
            ) by {
                if i < 2 * t.gpus {
                    assert(links@[i] == host[i]);
                }
            }
        }
        Graph { epoch: EpochId(0), params, nodes, gpus, leaves, spines, links }
    }

    /// Build the rail-optimized Clos that `t` describes, or name the first rule it
    /// breaks.
    pub fn from_spec(t: &TopoSpec) -> (r: Result<Graph, TopoError>)
        requires
            rules_ok(*t) ==> links_fit(*t),
        ensures
            match r {
                Ok(g) => rules_ok(*t) && built_from(g, *t),
                Err(e) => !rules_ok(*t) && (e matches TopoError::Illegal(m) && m@ == rule_message(*t)),
            },
    {
        match check_rules(t) {
            Err(e) => Err(e),
            Ok(()) => Ok(Graph::build(t)),
        }
    }

    /// The command-line topology: `g_tot` GPUs on `rails` rails, oversubscription
    /// `oversub`, every other parameter at its default.
    pub fn generate(g_tot: u32, rails: u32, oversub: u32) -> (r: Result<Graph, TopoError>)
        requires
            rules_ok(default_spec(g_tot, rails, oversub)) ==> links_fit(default_spec(g_tot, rails, oversub)),
        ensures
            match r {
                Ok(g) => rules_ok(default_spec(g_tot, rails, oversub)) && built_from(
                    g,
                    default_spec(g_tot, rails, oversub),
                ),
                Err(e) => !rules_ok(default_spec(g_tot, rails, oversub)) && (e matches TopoError::Illegal(
                    m,
                ) && m@ == rule_message(default_spec(g_tot, rails, oversub))),
            },
    {
        let t = TopoSpec {
            gpus: g_tot,
            rails,
            oversub,
            leaf_radix: DEFAULT_LEAF_RADIX,
            down: DEFAULT_DOWN,
            port_speed_gbps: DEFAULT_PORT_SPEED_GBPS,
            scratch_ppm: DEFAULT_SCRATCH_PPM,
            fill_ppm: FULL_FILL_PPM,
            allow_cross_rail: true,
            buffer_bytes: DEFAULT_BUFFER_BYTES,
            buffer_infinite: false,
        };
        Graph::from_spec(&t)
    }

    /// A topology file's fields: its `kind` must name the rail-optimized two-tier
    /// Clos; the rest is built as by `from_spec`.
    pub fn from_file_fields(kind: &str, t: &TopoSpec) -> (r: Result<Graph, TopoError>)
        requires
            rules_ok(*t) ==> links_fit(*t),
        ensures
            kind@ != "rail_clos_2tier"@ ==> (r matches Err(TopoError::Schema(m)) && m@
                == "kind must be rail_clos_2tier, got "@ + kind@),
            kind@ == "rail_clos_2tier"@ ==> match r {
                Ok(g) => rules_ok(*t) && built_from(g, *t),
                Err(e) => !rules_ok(*t) && (e matches TopoError::Illegal(m) && m@ == rule_message(*t)),
            },
    {
        let expected = String::from_str("rail_clos_2tier");
        let given = String::from_str(kind);
        if given != expected {
            let m = String::from_str("kind must be rail_clos_2tier, got ").concat(kind);
            return Err(TopoError::Schema(m));
        }
        Graph::from_spec(t)
    }
}

} // verus!
