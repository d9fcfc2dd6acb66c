//! Rail-optimized two-tier Clos: the graph and its lookups.
use vstd::prelude::*;

use crate::text::{decimal, spec_decimal};
use crate::types::{
    Endpoint, EpochId, GpuAvail, GpuId, LeafId, LinkId, NicId, NodeId, RailId, SpineId,
};

verus! {

#[derive(Clone, Debug)]
pub struct Node {
    pub id: NodeId,
    /// One per rail, in local rank order.
    pub gpus: Vec<GpuId>,
    /// False once a delayed row has removed the node.
    pub present: bool,
}

#[derive(Copy, Clone, Debug, PartialEq, Eq, Structural)]
pub struct Gpu {
    pub id: GpuId,
    pub node: NodeId,
    pub rail: RailId,
    pub nic: NicId,
    /// Present or unavailable; occupancy is tracked elsewhere.
    pub avail: GpuAvail,
}

#[derive(Copy, Clone, Debug, PartialEq, Eq, Structural)]
pub struct Leaf {
    pub id: LeafId,
    pub rail: RailId,
    pub group: u32,
    pub failed: bool,
}

#[derive(Copy, Clone, Debug, PartialEq, Eq, Structural)]
pub struct Spine {
    pub id: SpineId,
    pub failed: bool,
}

/// A directed link. Capacity in bytes/s; the scratch share in parts per million
/// (5% is 50_000).
#[allow(non_snake_case)]
#[derive(Copy, Clone, Debug, PartialEq, Eq, Structural)]
pub struct Link {
    pub id: LinkId,
    pub src: Endpoint,
    pub dst: Endpoint,
    pub capacity_Bps: u64,
    pub scratch_ppm: u32,
    pub failed: bool,
    /// Bytes carried in the current epoch; zero on a failed link.
    pub bytes_this_epoch: u64,
}

/// Topology parameters. `scratch_ppm` and `fill_ppm` are fractions in parts per
/// million (5% is 50_000, 1.0 is 1_000_000).
#[derive(Copy, Clone, Debug, PartialEq, Eq, Structural)]
pub struct TopoParams {
    pub nodes: u32,
    pub gpus_per_node: u32,
    pub rails: u32,
    pub leaf_radix: u32,
    pub down: u32,
    pub up: u32,
    pub port_speed_gbps: u32,
    pub scratch_ppm: u32,
    pub fill_ppm: u32,
    pub allow_cross_rail: bool,
    pub buffer_bytes: u64,
    pub buffer_infinite: bool,
}

#[derive(Clone, Debug)]
pub struct Graph {
    pub epoch: EpochId,
    pub params: TopoParams,
    pub nodes: Vec<Node>,
    pub gpus: Vec<Gpu>,
    pub leaves: Vec<Leaf>,
    pub spines: Vec<Spine>,
    /// Index equals `LinkId.0`.
    pub links: Vec<Link>,
}

/// Construction or topology-file failure; the command line exits 2 on any.
#[derive(Clone, Debug, PartialEq, Eq)]
pub enum TopoError {
    Parse(String),
    Schema(String),
    Illegal(String),
}

impl TopoError {
    pub fn e_code(&self) -> (r: &'static str)
        ensures
            r@ == (match self {
                TopoError::Parse(_) => "E_PARSE"@,
                TopoError::Schema(_) => "E_SCHEMA"@,
                TopoError::Illegal(_) => "E_TOPO"@,
            }),
    {
        match self {
            TopoError::Parse(_) => "E_PARSE",
            TopoError::Schema(_) => "E_SCHEMA",
            TopoError::Illegal(_) => "E_TOPO",
        }
    }

    /// The message the error carries.
    pub fn message(&self) -> (r: String)
        ensures
            r@ == (match self {
                TopoError::Parse(m) => m@,
                TopoError::Schema(m) => m@,
                TopoError::Illegal(m) => m@,
            }),
    {
        match self {
            TopoError::Parse(m) | TopoError::Schema(m) | TopoError::Illegal(m) => m.clone(),
        }
    }
}

/// `ceil(a / b)`.
pub open spec fn ceil_div(a: nat, b: nat) -> nat
    recommends
        b > 0,
{
    ((a + b - 1) as nat) / b
}

/// `ceil(n / d) <= n` for `d >= 1`.
pub proof fn lemma_ceil_div_le(n: nat, d: nat)
    requires
        d >= 1,
    ensures
        ceil_div(n, d) <= n,
{
    if n == 0 {
        assert((d - 1) as nat / d == 0) by (nonlinear_arith)
            requires
                d >= 1,
        ;
    } else {
        assert((n + d - 1) as nat / d <= n) by (nonlinear_arith)
            requires
                d >= 1,
                n >= 1,
        {
            assert(n + d - 1 < (n + 1) * d);
        }
    }
}

/// Leaf groups: `ceil(nodes / down)`.
pub open spec fn spec_num_groups(p: TopoParams) -> nat {
    ceil_div(p.nodes as nat, p.down as nat)
}

/// The leaf a GPU's NIC is cabled to: `rail * groups + node / down`.
pub open spec fn spec_leaf_index(p: TopoParams, node: nat, rail: nat) -> nat {
    rail * spec_num_groups(p) + node / (p.down as nat)
}

/// The graph's own bookkeeping: links sit at their id, `down > 0`, and every
/// GPU's leaf index fits in `u32`.
pub open spec fn graph_wf(g: &Graph) -> bool {
    &&& g.params.down > 0
    &&& links_indexed(g)
    &&& forall|i: int|
        0 <= i < g.gpus@.len() ==> spec_leaf_index(
            g.params,
            (#[trigger] g.gpus@[i]).node.0 as nat,
            g.gpus@[i].rail.0 as nat,
        ) <= u32::MAX
}

/// Every link sits at the index of its id.
pub open spec fn links_indexed(g: &Graph) -> bool {
    forall|i: int| 0 <= i < g.links@.len() ==> (#[trigger] g.links@[i]).id.0 == i
}

/// The GPU with this id, found at its own index.
pub open spec fn spec_gpu(g: &Graph, id: GpuId) -> Option<Gpu> {
    if id.0 < g.gpus@.len() && g.gpus@[id.0 as int].id == id {
        Some(g.gpus@[id.0 as int])
    } else {
        None
    }
}

/// The link with this id, found at its own index.
pub open spec fn spec_link(g: &Graph, id: LinkId) -> Option<Link> {
    if id.0 < g.links@.len() && g.links@[id.0 as int].id == id {
        Some(g.links@[id.0 as int])
    } else {
        None
    }
}

/// The leaf of a GPU, when the GPU exists.
pub open spec fn spec_leaf_of(g: &Graph, id: GpuId) -> Option<LeafId> {
    match spec_gpu(g, id) {
        Some(x) => Some(LeafId(spec_leaf_index(g.params, x.node.0 as nat, x.rail.0 as nat) as u32)),
        None => None,
    }
}

/// `l` is the NIC's uplink to a leaf.
pub open spec fn is_host_up(l: Link, nic: NicId) -> bool {
    l.src == Endpoint::Nic(nic) && l.dst is Leaf
}

/// `l` is the NIC's downlink from a leaf.
pub open spec fn is_host_down(l: Link, nic: NicId) -> bool {
    l.dst == Endpoint::Nic(nic) && l.src is Leaf
}

/// The uplink test as a predicate.
pub open spec fn host_up_pred(nic: NicId) -> spec_fn(Link) -> bool {
    |l: Link| is_host_up(l, nic)
}

/// The downlink test as a predicate.
pub open spec fn host_down_pred(nic: NicId) -> spec_fn(Link) -> bool {
    |l: Link| is_host_down(l, nic)
}

/// `l` runs from `leaf` up to `spine`.
pub open spec fn is_up_to(l: Link, leaf: LeafId, spine: SpineId) -> bool {
    l.src == Endpoint::Leaf(leaf) && l.dst == Endpoint::Spine(spine)
}

/// `l` runs from `spine` down to `leaf`.
pub open spec fn is_down_from(l: Link, spine: SpineId, leaf: LeafId) -> bool {
    l.src == Endpoint::Spine(spine) && l.dst == Endpoint::Leaf(leaf)
}

/// Index of the first link with the property, if any.
pub open spec fn first_link_where(links: Seq<Link>, pred: spec_fn(Link) -> bool) -> Option<int>
    decreases links.len(),
{
    if links.len() == 0 {
        None
    } else if pred(links.last()) && first_link_where(links.drop_last(), pred) is None {
        Some(links.len() - 1)
    } else {
        first_link_where(links.drop_last(), pred)
    }
}

/// Ids of the links with the property, in link order.
pub open spec fn ids_where(links: Seq<Link>, pred: spec_fn(Link) -> bool) -> Seq<LinkId> {
    links.filter(pred).map_values(|l: Link| l.id)
}

pub(crate) proof fn lemma_first_link_where_step(links: Seq<Link>, pred: spec_fn(Link) -> bool, i: int)
    requires
        0 <= i < links.len(),
        forall|k: int| 0 <= k < i ==> !pred(#[trigger] links[k]),
    ensures
        pred(links[i]) ==> first_link_where(links.take(i + 1), pred) == Some(i),
        !pred(links[i]) ==> first_link_where(links.take(i + 1), pred) is None,
    decreases i,
{
    lemma_first_none(links, pred, i);
    assert(links.take(i + 1).drop_last() =~= links.take(i));
    assert(links.take(i + 1).last() == links[i]);
}

pub(crate) proof fn lemma_first_none(links: Seq<Link>, pred: spec_fn(Link) -> bool, i: int)
    requires
        0 <= i <= links.len(),
        forall|k: int| 0 <= k < i ==> !pred(#[trigger] links[k]),
    ensures
        first_link_where(links.take(i), pred) is None,
    decreases i,
{
    if i > 0 {
        lemma_first_none(links, pred, i - 1);
        assert(links.take(i).drop_last() =~= links.take(i - 1));
        assert(links.take(i).last() == links[i - 1]);
    }
}

pub(crate) proof fn lemma_first_found(links: Seq<Link>, pred: spec_fn(Link) -> bool, i: int, n: int)
    requires
        0 <= i < n <= links.len(),
        first_link_where(links.take(i + 1), pred) == Some(i),
    ensures
        first_link_where(links.take(n), pred) == Some(i),
    decreases n - i,
{
    if n > i + 1 {
        lemma_first_found(links, pred, i, n - 1);
        assert(links.take(n).drop_last() =~= links.take(n - 1));
    }
}

impl Graph {
    /// Undirected host cables: `nodes * rails`. Directed host links are twice that.
    pub fn e_host(&self) -> (r: u32)
        requires
            self.params.nodes * self.params.rails <= u32::MAX,
        ensures
            r == self.params.nodes * self.params.rails,
    {
        self.params.nodes * self.params.rails
    }

    /// Undirected leaf-spine cables: `leaves * up`. Directed links are twice that.
    pub fn e_ls(&self) -> (r: u32)
        requires
            self.leaves@.len() * self.params.up <= u32::MAX,
        ensures
            r == self.leaves@.len() * self.params.up,
    {
        if self.params.up == 0 {
            return 0;
        }
        proof {
            assert(self.leaves@.len() <= u32::MAX) by (nonlinear_arith)
                requires
                    self.leaves@.len() * self.params.up <= u32::MAX,
                    self.params.up >= 1,
            ;
        }
        (self.leaves.len() as u32) * self.params.up
    }

    /// Bisection bandwidth in Gb/s: `leaves * up * port_speed / 2`.
    pub fn b_bisect_gbps(&self) -> (r: u64)
        requires
            self.leaves@.len() * self.params.up * self.params.port_speed_gbps <= u64::MAX,
        ensures
            r == self.leaves@.len() * self.params.up * self.params.port_speed_gbps / 2,
    {
        let l = self.leaves.len() as u64;
        let u = self.params.up as u64;
        let p = self.params.port_speed_gbps as u64;
        if u == 0 || p == 0 {
            assert(self.leaves@.len() * self.params.up * self.params.port_speed_gbps == 0)
                by (nonlinear_arith)
                requires
                    u == 0 || p == 0,
                    u == self.params.up,
                    p == self.params.port_speed_gbps,
            ;
            return 0;
        }
        assert(l * u <= u64::MAX && l * u * p <= u64::MAX) by (nonlinear_arith)
            requires
                l * u * p <= u64::MAX,
                u >= 1,
                p >= 1,
        ;
        l * u * p / 2
    }

    pub fn gpu(&self, id: GpuId) -> (r: Option<&Gpu>)
        ensures
            r matches Some(x) ==> spec_gpu(self, id) == Some(*x),
            r is None ==> spec_gpu(self, id) is None,
    {
        if (id.0 as usize) < self.gpus.len() && self.gpus[id.0 as usize].id.0 == id.0 {
            Some(&self.gpus[id.0 as usize])
        } else {
            None
        }
    }

    /// Leaf groups: `ceil(nodes / down)`.
    pub fn num_groups(&self) -> (r: u32)
        requires
            self.params.down > 0,
        ensures
            r == spec_num_groups(self.params),
    {
        let n = self.params.nodes as u64;
        let d = self.params.down as u64;
        let r = (n + d - 1) / d;
        proof {
            lemma_ceil_div_le(n as nat, d as nat);
        }
        r as u32
    }

    pub fn leaf_of(&self, gpu: GpuId) -> (r: Option<LeafId>)
        requires
            graph_wf(self),
        ensures
            r == spec_leaf_of(self, gpu),
    {
        match self.gpu(gpu) {
            None => None,
            Some(g) => {
                let ng = self.num_groups();
                assert(self.gpus@[gpu.0 as int] == *g);
                assert(spec_leaf_index(self.params, g.node.0 as nat, g.rail.0 as nat) <= u32::MAX);
                let ghost q = g.node.0 / self.params.down;
                assert((g.rail.0 as u32) * ng <= u32::MAX) by (nonlinear_arith)
                    requires
                        (g.rail.0 as int) * (ng as int) + q <= u32::MAX,
                        q >= 0,
                ;
                Some(LeafId((g.rail.0 as u32) * ng + g.node.0 / self.params.down))
            },
        }
    }

    /// NIC to leaf host uplink of a GPU: the first such link.
    pub fn host_up(&self, gpu: GpuId) -> (r: Option<LinkId>)
        ensures
            r == (match first_link_where(self.links@, host_up_pred(NicId(gpu.0))) {
                Some(i) => Some(self.links@[i].id),
                None => None,
            }),
    {
        let nic = NicId(gpu.0);
        let ghost pred = host_up_pred(nic);
        let mut i: usize = 0;
        while i < self.links.len()
            invariant
                pred == host_up_pred(nic),
                nic == NicId(gpu.0),
                i <= self.links.len(),
                forall|k: int| 0 <= k < i ==> !pred(#[trigger] self.links@[k]),
            decreases self.links.len() - i,
        {
            let l = &self.links[i];
            let hit = match (l.src, l.dst) {
                (Endpoint::Nic(n), Endpoint::Leaf(_)) => n.0 == nic.0,
                _ => false,
            };
            assert(hit == pred(self.links@[i as int]));
            proof {
                lemma_first_link_where_step(self.links@, pred, i as int);
            }
            if hit {
                proof {
                    assert(first_link_where(self.links@.take(i + 1), pred) == Some(i as int));
                    lemma_first_found(self.links@, pred, i as int, self.links@.len() as int);
                    assert(self.links@.take(self.links@.len() as int) =~= self.links@);
                    assert(first_link_where(self.links@, pred) == Some(i as int));
                }
                return Some(l.id);
            }
            i = i + 1;
        }
        proof {
            lemma_first_none(self.links@, pred, i as int);
            assert(self.links@.take(i as int) =~= self.links@);
        }
        None
    }

    /// Leaf to NIC host downlink of a GPU: the first such link.
    pub fn host_down(&self, gpu: GpuId) -> (r: Option<LinkId>)
        ensures
            r == (match first_link_where(self.links@, host_down_pred(NicId(gpu.0))) {
                Some(i) => Some(self.links@[i].id),
                None => None,
            }),
    {
        let nic = NicId(gpu.0);
        let ghost pred = host_down_pred(nic);
        let mut i: usize = 0;
        while i < self.links.len()
            invariant
                pred == host_down_pred(nic),
                nic == NicId(gpu.0),
                i <= self.links.len(),
                forall|k: int| 0 <= k < i ==> !pred(#[trigger] self.links@[k]),
            decreases self.links.len() - i,
        {
            let l = &self.links[i];
            let hit = match (l.src, l.dst) {
                (Endpoint::Leaf(_), Endpoint::Nic(n)) => n.0 == nic.0,
                _ => false,
            };
            assert(hit == pred(self.links@[i as int]));
            proof {
                lemma_first_link_where_step(self.links@, pred, i as int);
            }
            if hit {
                proof {
                    assert(first_link_where(self.links@.take(i + 1), pred) == Some(i as int));
                    lemma_first_found(self.links@, pred, i as int, self.links@.len() as int);
                    assert(self.links@.take(self.links@.len() as int) =~= self.links@);
                    assert(first_link_where(self.links@, pred) == Some(i as int));
                }
                return Some(l.id);
            }
            i = i + 1;
        }
        proof {
            lemma_first_none(self.links@, pred, i as int);
            assert(self.links@.take(i as int) =~= self.links@);
        }
        None
    }

    pub fn link(&self, id: LinkId) -> (r: Option<&Link>)
        ensures
            r matches Some(x) ==> spec_link(self, id) == Some(*x),
            r is None ==> spec_link(self, id) is None,
    {
        if (id.0 as usize) < self.links.len() && self.links[id.0 as usize].id.0 == id.0 {
            Some(&self.links[id.0 as usize])
        } else {
            None
        }
    }

    /// Leaf to spine cables for `(leaf, spine)`, `LinkId` ascending.
    pub fn ups_to_spine(&self, leaf: LeafId, spine: SpineId) -> (r: Vec<LinkId>)
        requires
            graph_wf(self),
        ensures
            r@ == ids_where(self.links@, |l: Link| is_up_to(l, leaf, spine)),
            forall|a: int, b: int| 0 <= a < b < r@.len() ==> r@[a].0 < r@[b].0,
    {
        let ghost pred = |l: Link| is_up_to(l, leaf, spine);
        let mut out: Vec<LinkId> = Vec::new();
        let mut i: usize = 0;
        while i < self.links.len()
            invariant
                pred == (|l: Link| is_up_to(l, leaf, spine)),
                graph_wf(self),
                i <= self.links.len(),
                out@ == ids_where(self.links@.take(i as int), pred),
                forall|k: int| 0 <= k < out@.len() ==> #[trigger] out@[k].0 < i,
                forall|a: int, b: int| 0 <= a < b < out@.len() ==> out@[a].0 < out@[b].0,
            decreases self.links.len() - i,
        {
            let l = &self.links[i];
            let hit = match (l.src, l.dst) {
                (Endpoint::Leaf(a), Endpoint::Spine(b)) => a.0 == leaf.0 && b.0 == spine.0,
                _ => false,
            };
            assert(hit == pred(self.links@[i as int]));
            proof {
                lemma_ids_where_push(self.links@, pred, i as int);
            }
            if hit {
                out.push(l.id);
            }
            i = i + 1;
        }
        assert(self.links@.take(i as int) =~= self.links@);
        out
    }

    /// Spine to leaf cables for `(spine, leaf)`, `LinkId` ascending.
    pub fn downs_from_spine(&self, spine: SpineId, leaf: LeafId) -> (r: Vec<LinkId>)
        requires
            graph_wf(self),
        ensures
            r@ == ids_where(self.links@, |l: Link| is_down_from(l, spine, leaf)),
            forall|a: int, b: int| 0 <= a < b < r@.len() ==> r@[a].0 < r@[b].0,
    {
        let ghost pred = |l: Link| is_down_from(l, spine, leaf);
        let mut out: Vec<LinkId> = Vec::new();
        let mut i: usize = 0;
        while i < self.links.len()
            invariant
                pred == (|l: Link| is_down_from(l, spine, leaf)),
                graph_wf(self),
                i <= self.links.len(),
                out@ == ids_where(self.links@.take(i as int), pred),
                forall|k: int| 0 <= k < out@.len() ==> #[trigger] out@[k].0 < i,
                forall|a: int, b: int| 0 <= a < b < out@.len() ==> out@[a].0 < out@[b].0,
            decreases self.links.len() - i,
        {
            let l = &self.links[i];
            let hit = match (l.src, l.dst) {
                (Endpoint::Spine(a), Endpoint::Leaf(b)) => a.0 == spine.0 && b.0 == leaf.0,
                _ => false,
            };
            assert(hit == pred(self.links@[i as int]));
            proof {
                lemma_ids_where_push(self.links@, pred, i as int);
            }
            if hit {
                out.push(l.id);
            }
            i = i + 1;
        }
        assert(self.links@.take(i as int) =~= self.links@);
        out
    }

    /// Spines with at least one cable up from `sl` and one down to `dl`, ascending.
    pub fn common_spines(&self, sl: LeafId, dl: LeafId) -> (r: Vec<SpineId>)
        requires
            graph_wf(self),
        ensures
            r@ == self.spines@.map_values(|s: Spine| s.id).filter(
                |sid: SpineId| spec_has_path_via(self, sl, dl, sid),
            ),
    {
        let ghost f = |sid: SpineId| spec_has_path_via(self, sl, dl, sid);
        let ghost ids = self.spines@.map_values(|s: Spine| s.id);
        let mut out: Vec<SpineId> = Vec::new();
        let mut i: usize = 0;
        while i < self.spines.len()
            invariant
                graph_wf(self),
                i <= self.spines.len(),
                f == (|sid: SpineId| spec_has_path_via(self, sl, dl, sid)),
                ids == self.spines@.map_values(|s: Spine| s.id),
                out@ == ids.take(i as int).filter(f),
            decreases self.spines.len() - i,
        {
            let sid = self.spines[i].id;
            let ups = self.ups_to_spine(sl, sid);
            let downs = self.downs_from_spine(sid, dl);
            proof {
                assert(ids.take(i + 1).drop_last() =~= ids.take(i as int));
                assert(ids[i as int] == sid);
                reveal_with_fuel(Seq::filter, 1);
                assert(ids.take(i + 1).last() == sid);
            }
            assert((ups@.len() > 0 && downs@.len() > 0) == f(sid));
            if ups.len() > 0 && downs.len() > 0 {
                out.push(sid);
            }
            i = i + 1;
        }
        assert(ids.take(i as int) =~= ids);
        out
    }
}

/// Some cable runs from `sl` up to `sid` and some from `sid` down to `dl`.
pub open spec fn spec_has_path_via(g: &Graph, sl: LeafId, dl: LeafId, sid: SpineId) -> bool {
    ids_where(g.links@, |l: Link| is_up_to(l, sl, sid)).len() > 0 && ids_where(
        g.links@,
        |l: Link| is_down_from(l, sid, dl),
    ).len() > 0
}

proof fn lemma_ids_where_push(links: Seq<Link>, pred: spec_fn(Link) -> bool, i: int)
    requires
        0 <= i < links.len(),
    ensures
        ids_where(links.take(i + 1), pred) == if pred(links[i]) {
            ids_where(links.take(i), pred).push(links[i].id)
        } else {
            ids_where(links.take(i), pred)
        },
{
    assert(links.take(i + 1).drop_last() =~= links.take(i));
    assert(links.take(i + 1).last() == links[i]);
    reveal_with_fuel(Seq::filter, 1);
    if pred(links[i]) {
        assert(links.take(i + 1).filter(pred) == links.take(i).filter(pred).push(links[i]));
        assert(ids_where(links.take(i + 1), pred) =~= ids_where(links.take(i), pred).push(
            links[i].id,
        ));
    }
}

/// Default rails per node.
pub const DEFAULT_RAILS: u32 = 8;

pub fn default_rails() -> (r: u32)
    ensures
        r == DEFAULT_RAILS,
{
    DEFAULT_RAILS
}

/// How an endpoint prints: `Nic(n)`, `Leaf(n)`, `Spine(n)`.
pub open spec fn spec_format_endpoint(e: Endpoint) -> Seq<char> {
    match e {
        Endpoint::Nic(n) => "Nic("@ + spec_decimal(n.0 as nat) + ")"@,
        Endpoint::Leaf(l) => "Leaf("@ + spec_decimal(l.0 as nat) + ")"@,
        Endpoint::Spine(s) => "Spine("@ + spec_decimal(s.0 as nat) + ")"@,
    }
}

pub fn format_endpoint(e: Endpoint) -> (r: String)
    ensures
        r@ == spec_format_endpoint(e),
{
    let (head, n) = match e {
        Endpoint::Nic(n) => ("Nic(", n.0),
        Endpoint::Leaf(l) => ("Leaf(", l.0),
        Endpoint::Spine(s) => ("Spine(", s.0),
    };
    let mut out = String::from_str(head);
    let digits = decimal(n as u128);
    out.append(digits.as_str());
    out.append(")");
    out
}

} // verus!
