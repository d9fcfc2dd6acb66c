//! Committed-rate (CIR) bookkeeping per link and what is left of each link.
use vstd::prelude::*;

use crate::topo::{links_indexed, spec_link, Graph, Link};
use crate::types::LinkId;

verus! {

/// Per-link committed rate, what remains admissible, queue bytes and overflow
/// flags, all indexed by `LinkId`.
#[derive(Clone, Debug)]
pub struct Residual {
    pub cir: Vec<u64>,
    pub r_avail: Vec<u64>,
    pub q_bytes: Vec<u64>,
    pub overflowed: Vec<bool>,
}

/// `a - b`, or zero.
pub open spec fn sat_sub(a: u64, b: u64) -> u64 {
    if a >= b {
        (a - b) as u64
    } else {
        0
    }
}

/// `a + b`, or `u64::MAX`.
pub open spec fn sat_add(a: u64, b: u64) -> u64 {
    if a + b <= u64::MAX {
        (a + b) as u64
    } else {
        u64::MAX
    }
}

/// What a link may carry in committed rate: 95% of capacity (rounded down); a
/// failed or unknown link carries nothing.
pub open spec fn spec_admissible(g: &Graph, e: LinkId) -> u64 {
    match spec_link(g, e) {
        Some(l) => if l.failed {
            0
        } else {
            (l.capacity_Bps * 95 / 100) as u64
        },
        None => 0,
    }
}

/// Leftover for a flow with scratch open: capacity less committed rate; zero on
/// a failed link.
pub open spec fn spec_physical(l: Link, cir: u64) -> u64 {
    if l.failed {
        0
    } else {
        sat_sub(l.capacity_Bps, cir)
    }
}

/// Committed rate of link `i`, zero past the end.
pub open spec fn cir_at(cir: Seq<u64>, i: int) -> u64 {
    if 0 <= i < cir.len() {
        cir[i]
    } else {
        0
    }
}

/// Committed rates after committing `rho` more on link `i`.
pub open spec fn cir_after_inject(cir: Seq<u64>, i: int, rho: u64) -> Seq<u64> {
    cir.update(i, sat_add(cir[i], rho))
}

/// Entry `i` of `old` once the positive commitments of `c` on the links of
/// `done` that `ok` admits are added (saturating).
pub open spec fn inj_val(old: Seq<u64>, c: Map<u32, u64>, ok: spec_fn(u32) -> bool, done: Seq<u32>, i: int) -> u64 {
    if 0 <= i <= u32::MAX && done.contains(i as u32) && c.contains_key(i as u32) && c[i as u32] > 0 && ok(i as u32) {
        sat_add(old[i], c[i as u32])
    } else {
        old[i]
    }
}

/// `new` is `old` with every positive commitment of `c` on a link that `ok`
/// admits added (saturating); the other entries are unchanged.
pub open spec fn cir_injected(old: Seq<u64>, c: Map<u32, u64>, ok: spec_fn(u32) -> bool, new: Seq<u64>) -> bool {
    &&& new.len() == old.len()
    &&& forall|i: int|
        0 <= i < old.len() ==> #[trigger] new[i] == if 0 <= i <= u32::MAX && c.contains_key(i as u32) && c[i as u32] > 0 && ok(i as u32) {
            sat_add(old[i], c[i as u32])
        } else {
            old[i]
        }
}

/// `prev` with the positive commitments of `c` on links `ok` admits added
/// (saturating).
pub open spec fn add_cir(prev: Seq<u64>, c: Map<u32, u64>, ok: spec_fn(u32) -> bool) -> Seq<u64> {
    Seq::new(
        prev.len(),
        |i: int|
            if 0 <= i <= u32::MAX && c.contains_key(i as u32) && c[i as u32] > 0 && ok(i as u32) {
                sat_add(prev[i], c[i as u32])
            } else {
                prev[i]
            },
    )
}

/// `base` with the listed commitment tables added in turn.
pub open spec fn fold_cir(base: Seq<u64>, cs: Seq<Map<u32, u64>>, ok: spec_fn(u32) -> bool) -> Seq<u64>
    decreases cs.len(),
{
    if cs.len() == 0 {
        base
    } else {
        add_cir(fold_cir(base, cs.drop_last(), ok), cs.last(), ok)
    }
}

/// An injection gives what `add_cir` names.
pub proof fn lemma_injected_is_add(old: Seq<u64>, c: Map<u32, u64>, ok: spec_fn(u32) -> bool, new: Seq<u64>)
    requires
        cir_injected(old, c, ok, new),
    ensures
        new == add_cir(old, c, ok),
{
    assert(new =~= add_cir(old, c, ok));
}

/// One more key of `c` handled: the entries follow `inj_val` one key on.
pub proof fn lemma_inject_step(
    old: Seq<u64>,
    cur: Seq<u64>,
    next: Seq<u64>,
    c: Map<u32, u64>,
    ok: spec_fn(u32) -> bool,
    keys: Seq<u32>,
    k: int,
)
    requires
        0 <= k < keys.len(),
        keys.no_duplicates(),
        cur.len() == old.len(),
        forall|i: int| 0 <= i < old.len() ==> #[trigger] cur[i] == inj_val(old, c, ok, keys.take(k), i),
        next == if c.contains_key(keys[k]) && c[keys[k]] > 0 && ok(keys[k]) && (keys[k] as int) < old.len() {
            cir_after_inject(cur, keys[k] as int, c[keys[k]])
        } else {
            cur
        },
    ensures
        next.len() == old.len(),
        forall|i: int| 0 <= i < old.len() ==> #[trigger] next[i] == inj_val(old, c, ok, keys.take(k + 1), i),
{
    let e = keys[k];
    assert(keys.take(k + 1) =~= keys.take(k).push(e));
    assert(!keys.take(k).contains(e)) by {
        if keys.take(k).contains(e) {
            let j = choose|j: int| 0 <= j < k && keys.take(k)[j] == e;
            assert(keys[j] == keys[k]);
        }
    }
    let t1 = keys.take(k + 1);
    let t0 = keys.take(k);
    assert(t1[k] == e);
    assert(t1.contains(e));
    assert forall|x: u32| x != e implies t1.contains(x) == t0.contains(x) by {
        if t1.contains(x) {
            let j = choose|j: int| 0 <= j < t1.len() && t1[j] == x;
            assert(j != k);
            assert(t0[j] == x);
        }
        if t0.contains(x) {
            let j = choose|j: int| 0 <= j < t0.len() && t0[j] == x;
            assert(t1[j] == x);
        }
    }
    assert forall|i: int| 0 <= i < old.len() implies #[trigger] next[i] == inj_val(old, c, ok, keys.take(k + 1), i) by {
        assert(cur[i] == inj_val(old, c, ok, keys.take(k), i));
        if 0 <= i <= u32::MAX && i as u32 == e {
            assert(i == e as int);
            assert(cur[i] == old[i]);
        } else {
            if 0 <= i <= u32::MAX {
                assert(t1.contains(i as u32) == t0.contains(i as u32));
            }
            if c.contains_key(e) && c[e] > 0 && ok(e) && (e as int) < old.len() {
                assert(i != e as int);
                assert(next[i] == cur[i]);
            }
        }
    }
}

/// All keys handled: the entries are those `cir_injected` names.
pub proof fn lemma_inject_done(old: Seq<u64>, cur: Seq<u64>, c: Map<u32, u64>, ok: spec_fn(u32) -> bool, keys: Seq<u32>)
    requires
        keys.to_set() == c.dom(),
        cur.len() == old.len(),
        forall|i: int| 0 <= i < old.len() ==> #[trigger] cur[i] == inj_val(old, c, ok, keys.take(keys.len() as int), i),
    ensures
        cir_injected(old, c, ok, cur),
{
    assert(keys.take(keys.len() as int) =~= keys);
    assert forall|i: int| 0 <= i < old.len() implies #[trigger] cur[i] == if 0 <= i <= u32::MAX && c.contains_key(i as u32)
        && c[i as u32] > 0 && ok(i as u32) {
        sat_add(old[i], c[i as u32])
    } else {
        old[i]
    } by {
        assert(cur[i] == inj_val(old, c, ok, keys.take(keys.len() as int), i));
        if 0 <= i <= u32::MAX {
            assert(keys.to_set().contains(i as u32) == keys.contains(i as u32));
        }
    }
}

/// Committed rates after releasing `rho` on link `i`.
pub open spec fn cir_after_release(cir: Seq<u64>, i: int, rho: u64) -> Seq<u64> {
    cir.update(i, sat_sub(cir[i], rho))
}

/// Releasing what was just committed restores the committed rates, unless the
/// commitment saturated.
pub proof fn law_release_undoes_inject(cir: Seq<u64>, i: int, rho: u64)
    requires
        0 <= i < cir.len(),
        cir[i] + rho <= u64::MAX,
    ensures
        cir_after_release(cir_after_inject(cir, i, rho), i, rho) == cir,
{
    assert(cir_after_release(cir_after_inject(cir, i, rho), i, rho) =~= cir);
}

impl Residual {
    /// Every table has one entry per link, and each link's available rate is its
    /// admissible rate less its committed rate.
    pub open spec fn consistent(&self, g: &Graph) -> bool {
        &&& self.cir@.len() == g.links@.len()
        &&& self.r_avail@.len() == g.links@.len()
        &&& self.q_bytes@.len() == g.links@.len()
        &&& self.overflowed@.len() == g.links@.len()
        &&& forall|i: int|
            0 <= i < g.links@.len() ==> #[trigger] self.r_avail@[i] == sat_sub(
                spec_admissible(g, LinkId(i as u32)),
                self.cir@[i],
            )
    }

    /// A fresh table: nothing committed, queues empty.
    pub fn new(graph: &Graph) -> (r: Residual)
        requires
            links_indexed(graph),
        ensures
            r.consistent(graph),
            forall|i: int| 0 <= i < graph.links@.len() ==> #[trigger] r.cir@[i] == 0,
            forall|i: int| 0 <= i < graph.links@.len() ==> #[trigger] r.q_bytes@[i] == 0,
            forall|i: int| 0 <= i < graph.links@.len() ==> !#[trigger] r.overflowed@[i],
    {
        let mut r = Residual { cir: Vec::new(), r_avail: Vec::new(), q_bytes: Vec::new(), overflowed: Vec::new() };
        r.recompute(graph);
        r
    }

    /// 95% of a live link's capacity, rounded down; zero for a failed or unknown link.
    pub fn admissible(graph: &Graph, e: LinkId) -> (r: u64)
        ensures
            r == spec_admissible(graph, e),
    {
        match graph.link(e) {
            None => 0,
            Some(link) => {
                if link.failed {
                    0
                } else {
                    let c = link.capacity_Bps;
                    let r = c / 100 * 95 + c % 100 * 95 / 100;
                    assert(r == c * 95 / 100) by (nonlinear_arith)
                        requires
                            r == c / 100 * 95 + c % 100 * 95 / 100,
                    ;
                    r
                }
            },
        }
    }

    /// Size every table to the graph (new entries zero) and recompute each link's
    /// available rate from its committed rate.
    pub fn recompute(&mut self, graph: &Graph)
        requires
            links_indexed(graph),
        ensures
            final(self).consistent(graph),
            forall|i: int| 0 <= i < graph.links@.len() ==> #[trigger] final(self).cir@[i] == cir_at(old(self).cir@, i),
            forall|i: int|
                0 <= i < graph.links@.len() ==> #[trigger] final(self).q_bytes@[i] == cir_at(old(self).q_bytes@, i),
            forall|i: int|
                0 <= i < graph.links@.len() ==> #[trigger] final(self).overflowed@[i] == (0 <= i
                    < old(self).overflowed@.len() && old(self).overflowed@[i]),
    {
        let n = graph.links.len();
        self.cir.resize(n, 0);
        self.r_avail.resize(n, 0);
        self.q_bytes.resize(n, 0);
        self.overflowed.resize(n, false);
        assert forall|i: int| 0 <= i < n implies #[trigger] self.cir@[i] == cir_at(old(self).cir@, i) by {
            if i < old(self).cir@.len() {
                if n <= old(self).cir@.len() {
                    assert(self.cir@ == old(self).cir@.subrange(0, n as int));
                } else {
                    assert(self.cir@.subrange(0, old(self).cir@.len() as int)[i] == old(self).cir@[i]);
                }
            }
        }
        assert forall|i: int| 0 <= i < n implies #[trigger] self.q_bytes@[i] == cir_at(old(self).q_bytes@, i) by {
            if i < old(self).q_bytes@.len() {
                if n <= old(self).q_bytes@.len() {
                    assert(self.q_bytes@ == old(self).q_bytes@.subrange(0, n as int));
                } else {
                    assert(self.q_bytes@.subrange(0, old(self).q_bytes@.len() as int)[i] == old(self).q_bytes@[i]);
                }
            }
        }
        assert forall|i: int| 0 <= i < n implies #[trigger] self.overflowed@[i] == (0 <= i
            < old(self).overflowed@.len() && old(self).overflowed@[i]) by {
            if i < old(self).overflowed@.len() {
                if n <= old(self).overflowed@.len() {
                    assert(self.overflowed@ == old(self).overflowed@.subrange(0, n as int));
                } else {
                    assert(self.overflowed@.subrange(0, old(self).overflowed@.len() as int)[i]
                        == old(self).overflowed@[i]);
                }
            }
        }
        let ghost cir0 = self.cir@;
        let ghost q0 = self.q_bytes@;
        let ghost o0 = self.overflowed@;
        let mut i: usize = 0;
        while i < n
            invariant
                n == graph.links@.len(),
                links_indexed(graph),
                self.cir@ == cir0,
                self.q_bytes@ == q0,
                self.overflowed@ == o0,
                self.cir@.len() == n,
                self.r_avail@.len() == n,
                self.q_bytes@.len() == n,
                self.overflowed@.len() == n,
                forall|k: int|
                    0 <= k < i ==> #[trigger] self.r_avail@[k] == sat_sub(
                        spec_admissible(graph, LinkId(k as u32)),
                        self.cir@[k],
                    ),
            decreases n - i,
        {
            let id = graph.links[i].id;
            let adm = Residual::admissible(graph, id);
            let c = self.cir[i];
            self.r_avail.set(i, adm.saturating_sub(c));
            i = i + 1;
        }
    }

    /// Commit `rho` more on link `e` (saturating); unknown links are ignored.
    pub fn inject_cir(&mut self, graph: &Graph, e: LinkId, rho: u64)
        requires
            old(self).r_avail@.len() >= old(self).cir@.len(),
        ensures
            e.0 >= old(self).cir@.len() ==> *final(self) == *old(self),
            old(self).consistent(graph) ==> final(self).consistent(graph),
            e.0 < old(self).cir@.len() ==> {
                &&& final(self).cir@ == cir_after_inject(old(self).cir@, e.0 as int, rho)
                &&& final(self).r_avail@ == old(self).r_avail@.update(
                    e.0 as int,
                    sat_sub(spec_admissible(graph, e), sat_add(old(self).cir@[e.0 as int], rho)),
                )
                &&& final(self).q_bytes == old(self).q_bytes
                &&& final(self).overflowed == old(self).overflowed
            },
    {
        let i = e.0 as usize;
        if i >= self.cir.len() {
            return;
        }
        let c = self.cir[i].saturating_add(rho);
        self.cir.set(i, c);
        let adm = Residual::admissible(graph, e);
        self.r_avail.set(i, adm.saturating_sub(c));
    }

    /// Available rate of link `e`; zero for an unknown link.
    pub fn r_avail(&self, e: LinkId) -> (r: u64)
        ensures
            r == cir_at(self.r_avail@, e.0 as int),
    {
        if (e.0 as usize) < self.r_avail.len() {
            self.r_avail[e.0 as usize]
        } else {
            0
        }
    }

    /// Per link in graph order: capacity less committed rate (scratch open);
    /// zero on a failed link.
    pub fn physical_leftover(&self, graph: &Graph) -> (r: Vec<u64>)
        ensures
            r@.len() == graph.links@.len(),
            forall|i: int|
                0 <= i < graph.links@.len() ==> #[trigger] r@[i] == spec_physical(
                    graph.links@[i],
                    cir_at(self.cir@, graph.links@[i].id.0 as int),
                ),
    {
        let mut out: Vec<u64> = Vec::new();
        let mut i: usize = 0;
        while i < graph.links.len()
            invariant
                i <= graph.links@.len(),
                out@.len() == i,
                forall|k: int|
                    0 <= k < i ==> #[trigger] out@[k] == spec_physical(
                        graph.links@[k],
                        cir_at(self.cir@, graph.links@[k].id.0 as int),
                    ),
            decreases graph.links@.len() - i,
        {
            let link = &graph.links[i];
            let j = link.id.0 as usize;
            let cir = if j < self.cir.len() {
                self.cir[j]
            } else {
                0
            };
            let v = if link.failed {
                0
            } else {
                link.capacity_Bps.saturating_sub(cir)
            };
            out.push(v);
            i = i + 1;
        }
        out
    }

    /// Per link in graph order: the full capacity, zero on a failed link.
    pub fn capacity_leftover(&self, graph: &Graph) -> (r: Vec<u64>)
        ensures
            r@.len() == graph.links@.len(),
            forall|i: int|
                0 <= i < graph.links@.len() ==> #[trigger] r@[i] == if graph.links@[i].failed {
                    0
                } else {
                    graph.links@[i].capacity_Bps
                },
    {
        let mut out: Vec<u64> = Vec::new();
        let mut i: usize = 0;
        while i < graph.links.len()
            invariant
                i <= graph.links@.len(),
                out@.len() == i,
                forall|k: int|
                    0 <= k < i ==> #[trigger] out@[k] == if graph.links@[k].failed {
                        0
                    } else {
                        graph.links@[k].capacity_Bps
                    },
            decreases graph.links@.len() - i,
        {
            let link = &graph.links[i];
            out.push(
                if link.failed {
                    0
                } else {
                    link.capacity_Bps
                },
            );
            i = i + 1;
        }
        out
    }

    /// Release `rho` of committed rate on link `e` (saturating at zero); unknown
    /// links are ignored.
    pub fn release_cir(&mut self, graph: &Graph, e: LinkId, rho: u64)
        requires
            old(self).r_avail@.len() >= old(self).cir@.len(),
        ensures
            e.0 >= old(self).cir@.len() ==> *final(self) == *old(self),
            old(self).consistent(graph) ==> final(self).consistent(graph),
            e.0 < old(self).cir@.len() ==> {
                &&& final(self).cir@ == cir_after_release(old(self).cir@, e.0 as int, rho)
                &&& final(self).r_avail@ == old(self).r_avail@.update(
                    e.0 as int,
                    sat_sub(spec_admissible(graph, e), sat_sub(old(self).cir@[e.0 as int], rho)),
                )
                &&& final(self).q_bytes == old(self).q_bytes
                &&& final(self).overflowed == old(self).overflowed
            },
    {
        let i = e.0 as usize;
        if i >= self.cir.len() {
            return;
        }
        let c = self.cir[i].saturating_sub(rho);
        self.cir.set(i, c);
        let adm = Residual::admissible(graph, e);
        self.r_avail.set(i, adm.saturating_sub(c));
    }

    /// Drop every commitment and recompute.
    pub fn clear_cir(&mut self, graph: &Graph)
        requires
            links_indexed(graph),
        ensures
            final(self).consistent(graph),
            forall|i: int| 0 <= i < graph.links@.len() ==> #[trigger] final(self).cir@[i] == 0,
            forall|i: int| 0 <= i < graph.links@.len() ==> #[trigger] final(self).r_avail@[i]
                == spec_admissible(graph, LinkId(i as u32)),
            forall|i: int|
                0 <= i < graph.links@.len() ==> #[trigger] final(self).q_bytes@[i] == cir_at(old(self).q_bytes@, i),
    {
        let mut i: usize = 0;
        let n = self.cir.len();
        while i < n
            invariant
                n == self.cir@.len(),
                self.q_bytes == old(self).q_bytes,
                forall|k: int| 0 <= k < i ==> #[trigger] self.cir@[k] == 0,
            decreases n - i,
        {
            self.cir.set(i, 0);
            i = i + 1;
        }
        self.recompute(graph);
    }
}

} // verus!
