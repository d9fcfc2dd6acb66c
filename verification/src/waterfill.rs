//! Max-min water-fill of flows over per-link leftover rates.
use vstd::prelude::*;

use crate::paths::{paths_view, Path};
use crate::residual::cir_at;
use crate::types::{LinkId, RejectCode};

verus! {

/// Leftover of link index `i`; zero past the table.
pub open spec fn lo_at(leftover: Seq<u64>, i: int) -> u64 {
    cir_at(leftover, i)
}

/// Flows among the first `k` that are still active and cross `e`.
pub open spec fn count_on(fl: Seq<Seq<LinkId>>, sat: Seq<bool>, e: LinkId, k: int) -> nat
    decreases k,
{
    if k <= 0 {
        0
    } else {
        count_on(fl, sat, e, k - 1) + if !sat[k - 1] && fl[k - 1].contains(e) {
            1nat
        } else {
            0nat
        }
    }
}

/// Rate that the first `k` flows put on link `e`: each flow crossing it counts once.
pub open spec fn load_on(fl: Seq<Seq<LinkId>>, rate: Seq<u64>, e: LinkId, k: int) -> nat
    decreases k,
{
    if k <= 0 {
        0
    } else {
        load_on(fl, rate, e, k - 1) + if fl[k - 1].contains(e) {
            rate[k - 1] as nat
        } else {
            0nat
        }
    }
}

/// Sum of a table.
pub open spec fn total(s: Seq<u64>) -> nat
    decreases s.len(),
{
    if s.len() == 0 {
        0
    } else {
        total(s.drop_last()) + s.last() as nat
    }
}

/// A flow that can get nothing: its path is empty or crosses a link with no
/// leftover.
pub open spec fn blocked(p: Seq<LinkId>, leftover: Seq<u64>) -> bool {
    p.len() == 0 || exists|j: int| 0 <= j < p.len() && lo_at(leftover, (#[trigger] p[j]).0 as int) == 0
}

/// No flow puts more on a link than the link has left.
pub open spec fn feasible(fl: Seq<Seq<LinkId>>, rate: Seq<u64>, leftover: Seq<u64>) -> bool {
    forall|e: LinkId| #[trigger] load_on(fl, rate, e, fl.len() as int) <= lo_at(leftover, e.0 as int)
}

/// No path lists a link twice.
pub open spec fn no_repeats(fl: Seq<Seq<LinkId>>) -> bool {
    forall|f: int, a: int, b: int|
        0 <= f < fl.len() && 0 <= a < b < fl[f].len() ==> #[trigger] fl[f][a] != #[trigger] fl[f][b]
}

/// Every flow crosses a link that the allocation fills completely.
pub open spec fn saturating(fl: Seq<Seq<LinkId>>, rate: Seq<u64>, leftover: Seq<u64>) -> bool {
    forall|f: int|
        0 <= f < fl.len() && fl[f].len() > 0 ==> exists|j: int|
            0 <= j < fl[f].len() && #[trigger] load_on(fl, rate, fl[f][j], fl.len() as int) == lo_at(
                leftover,
                fl[f][j].0 as int,
            )
}

/// Some link has less left than the number of unblocked flows with a path that
/// cross it.
pub open spec fn crowded(fl: Seq<Seq<LinkId>>, leftover: Seq<u64>) -> bool {
    exists|e: LinkId|
        0 < lo_at(leftover, e.0 as int) < #[trigger] count_on(fl, blocked_set(fl, leftover), e, fl.len() as int)
}

/// Which flows are blocked.
pub open spec fn blocked_set(fl: Seq<Seq<LinkId>>, leftover: Seq<u64>) -> Seq<bool> {
    Seq::new(fl.len(), |f: int| blocked(fl[f], leftover))
}

proof fn lemma_load_update(fl: Seq<Seq<LinkId>>, rate: Seq<u64>, f: int, v: u64, e: LinkId, k: int)
    requires
        0 <= f < rate.len(),
        k <= rate.len(),
    ensures
        load_on(fl, rate.update(f, v), e, k) + (if f < k && fl[f].contains(e) {
            rate[f] as nat
        } else {
            0nat
        }) == load_on(fl, rate, e, k) + (if f < k && fl[f].contains(e) {
            v as nat
        } else {
            0nat
        }),
    decreases k,
{
    if k > 0 {
        lemma_load_update(fl, rate, f, v, e, k - 1);
    }
}

proof fn lemma_count_update(fl: Seq<Seq<LinkId>>, sat: Seq<bool>, f: int, e: LinkId, k: int)
    requires
        0 <= f < sat.len(),
        k <= sat.len(),
    ensures
        count_on(fl, sat.update(f, true), e, k) + (if f < k && !sat[f] && fl[f].contains(e) {
            1nat
        } else {
            0nat
        }) == count_on(fl, sat, e, k),
    decreases k,
{
    if k > 0 {
        lemma_count_update(fl, sat, f, e, k - 1);
    }
}

proof fn lemma_count_witness(fl: Seq<Seq<LinkId>>, sat: Seq<bool>, e: LinkId, k: int)
    requires
        count_on(fl, sat, e, k) > 0,
    ensures
        exists|f: int| 0 <= f < k && !sat[f] && #[trigger] fl[f].contains(e),
    decreases k,
{
    if k > 0 && count_on(fl, sat, e, k - 1) > 0 {
        lemma_count_witness(fl, sat, e, k - 1);
    }
}

proof fn lemma_count_member(fl: Seq<Seq<LinkId>>, sat: Seq<bool>, e: LinkId, k: int, f: int)
    requires
        0 <= f < k,
        !sat[f],
        fl[f].contains(e),
    ensures
        count_on(fl, sat, e, k) >= 1,
    decreases k,
{
    if f < k - 1 {
        lemma_count_member(fl, sat, e, k - 1, f);
    }
}

proof fn lemma_load_member(fl: Seq<Seq<LinkId>>, rate: Seq<u64>, e: LinkId, k: int, f: int)
    requires
        0 <= f < k,
        fl[f].contains(e),
    ensures
        load_on(fl, rate, e, k) >= rate[f],
    decreases k,
{
    if f < k - 1 {
        lemma_load_member(fl, rate, e, k - 1, f);
    }
}

proof fn lemma_load_untouched(fl: Seq<Seq<LinkId>>, rate: Seq<u64>, e: LinkId, k: int)
    requires
        forall|f: int| 0 <= f < k ==> !(#[trigger] fl[f]).contains(e),
    ensures
        load_on(fl, rate, e, k) == 0,
    decreases k,
{
    if k > 0 {
        lemma_load_untouched(fl, rate, e, k - 1);
    }
}

proof fn lemma_load_zero(fl: Seq<Seq<LinkId>>, rate: Seq<u64>, e: LinkId, k: int)
    requires
        forall|f: int| 0 <= f < k ==> #[trigger] rate[f] == 0,
    ensures
        load_on(fl, rate, e, k) == 0,
    decreases k,
{
    if k > 0 {
        lemma_load_zero(fl, rate, e, k - 1);
    }
}

proof fn lemma_total_update(s: Seq<u64>, i: int, v: u64)
    requires
        0 <= i < s.len(),
    ensures
        total(s.update(i, v)) + s[i] == total(s) + v,
    decreases s.len(),
{
    if i < s.len() - 1 {
        lemma_total_update(s.drop_last(), i, v);
        assert(s.update(i, v).drop_last() =~= s.drop_last().update(i, v));
    } else {
        assert(s.update(i, v).drop_last() =~= s.drop_last());
    }
}

proof fn lemma_total_le(a: Seq<u64>, b: Seq<u64>)
    requires
        a.len() == b.len(),
        forall|i: int| 0 <= i < a.len() ==> #[trigger] a[i] <= b[i],
    ensures
        total(a) <= total(b),
    decreases a.len(),
{
    if a.len() > 0 {
        lemma_total_le(a.drop_last(), b.drop_last());
    }
}

proof fn lemma_total_lt(a: Seq<u64>, b: Seq<u64>, j: int)
    requires
        a.len() == b.len(),
        forall|i: int| 0 <= i < a.len() ==> #[trigger] a[i] <= b[i],
        0 <= j < a.len(),
        a[j] < b[j],
    ensures
        total(a) < total(b),
    decreases a.len(),
{
    if j < a.len() - 1 {
        lemma_total_lt(a.drop_last(), b.drop_last(), j);
    } else {
        lemma_total_le(a.drop_last(), b.drop_last());
    }
}

/// Whether the path crosses `e`.
fn path_has(p: &Path, e: LinkId) -> (r: bool)
    ensures
        r == p.links@.contains(e),
{
    let mut j: usize = 0;
    while j < p.links.len()
        invariant
            j <= p.links@.len(),
            forall|k: int| 0 <= k < j ==> p.links@[k] != e,
        decreases p.links@.len() - j,
    {
        if p.links[j].0 == e.0 {
            assert(p.links@[j as int] == e);
            return true;
        }
        j = j + 1;
    }
    false
}

/// Active flows crossing `e`.
fn count_active(sat: &Vec<bool>, flows: &[Path], e: LinkId) -> (c: u64)
    requires
        sat@.len() == flows@.len(),
    ensures
        c == count_on(paths_view(flows@), sat@, e, flows@.len() as int),
{
    let ghost fl = paths_view(flows@);
    let mut c: u64 = 0;
    let mut f: usize = 0;
    while f < flows.len()
        invariant
            fl == paths_view(flows@),
            sat@.len() == flows@.len(),
            f <= flows@.len(),
            c == count_on(fl, sat@, e, f as int),
            c <= f,
        decreases flows@.len() - f,
    {
        assert(fl[f as int] == flows@[f as int].links@);
        if !sat[f] && path_has(&flows[f], e) {
            c = c + 1;
        }
        f = f + 1;
    }
    c
}

/// Leftover of link `e` in `rem`; zero past the table.
fn rem_of(rem: &Vec<u64>, e: LinkId) -> (r: u64)
    ensures
        r == cir_at(rem@, e.0 as int),
{
    if (e.0 as usize) < rem.len() {
        rem[e.0 as usize]
    } else {
        0
    }
}

/// Some link of the path has nothing left.
pub open spec fn hits_zero(rem: Seq<u64>, p: Seq<LinkId>) -> bool {
    exists|j: int| 0 <= j < p.len() && cir_at(rem, (#[trigger] p[j]).0 as int) == 0
}

fn any_zero(rem: &Vec<u64>, p: &Path) -> (r: bool)
    ensures
        r == hits_zero(rem@, p.links@),
{
    let mut j: usize = 0;
    while j < p.links.len()
        invariant
            j <= p.links@.len(),
            forall|k: int| 0 <= k < j ==> cir_at(rem@, (#[trigger] p.links@[k]).0 as int) != 0,
        decreases p.links@.len() - j,
    {
        if rem_of(rem, p.links[j]) == 0 {
            return true;
        }
        j = j + 1;
    }
    false
}

/// What link `e` can give each active flow crossing it.
pub open spec fn share(fl: Seq<Seq<LinkId>>, sat: Seq<bool>, rem: Seq<u64>, e: LinkId) -> int {
    cir_at(rem, e.0 as int) as int / count_on(fl, sat, e, fl.len() as int) as int
}

/// `(f, j)` names link `j` of an active flow `f`.
pub open spec fn active_link(fl: Seq<Seq<LinkId>>, sat: Seq<bool>, f: int, j: int) -> bool {
    0 <= f < fl.len() && !sat[f] && 0 <= j < fl[f].len()
}

/// The smallest share over the links of the active flows (`u64::MAX` when
/// there is none).
fn bottleneck(flows: &[Path], sat: &Vec<bool>, rem: &Vec<u64>) -> (b: u64)
    requires
        sat@.len() == flows@.len(),
    ensures
        forall|f: int, j: int|
            active_link(paths_view(flows@), sat@, f, j) && count_on(
                paths_view(flows@),
                sat@,
                paths_view(flows@)[f][j],
                flows@.len() as int,
            ) >= 1 ==> b <= share(paths_view(flows@), sat@, rem@, #[trigger] paths_view(flows@)[f][j]),
        b == u64::MAX || exists|f: int, j: int|
            active_link(paths_view(flows@), sat@, f, j) && count_on(
                paths_view(flows@),
                sat@,
                paths_view(flows@)[f][j],
                flows@.len() as int,
            ) >= 1 && b == share(paths_view(flows@), sat@, rem@, #[trigger] paths_view(flows@)[f][j]),
{
    let ghost fl = paths_view(flows@);
    let n = flows.len();
    let mut b: u64 = u64::MAX;
    let ghost mut wf: int = 0;
    let ghost mut wj: int = 0;
    let mut f: usize = 0;
    while f < n
        invariant
            fl == paths_view(flows@),
            n == flows@.len(),
            n == fl.len(),
            sat@.len() == n,
            f <= n,
            forall|g: int, j: int|
                0 <= g < f && active_link(fl, sat@, g, j) && count_on(fl, sat@, fl[g][j], n as int) >= 1
                    ==> b <= share(fl, sat@, rem@, #[trigger] fl[g][j]),
            b == u64::MAX || (active_link(fl, sat@, wf, wj) && count_on(fl, sat@, fl[wf][wj], n as int) >= 1
                && b == share(fl, sat@, rem@, fl[wf][wj])),
        decreases n - f,
    {
        if !sat[f] {
            let p = &flows[f];
            assert(fl[f as int] == p.links@);
            let mut j: usize = 0;
            while j < p.links.len()
                invariant
                    fl == paths_view(flows@),
                    n == flows@.len(),
                    n == fl.len(),
                    sat@.len() == n,
                    f < n,
                    !sat@[f as int],
                    fl[f as int] == p.links@,
                    j <= p.links@.len(),
                    forall|g: int, k: int|
                        ((0 <= g < f) || (g == f && 0 <= k < j)) && active_link(fl, sat@, g, k) && count_on(
                            fl,
                            sat@,
                            fl[g][k],
                            n as int,
                        ) >= 1 ==> b <= share(fl, sat@, rem@, #[trigger] fl[g][k]),
                    b == u64::MAX || (active_link(fl, sat@, wf, wj) && count_on(fl, sat@, fl[wf][wj], n as int)
                        >= 1 && b == share(fl, sat@, rem@, fl[wf][wj])),
                decreases p.links@.len() - j,
            {
                let e = p.links[j];
                let c = count_active(sat, flows, e);
                if c != 0 {
                    let sh = rem_of(rem, e) / c;
                    if sh < b {
                        b = sh;
                        proof {
                            wf = f as int;
                            wj = j as int;
                        }
                    }
                }
                j = j + 1;
            }
        }
        f = f + 1;
    }
    b
}

proof fn lemma_mul_step(b: nat, x: nat)
    ensures
        b * (x + 1) == b * x + b,
{
    assert(b * (x + 1) == b * x + b) by (nonlinear_arith);
}

/// Raise every active flow's rate by `b`.
fn add_to_active(rate: &mut Vec<u64>, sat: &Vec<bool>, flows: &[Path], b: u64)
    requires
        old(rate)@.len() == flows@.len(),
        sat@.len() == flows@.len(),
        forall|f: int| 0 <= f < flows@.len() && !sat@[f] ==> old(rate)@[f] + b <= u64::MAX,
    ensures
        final(rate)@.len() == flows@.len(),
        forall|f: int|
            0 <= f < flows@.len() ==> #[trigger] final(rate)@[f] == if !sat@[f] {
                (old(rate)@[f] + b) as u64
            } else {
                old(rate)@[f]
            },
        forall|e: LinkId|
            #[trigger] load_on(paths_view(flows@), final(rate)@, e, flows@.len() as int) == load_on(
                paths_view(flows@),
                old(rate)@,
                e,
                flows@.len() as int,
            ) + b * count_on(paths_view(flows@), sat@, e, flows@.len() as int),
{
    let ghost fl = paths_view(flows@);
    let ghost r0 = rate@;
    let n = flows.len();
    let mut f: usize = 0;
    assert forall|e: LinkId| #[trigger] load_on(fl, rate@, e, n as int) == load_on(fl, r0, e, n as int) + b
        * count_on(fl, sat@, e, 0) by {
        assert(count_on(fl, sat@, e, 0) == 0);
        assert(b * 0nat == 0) by (nonlinear_arith);
    }
    while f < n
        invariant
            fl == paths_view(flows@),
            n == flows@.len(),
            rate@.len() == n,
            r0.len() == n,
            sat@.len() == n,
            f <= n,
            forall|g: int| 0 <= g < n && !sat@[g] ==> r0[g] + b <= u64::MAX,
            forall|g: int|
                0 <= g < n ==> #[trigger] rate@[g] == if g < f && !sat@[g] {
                    (r0[g] + b) as u64
                } else {
                    r0[g]
                },
            forall|e: LinkId|
                #[trigger] load_on(fl, rate@, e, n as int) == load_on(fl, r0, e, n as int) + b * count_on(
                    fl,
                    sat@,
                    e,
                    f as int,
                ),
        decreases n - f,
    {
        if !sat[f] {
            let ghost before = rate@;
            let v = rate[f] + b;
            rate.set(f, v);
            assert forall|e: LinkId| #[trigger] load_on(fl, rate@, e, n as int) == load_on(fl, r0, e, n as int)
                + b * count_on(fl, sat@, e, (f + 1) as int) by {
                lemma_load_update(fl, before, f as int, v, e, n as int);
                assert(rate@ == before.update(f as int, v));
                if fl[f as int].contains(e) {
                    lemma_mul_step(b as nat, count_on(fl, sat@, e, f as int));
                }
            }
        }
        f = f + 1;
    }
}

/// Take `b` from every link once per active flow crossing it.
fn drain_shared(rem: &mut Vec<u64>, sat: &Vec<bool>, flows: &[Path], b: u64)
    requires
        sat@.len() == flows@.len(),
        old(rem)@.len() <= u32::MAX + 1,
        forall|i: int|
            0 <= i < old(rem)@.len() ==> b * count_on(paths_view(flows@), sat@, LinkId(i as u32), flows@.len() as int)
                <= #[trigger] old(rem)@[i],
    ensures
        final(rem)@.len() == old(rem)@.len(),
        forall|i: int|
            0 <= i < old(rem)@.len() ==> #[trigger] final(rem)@[i] == old(rem)@[i] - b * count_on(
                paths_view(flows@),
                sat@,
                LinkId(i as u32),
                flows@.len() as int,
            ),
{
    let ghost fl = paths_view(flows@);
    let ghost r0 = rem@;
    let m = rem.len();
    let mut i: usize = 0;
    while i < m
        invariant
            fl == paths_view(flows@),
            sat@.len() == flows@.len(),
            m == rem@.len(),
            m == r0.len(),
            m <= u32::MAX + 1,
            i <= m,
            forall|k: int|
                0 <= k < m ==> b * count_on(fl, sat@, LinkId(k as u32), flows@.len() as int) <= #[trigger] r0[k],
            forall|k: int|
                0 <= k < m ==> #[trigger] rem@[k] == if k < i {
                    r0[k] - b * count_on(fl, sat@, LinkId(k as u32), flows@.len() as int)
                } else {
                    r0[k] as int
                },
        decreases m - i,
    {
        let c = count_active(sat, flows, LinkId(i as u32));
        assert(b * c <= r0[i as int]);
        let take = b * c;
        let v = rem[i] - take;
        rem.set(i, v);
        i = i + 1;
    }
}

/// Mark every active flow that crosses an exhausted link.
fn mark_saturated(sat: &mut Vec<bool>, rem: &Vec<u64>, flows: &[Path])
    requires
        old(sat)@.len() == flows@.len(),
    ensures
        final(sat)@.len() == flows@.len(),
        forall|f: int|
            0 <= f < flows@.len() ==> #[trigger] final(sat)@[f] == (old(sat)@[f] || hits_zero(
                rem@,
                flows@[f].links@,
            )),
{
    let ghost s0 = sat@;
    let n = flows.len();
    let mut f: usize = 0;
    while f < n
        invariant
            n == flows@.len(),
            sat@.len() == n,
            s0.len() == n,
            f <= n,
            forall|g: int|
                0 <= g < n ==> #[trigger] sat@[g] == if g < f {
                    s0[g] || hits_zero(rem@, flows@[g].links@)
                } else {
                    s0[g]
                },
        decreases n - f,
    {
        if !sat[f] && any_zero(rem, &flows[f]) {
            sat.set(f, true);
        }
        f = f + 1;
    }
}

/// No link appears twice on the path.
pub open spec fn path_no_repeats(p: Seq<LinkId>) -> bool {
    forall|a: int, b: int| 0 <= a < b < p.len() ==> #[trigger] p[a] != #[trigger] p[b]
}

/// Take one unit from every link of the path, once per appearance (never below
/// zero).
fn take_crumb(rem: &mut Vec<u64>, p: &Path)
    requires
        old(rem)@.len() <= u32::MAX + 1,
        forall|j: int| 0 <= j < p.links@.len() ==> (#[trigger] p.links@[j]).0 < old(rem)@.len(),
        forall|j: int| 0 <= j < p.links@.len() ==> old(rem)@[(#[trigger] p.links@[j]).0 as int] >= 1,
    ensures
        final(rem)@.len() == old(rem)@.len(),
        forall|i: int|
            0 <= i < old(rem)@.len() ==> {
                &&& p.links@.contains(LinkId(i as u32)) ==> #[trigger] final(rem)@[i] + 1 <= old(rem)@[i]
                &&& p.links@.contains(LinkId(i as u32)) && path_no_repeats(p.links@) ==> final(rem)@[i] + 1
                    == old(rem)@[i]
                &&& !p.links@.contains(LinkId(i as u32)) ==> final(rem)@[i] == old(rem)@[i]
            },
{
    let ghost r0 = rem@;
    let ghost pl = p.links@;
    let m = rem.len();
    let mut j: usize = 0;
    while j < p.links.len()
        invariant
            pl == p.links@,
            m == rem@.len(),
            m == r0.len(),
            m <= u32::MAX + 1,
            j <= pl.len(),
            forall|k: int| 0 <= k < pl.len() ==> (#[trigger] pl[k]).0 < m,
            forall|k: int| 0 <= k < pl.len() ==> r0[(#[trigger] pl[k]).0 as int] >= 1,
            forall|i: int|
                0 <= i < m ==> {
                    &&& pl.take(j as int).contains(LinkId(i as u32)) ==> #[trigger] rem@[i] + 1 <= r0[i]
                    &&& pl.take(j as int).contains(LinkId(i as u32)) && path_no_repeats(pl) ==> rem@[i] + 1
                        == r0[i]
                    &&& !pl.take(j as int).contains(LinkId(i as u32)) ==> rem@[i] == r0[i]
                },
        decreases pl.len() - j,
    {
        let e = p.links[j];
        let i = e.0 as usize;
        let v = rem[i].saturating_sub(1);
        let ghost before = rem@;
        rem.set(i, v);
        proof {
            assert(pl.take(j + 1) =~= pl.take(j as int).push(e));
            assert forall|x: int| 0 <= x < m implies {
                &&& pl.take(j + 1).contains(LinkId(x as u32)) ==> #[trigger] rem@[x] + 1 <= r0[x]
                &&& pl.take(j + 1).contains(LinkId(x as u32)) && path_no_repeats(pl) ==> rem@[x] + 1 == r0[x]
                &&& !pl.take(j + 1).contains(LinkId(x as u32)) ==> rem@[x] == r0[x]
            } by {
                let t0 = pl.take(j as int);
                let t1 = pl.take(j + 1);
                assert(t1.contains(LinkId(x as u32)) <==> (t0.contains(LinkId(x as u32)) || LinkId(x as u32) == e)) by {
                    if t1.contains(LinkId(x as u32)) {
                        let a = choose|a: int| 0 <= a < t1.len() && t1[a] == LinkId(x as u32);
                        if a < j {
                            assert(t0[a] == t1[a]);
                        }
                    }
                    if t0.contains(LinkId(x as u32)) {
                        let a = choose|a: int| 0 <= a < t0.len() && t0[a] == LinkId(x as u32);
                        assert(t1[a] == t0[a]);
                    }
                    if LinkId(x as u32) == e {
                        assert(t1[j as int] == e);
                    }
                }
                if x == i {
                    assert(LinkId(x as u32) == e);
                    assert(r0[pl[j as int].0 as int] >= 1);
                    if pl.take(j as int).contains(e) {
                        if path_no_repeats(pl) {
                            let a = choose|a: int| 0 <= a < j && pl.take(j as int)[a] == e;
                            assert(pl[a] == pl[j as int]);
                            assert(false);
                        }
                    }
                } else {
                    assert(rem@[x] == before[x]);
                    if LinkId(x as u32) == e {
                        assert(x == i);
                    }
                }
            }
        }
        j = j + 1;
    }
    assert(pl.take(pl.len() as int) =~= pl);
}

/// The bookkeeping the fill keeps between steps: every link on a path is in the
/// table; what is left plus what is placed never exceeds the leftover (and
/// equals it when no path repeats a link); empty paths are saturated at rate
/// zero; a saturated flow crosses an exhausted link; and while nothing is
/// placed, the table is the leftover and only empty paths are saturated.
pub open spec fn fill_inv(
    fl: Seq<Seq<LinkId>>,
    leftover: Seq<u64>,
    rem: Seq<u64>,
    rate: Seq<u64>,
    sat: Seq<bool>,
) -> bool {
    let n = fl.len() as int;
    let m = rem.len() as int;
    &&& rate.len() == n
    &&& sat.len() == n
    &&& m <= u32::MAX + 1
    &&& forall|f: int, j: int| 0 <= f < n && 0 <= j < fl[f].len() ==> (#[trigger] fl[f][j]).0 < m
    &&& forall|i: int|
        0 <= i < m ==> #[trigger] rem[i] + load_on(fl, rate, LinkId(i as u32), n) <= lo_at(leftover, i)
    &&& no_repeats(fl) ==> forall|i: int|
        0 <= i < m ==> #[trigger] rem[i] + load_on(fl, rate, LinkId(i as u32), n) == lo_at(leftover, i)
    &&& forall|f: int| 0 <= f < n && fl[f].len() == 0 ==> #[trigger] sat[f] && rate[f] == 0
    &&& forall|f: int| 0 <= f < n && #[trigger] sat[f] ==> fl[f].len() == 0 || hits_zero(rem, fl[f])
    &&& (forall|f: int| 0 <= f < n ==> #[trigger] rate[f] == 0) ==> {
        &&& forall|i: int| 0 <= i < m ==> #[trigger] rem[i] == lo_at(leftover, i)
        &&& forall|f: int| 0 <= f < n && #[trigger] sat[f] ==> fl[f].len() == 0
    }
}

/// Every flow is unblocked, no link is crowded, and no path link has the
/// largest possible leftover: the conditions under which every flow gets rate.
pub open spec fn fill_ready(fl: Seq<Seq<LinkId>>, leftover: Seq<u64>) -> bool {
    &&& forall|f: int| 0 <= f < fl.len() ==> !blocked(#[trigger] fl[f], leftover)
    &&& !crowded(fl, leftover)
    &&& forall|f: int, j: int|
        0 <= f < fl.len() && 0 <= j < fl[f].len() ==> lo_at(leftover, (#[trigger] fl[f][j]).0 as int) < u64::MAX
}

/// Flow `f` crosses an exhausted link on which no flow has more than `f`'s
/// rate plus one.
pub open spec fn fair_link(fl: Seq<Seq<LinkId>>, rem: Seq<u64>, rate: Seq<u64>, f: int) -> bool {
    exists|j: int|
        0 <= j < fl[f].len() && cir_at(rem, (#[trigger] fl[f][j]).0 as int) == 0 && forall|g: int|
            0 <= g < fl.len() && #[trigger] fl[g].contains(fl[f][j]) ==> rate[g] <= rate[f] + 1
}

/// The levels of the fill, with the first `i` flows one unit further: a flow
/// that is still free (not saturated, no exhausted link) sits exactly at the
/// level, no flow is above it, and every flow that crosses an exhausted link
/// has one on which nobody has more than it plus one.
pub open spec fn pass_inv(fl: Seq<Seq<LinkId>>, rem: Seq<u64>, rate: Seq<u64>, sat: Seq<bool>, lvl: int, i: int) -> bool {
    &&& forall|g: int|
        0 <= g < fl.len() && !sat[g] && !hits_zero(rem, fl[g]) ==> #[trigger] rate[g] == lvl + if g < i {
            1int
        } else {
            0int
        }
    &&& forall|g: int| 0 <= g < fl.len() ==> #[trigger] rate[g] <= lvl + if g < i {
        1int
    } else {
        0int
    }
    &&& forall|g: int| 0 <= g < fl.len() && fl[g].len() > 0 && hits_zero(rem, #[trigger] fl[g]) ==> fair_link(fl, rem, rate, g)
}

/// Max-min fairness up to one unit: every flow crosses a link that the
/// allocation fills completely and on which no flow gets more than it plus one.
pub open spec fn max_min(fl: Seq<Seq<LinkId>>, rate: Seq<u64>, leftover: Seq<u64>) -> bool {
    forall|f: int| 0 <= f < fl.len() ==> #[trigger] fair_share(fl, rate, leftover, f)
}

/// Flow `f` crosses a link the allocation fills completely and on which no
/// flow gets more than `f` plus one.
pub open spec fn fair_share(fl: Seq<Seq<LinkId>>, rate: Seq<u64>, leftover: Seq<u64>, f: int) -> bool {
    exists|j: int|
        0 <= j < fl[f].len() && #[trigger] load_on(fl, rate, fl[f][j], fl.len() as int) == lo_at(
            leftover,
            fl[f][j].0 as int,
        ) && forall|g: int| 0 <= g < fl.len() && #[trigger] fl[g].contains(fl[f][j]) ==> rate[g] <= rate[f] + 1
}

/// A link the rates of the first `k` flows do not change keeps its load.
/// Exhausted links stay exhausted when the table only shrinks.
proof fn lemma_zero_stays(fl: Seq<Seq<LinkId>>, a: Seq<u64>, b: Seq<u64>, g: int)
    requires
        0 <= g < fl.len(),
        a.len() == b.len(),
        forall|i: int| 0 <= i < a.len() ==> #[trigger] b[i] <= a[i],
        forall|j: int| 0 <= j < fl[g].len() ==> (#[trigger] fl[g][j]).0 < a.len(),
        hits_zero(a, fl[g]),
    ensures
        hits_zero(b, fl[g]),
{
    let j = choose|j: int| 0 <= j < fl[g].len() && cir_at(a, (#[trigger] fl[g][j]).0 as int) == 0;
    let i = fl[g][j].0 as int;
    assert(b[i] <= a[i]);
    assert(cir_at(b, fl[g][j].0 as int) == 0);
}

/// A flow that takes one unit keeps the levels, one flow further.
proof fn lemma_crumb_fair(
    fl: Seq<Seq<LinkId>>,
    rem_b: Seq<u64>,
    rem_a: Seq<u64>,
    rate_b: Seq<u64>,
    rate_a: Seq<u64>,
    sat_b: Seq<bool>,
    sat_a: Seq<bool>,
    f: int,
    lvl: int,
)
    requires
        pass_inv(fl, rem_b, rate_b, sat_b, lvl, f),
        0 <= f < fl.len(),
        rate_b.len() == fl.len(),
        sat_b.len() == fl.len(),
        !sat_b[f],
        fl[f].len() > 0,
        !hits_zero(rem_b, fl[f]),
        rate_a == rate_b.update(f, (rate_b[f] + 1) as u64),
        rate_b[f] + 1 <= u64::MAX,
        rem_a.len() == rem_b.len(),
        forall|i: int| 0 <= i < rem_b.len() ==> #[trigger] rem_a[i] <= rem_b[i],
        forall|i: int| 0 <= i < rem_b.len() && !fl[f].contains(LinkId(i as u32)) ==> #[trigger] rem_a[i] == rem_b[i],
        forall|g: int, j: int| 0 <= g < fl.len() && 0 <= j < fl[g].len() ==> (#[trigger] fl[g][j]).0 < rem_b.len(),
        sat_a.len() == fl.len(),
        forall|g: int| 0 <= g < fl.len() && g != f ==> #[trigger] sat_a[g] == sat_b[g],
        forall|g: int| 0 <= g < fl.len() && #[trigger] sat_b[g] ==> fl[g].len() == 0 || hits_zero(rem_b, fl[g]),
    ensures
        pass_inv(fl, rem_a, rate_a, sat_a, lvl, f + 1),
{
    let n = fl.len() as int;
    assert(rate_b[f] == lvl);
    assert forall|g: int| 0 <= g < n && !sat_a[g] && !hits_zero(rem_a, fl[g]) implies #[trigger] rate_a[g] == lvl + if g < f + 1 {
        1int
    } else {
        0int
    } by {
        if hits_zero(rem_b, fl[g]) {
            lemma_zero_stays(fl, rem_b, rem_a, g);
        }
        if g != f {
            assert(!sat_b[g]);
            assert(rate_a[g] == rate_b[g]);
        }
    }
    assert forall|g: int| 0 <= g < n implies #[trigger] rate_a[g] <= lvl + if g < f + 1 {
        1int
    } else {
        0int
    } by {
        if g != f {
            assert(rate_a[g] == rate_b[g]);
        }
    }
    assert forall|g: int| 0 <= g < n && fl[g].len() > 0 && hits_zero(rem_a, #[trigger] fl[g]) implies fair_link(fl, rem_a, rate_a, g) by {
        if hits_zero(rem_b, fl[g]) {
            assert(fair_link(fl, rem_b, rate_b, g));
            let j = choose|j: int|
                0 <= j < fl[g].len() && cir_at(rem_b, (#[trigger] fl[g][j]).0 as int) == 0 && forall|h: int|
                    0 <= h < fl.len() && #[trigger] fl[h].contains(fl[g][j]) ==> rate_b[h] <= rate_b[g] + 1;
            let e = fl[g][j];
            assert(!fl[f].contains(e)) by {
                if fl[f].contains(e) {
                    let k = choose|k: int| 0 <= k < fl[f].len() && fl[f][k] == e;
                    assert(cir_at(rem_b, (fl[f][k]).0 as int) == 0);
                }
            }
            assert(g != f);
            let i = e.0 as int;
            assert(rem_a[i] <= rem_b[i]);
            assert(cir_at(rem_a, fl[g][j].0 as int) == 0);
            assert forall|h: int| 0 <= h < n && #[trigger] fl[h].contains(fl[g][j]) implies rate_a[h] <= rate_a[g] + 1 by {
                assert(h != f);
                assert(rate_a[h] == rate_b[h]);
            }
        } else {
            let j = choose|j: int| 0 <= j < fl[g].len() && cir_at(rem_a, (#[trigger] fl[g][j]).0 as int) == 0;
            if g != f {
                assert(!sat_b[g]);
                assert(rate_a[g] == rate_b[g]);
            }
            assert(rate_a[g] >= lvl);
            assert forall|h: int| 0 <= h < n && #[trigger] fl[h].contains(fl[g][j]) implies rate_a[h] <= rate_a[g] + 1 by {
                if h != f {
                    assert(rate_a[h] == rate_b[h]);
                }
            }
        }
    }
}

/// A flow passed over keeps the levels, one flow further.
proof fn lemma_crumb_skip(fl: Seq<Seq<LinkId>>, rem: Seq<u64>, rate: Seq<u64>, sat: Seq<bool>, f: int, lvl: int)
    requires
        pass_inv(fl, rem, rate, sat, lvl, f),
        0 <= f < fl.len(),
        sat[f] || hits_zero(rem, fl[f]),
    ensures
        pass_inv(fl, rem, rate, sat, lvl, f + 1),
{
    assert forall|g: int| 0 <= g < fl.len() implies #[trigger] rate[g] <= lvl + if g < f + 1 {
        1int
    } else {
        0int
    } by {
        assert(rate[g] <= lvl + if g < f {
            1int
        } else {
            0int
        });
    }
    assert forall|g: int| 0 <= g < fl.len() && !sat[g] && !hits_zero(rem, fl[g]) implies #[trigger] rate[g] == lvl + if g < f + 1 {
        1int
    } else {
        0int
    } by {
        assert(g != f);
    }
}

/// An equal-share round keeps the levels, the level raised by the share.
proof fn lemma_round_fair(
    fl: Seq<Seq<LinkId>>,
    r0: Seq<u64>,
    r1: Seq<u64>,
    rate0: Seq<u64>,
    rate1: Seq<u64>,
    sat0: Seq<bool>,
    sat1: Seq<bool>,
    b: u64,
    lvl: int,
)
    requires
        pass_inv(fl, r0, rate0, sat0, lvl, 0),
        rate0.len() == fl.len(),
        sat0.len() == fl.len(),
        rate1.len() == fl.len(),
        sat1.len() == fl.len(),
        forall|f: int| 0 <= f < fl.len() && !sat0[f] ==> !hits_zero(r0, #[trigger] fl[f]),
        forall|g: int| 0 <= g < fl.len() ==> #[trigger] rate1[g] == if !sat0[g] {
            rate0[g] + b
        } else {
            rate0[g] as int
        },
        r1.len() == r0.len(),
        forall|i: int| 0 <= i < r0.len() ==> #[trigger] r1[i] <= r0[i],
        forall|g: int, j: int| 0 <= g < fl.len() && 0 <= j < fl[g].len() ==> (#[trigger] fl[g][j]).0 < r0.len(),
        forall|g: int| 0 <= g < fl.len() ==> #[trigger] sat1[g] == (sat0[g] || hits_zero(r1, fl[g])),
        forall|g: int| 0 <= g < fl.len() && #[trigger] sat0[g] ==> fl[g].len() == 0 || hits_zero(r0, fl[g]),
    ensures
        pass_inv(fl, r1, rate1, sat1, lvl + b, 0),
{
    let n = fl.len() as int;
    let l2 = lvl + b;
    assert forall|g: int| 0 <= g < n && !sat1[g] && !hits_zero(r1, fl[g]) implies #[trigger] rate1[g] == l2 + if g < 0 {
        1int
    } else {
        0int
    } by {
        assert(!sat0[g]);
        assert(!hits_zero(r0, fl[g]));
        assert(rate0[g] == lvl);
    }
    assert forall|g: int| 0 <= g < n implies #[trigger] rate1[g] <= l2 + if g < 0 {
        1int
    } else {
        0int
    } by {
        assert(rate0[g] <= lvl);
        if !sat0[g] {
            assert(!hits_zero(r0, fl[g]));
        }
    }
    assert forall|g: int| 0 <= g < n && fl[g].len() > 0 && hits_zero(r1, #[trigger] fl[g]) implies fair_link(fl, r1, rate1, g) by {
        if hits_zero(r0, fl[g]) {
            assert(sat0[g]);
            assert(fair_link(fl, r0, rate0, g));
            let j = choose|j: int|
                0 <= j < fl[g].len() && cir_at(r0, (#[trigger] fl[g][j]).0 as int) == 0 && forall|h: int|
                    0 <= h < fl.len() && #[trigger] fl[h].contains(fl[g][j]) ==> rate0[h] <= rate0[g] + 1;
            let e = fl[g][j];
            let i = e.0 as int;
            assert(r1[i] <= r0[i]);
            assert(cir_at(r1, fl[g][j].0 as int) == 0);
            assert forall|h: int| 0 <= h < n && #[trigger] fl[h].contains(fl[g][j]) implies rate1[h] <= rate1[g] + 1 by {
                if !sat0[h] {
                    let k = choose|k: int| 0 <= k < fl[h].len() && fl[h][k] == e;
                    assert(cir_at(r0, fl[h][k].0 as int) == 0);
                    assert(hits_zero(r0, fl[h]));
                }
            }
        } else {
            if sat0[g] {
                assert(false);
            }
            assert(rate0[g] == lvl);
            let j = choose|j: int| 0 <= j < fl[g].len() && cir_at(r1, (#[trigger] fl[g][j]).0 as int) == 0;
            assert forall|h: int| 0 <= h < n && #[trigger] fl[h].contains(fl[g][j]) implies rate1[h] <= rate1[g] + 1 by {
                assert(rate0[h] <= lvl);
                if !sat0[h] {
                    assert(!hits_zero(r0, fl[h]));
                }
            }
        }
    }
}

proof fn lemma_mul_div_le(b: nat, c: nat, r: nat)
    requires
        c >= 1,
        b <= r / c,
    ensures
        b * c <= r,
{
    assert(b * c <= (r / c) * c) by (nonlinear_arith)
        requires
            b <= r / c,
    ;
    assert((r / c) * c <= r) by (nonlinear_arith)
        requires
            c >= 1,
    ;
}

proof fn lemma_contains_index(p: Seq<LinkId>, e: LinkId) -> (j: int)
    requires
        p.contains(e),
    ensures
        0 <= j < p.len(),
        p[j] == e,
{
    choose|j: int| 0 <= j < p.len() && p[j] == e
}

fn any_active(sat: &Vec<bool>) -> (r: bool)
    ensures
        r == exists|f: int| 0 <= f < sat@.len() && !#[trigger] sat@[f],
{
    let mut f: usize = 0;
    while f < sat.len()
        invariant
            f <= sat@.len(),
            forall|g: int| 0 <= g < f ==> #[trigger] sat@[g],
        decreases sat@.len() - f,
    {
        if !sat[f] {
            return true;
        }
        f = f + 1;
    }
    false
}

/// One round of the equal-share fill: give every active flow the bottleneck
/// share, take it from every link it crosses, and saturate the flows that
/// exhausted a link. `false` when no round can be made.
#[verifier::spinoff_prover]
#[verifier::rlimit(40)]
fn fill_round(
    flows: &[Path],
    leftover: &[u64],
    rem: &mut Vec<u64>,
    rate: &mut Vec<u64>,
    sat: &mut Vec<bool>,
    Ghost(lvl): Ghost<int>,
) -> (progress: bool)
    requires
        fill_inv(paths_view(flows@), leftover@, old(rem)@, old(rate)@, old(sat)@),
        flows@.len() > 0,
    ensures
        pass_inv(paths_view(flows@), old(rem)@, old(rate)@, old(sat)@, lvl, 0) ==> exists|l: int|
            pass_inv(paths_view(flows@), final(rem)@, final(rate)@, final(sat)@, l, 0),
        fill_inv(paths_view(flows@), leftover@, final(rem)@, final(rate)@, final(sat)@),
        !progress ==> final(rem)@ == old(rem)@ && final(rate)@ == old(rate)@ && final(sat)@ == old(sat)@,
        progress ==> total(final(rem)@) < total(old(rem)@),
        forall|f: int| 0 <= f < flows@.len() ==> #[trigger] final(rate)@[f] >= old(rate)@[f],
        fill_ready(paths_view(flows@), leftover@) && (forall|f: int|
            0 <= f < flows@.len() ==> #[trigger] old(rate)@[f] == 0) ==> progress && forall|f: int|
            0 <= f < flows@.len() ==> #[trigger] final(rate)@[f] >= 1,
{
    let ghost fl = paths_view(flows@);
    let ghost n = flows@.len() as int;
    let ghost lo = leftover@;
    let ghost m = rem@.len() as int;
    let ghost r0 = rem@;
    let ghost rate0 = rate@;
    let ghost sat0 = sat@;
    assert(fl.len() == n);
    assert forall|f: int| 0 <= f < n implies #[trigger] fl[f] == flows@[f].links@ by {}
    // Under the ready conditions with nothing placed yet, every flow is active
    // and every share is at least one and below the maximum.
    proof {
        if fill_ready(fl, lo) && (forall|f: int| 0 <= f < n ==> #[trigger] rate0[f] == 0) {
            assert forall|f: int| 0 <= f < n implies !#[trigger] sat0[f] by {
                assert(!blocked(fl[f], lo));
            }
            assert(sat0 =~= blocked_set(fl, lo)) by {
                assert forall|f: int| 0 <= f < n implies #[trigger] sat0[f] == blocked_set(fl, lo)[f] by {
                    assert(!blocked(fl[f], lo));
                }
            }
        }
    }
    if !any_active(sat) {
        proof {
            if fill_ready(fl, lo) && (forall|f: int| 0 <= f < n ==> #[trigger] rate0[f] == 0) {
                assert(!sat0[0]);
            }
            if pass_inv(fl, r0, rate0, sat0, lvl, 0) {
                assert(pass_inv(fl, rem@, rate@, sat@, lvl, 0));
            }
        }
        return false;
    }
    let b = bottleneck(flows, sat, rem);
    proof {
        if fill_ready(fl, lo) && (forall|f: int| 0 <= f < n ==> #[trigger] rate0[f] == 0) {
            assert forall|f: int, j: int| active_link(fl, sat0, f, j) implies 1 <= share(
                fl,
                sat0,
                r0,
                #[trigger] fl[f][j],
            ) < u64::MAX by {
                let e = fl[f][j];
                lemma_count_member(fl, sat0, e, n, f);
                assert(fl[f].contains(e)) by {
                    assert(fl[f][j] == e);
                }
                assert(!blocked(fl[f], lo));
                assert(lo_at(lo, e.0 as int) != 0);
                assert(count_on(fl, sat0, e, n) == count_on(fl, blocked_set(fl, lo), e, n));
                assert(!(0 < lo_at(lo, e.0 as int) < count_on(fl, blocked_set(fl, lo), e, n)));
                assert(r0[e.0 as int] == lo_at(lo, e.0 as int));
                assert(cir_at(r0, e.0 as int) == lo_at(lo, e.0 as int));
                let c = count_on(fl, sat0, e, n);
                let l = lo_at(lo, e.0 as int);
                assert(1 <= l as int / c as int <= l) by (nonlinear_arith)
                    requires
                        c >= 1,
                        l >= c,
                ;
            }
            assert(fl[0].len() > 0) by {
                assert(!blocked(fl[0], lo));
            }
            assert(active_link(fl, sat0, 0, 0));
            lemma_count_member(fl, sat0, fl[0][0], n, 0);
            assert(fl[0].contains(fl[0][0]));
            assert(b <= share(fl, sat0, r0, fl[0][0]));
        }
    }
    if b == 0 || b == u64::MAX {
        proof {
            if pass_inv(fl, r0, rate0, sat0, lvl, 0) {
                assert(pass_inv(fl, rem@, rate@, sat@, lvl, 0));
            }
        }
        return false;
    }
    // What each link gives never exceeds what it has, and no rate overflows.
    proof {
        assert forall|i: int| 0 <= i < m implies b * count_on(fl, sat0, LinkId(i as u32), n) <= #[trigger] r0[i] by {
            let e = LinkId(i as u32);
            let c = count_on(fl, sat0, e, n);
            if c >= 1 {
                lemma_count_witness(fl, sat0, e, n);
                let f = choose|f: int| 0 <= f < n && !sat0[f] && #[trigger] fl[f].contains(e);
                let j = lemma_contains_index(fl[f], e);
                assert(active_link(fl, sat0, f, j));
                assert(b <= share(fl, sat0, r0, fl[f][j]));
                assert(cir_at(r0, e.0 as int) == r0[i]);
                lemma_mul_div_le(b as nat, c, r0[i] as nat);
            } else {
                assert(b * c == 0) by (nonlinear_arith)
                    requires
                        c == 0,
                ;
            }
        }
        assert forall|f: int| 0 <= f < n && !sat0[f] implies rate0[f] + b <= u64::MAX by {
            assert(fl[f].len() > 0);
            let e = fl[f][0];
            assert(fl[f].contains(e));
            lemma_count_member(fl, sat0, e, n, f);
            lemma_load_member(fl, rate0, e, n, f);
            let i = e.0 as int;
            assert(LinkId(i as u32) == e);
            assert(b * count_on(fl, sat0, e, n) <= r0[i]);
            assert(b <= b * count_on(fl, sat0, e, n)) by (nonlinear_arith)
                requires
                    count_on(fl, sat0, e, n) >= 1,
            ;
        }
    }
    add_to_active(rate, sat, flows, b);
    drain_shared(rem, sat, flows, b);
    let ghost r1 = rem@;
    let ghost rate1 = rate@;
    mark_saturated(sat, rem, flows);
    proof {
        // The ledger balances: each link lost what its flows gained.
        assert forall|i: int| 0 <= i < m implies #[trigger] r1[i] + load_on(fl, rate1, LinkId(i as u32), n) == r0[i]
            + load_on(fl, rate0, LinkId(i as u32), n) by {}
        // Exhausted links stay exhausted.
        assert forall|f: int| 0 <= f < n && #[trigger] sat@[f] implies fl[f].len() == 0 || hits_zero(r1, fl[f]) by {
            if sat0[f] && fl[f].len() > 0 {
                let j = choose|j: int| 0 <= j < fl[f].len() && cir_at(r0, (#[trigger] fl[f][j]).0 as int) == 0;
                let i = fl[f][j].0 as int;
                assert(r1[i] <= r0[i]);
                assert(cir_at(r1, fl[f][j].0 as int) == 0);
            } else if !sat0[f] {
                assert(hits_zero(r1, flows@[f].links@));
            }
        }
        // Some active flow now has rate.
        let f0 = choose|f: int| 0 <= f < sat0.len() && !#[trigger] sat0[f];
        assert(rate1[f0] >= 1);
        // The table shrank.
        assert(fl[f0].len() > 0);
        let e0 = fl[f0][0];
        assert(fl[f0].contains(e0));
        lemma_count_member(fl, sat0, e0, n, f0);
        let i0 = e0.0 as int;
        assert(LinkId(i0 as u32) == e0);
        assert(b * count_on(fl, sat0, e0, n) >= 1) by (nonlinear_arith)
            requires
                b >= 1,
                count_on(fl, sat0, e0, n) >= 1,
        ;
        assert(r1[i0] < r0[i0]);
        lemma_total_lt(r1, r0, i0);
        if fill_ready(fl, lo) && (forall|f: int| 0 <= f < n ==> #[trigger] rate0[f] == 0) {
            assert forall|f: int| 0 <= f < n implies #[trigger] rate1[f] >= 1 by {
                assert(!sat0[f]);
            }
        }
        if pass_inv(fl, r0, rate0, sat0, lvl, 0) {
            // A round gives a share only to flows whose links all have something left.
            assert forall|f: int| 0 <= f < n && !sat0[f] implies !hits_zero(r0, #[trigger] fl[f]) by {
                if hits_zero(r0, fl[f]) {
                    let j = choose|j: int| 0 <= j < fl[f].len() && cir_at(r0, (#[trigger] fl[f][j]).0 as int) == 0;
                    let e = fl[f][j];
                    assert(fl[f].contains(e));
                    lemma_count_member(fl, sat0, e, n, f);
                    assert(active_link(fl, sat0, f, j));
                    assert(b <= share(fl, sat0, r0, fl[f][j]));
                    let c = count_on(fl, sat0, e, n);
                    assert(0int / (c as int) == 0) by (nonlinear_arith)
                        requires
                            c >= 1,
                    ;
                }
            }
            assert forall|g: int| 0 <= g < n implies #[trigger] rate1[g] == if !sat0[g] {
                rate0[g] + b
            } else {
                rate0[g] as int
            } by {}
            assert forall|i: int| 0 <= i < m implies #[trigger] r1[i] <= r0[i] by {}
            assert forall|g: int| 0 <= g < n implies #[trigger] sat@[g] == (sat0[g] || hits_zero(r1, fl[g])) by {}
            lemma_round_fair(fl, r0, r1, rate0, rate1, sat0, sat@, b, lvl);
            assert(pass_inv(fl, rem@, rate@, sat@, lvl + b, 0));
        }
    }
    true
}

/// One pass of single units: each active flow whose links all have something
/// left gets one more unit, taken from each of its links. `true` when some flow
/// got one.
#[verifier::spinoff_prover]
#[verifier::rlimit(40)]
fn crumb_pass(
    flows: &[Path],
    leftover: &[u64],
    rem: &mut Vec<u64>,
    rate: &mut Vec<u64>,
    sat: &mut Vec<bool>,
    Ghost(lvl): Ghost<int>,
) -> (progressed: bool)
    requires
        fill_inv(paths_view(flows@), leftover@, old(rem)@, old(rate)@, old(sat)@),
    ensures
        pass_inv(paths_view(flows@), old(rem)@, old(rate)@, old(sat)@, lvl, 0) ==> pass_inv(
            paths_view(flows@),
            final(rem)@,
            final(rate)@,
            final(sat)@,
            lvl + 1,
            0,
        ),
        fill_inv(paths_view(flows@), leftover@, final(rem)@, final(rate)@, final(sat)@),
        !progressed ==> final(rem)@ == old(rem)@ && final(rate)@ == old(rate)@,
        !progressed ==> forall|f: int|
            0 <= f < flows@.len() ==> #[trigger] final(sat)@[f] || hits_zero(final(rem)@, paths_view(flows@)[f]),
        progressed ==> total(final(rem)@) < total(old(rem)@),
        forall|f: int| 0 <= f < flows@.len() ==> #[trigger] final(rate)@[f] >= old(rate)@[f],
{
    let ghost fl = paths_view(flows@);
    let ghost n = flows@.len() as int;
    let ghost lo = leftover@;
    let ghost m = rem@.len() as int;
    let ghost r0 = rem@;
    let ghost rate0 = rate@;
    let ghost sat0 = sat@;
    let ghost pre = pass_inv(fl, r0, rate0, sat0, lvl, 0);
    assert forall|f: int| 0 <= f < n implies #[trigger] fl[f] == flows@[f].links@ by {}
    let mut progressed = false;
    let mut f: usize = 0;
    while f < flows.len()
        invariant
            fl == paths_view(flows@),
            n == flows@.len(),
            fl.len() == n,
            m == rem@.len(),
            forall|g: int| 0 <= g < n ==> #[trigger] fl[g] == flows@[g].links@,
            fill_inv(fl, lo, rem@, rate@, sat@),
            lo == leftover@,
            f <= n,
            !progressed ==> rem@ == r0 && rate@ == rate0,
            !progressed ==> forall|g: int| 0 <= g < f ==> #[trigger] sat@[g] || hits_zero(rem@, fl[g]),
            progressed ==> total(rem@) < total(r0),
            total(rem@) <= total(r0),
            forall|g: int| 0 <= g < n ==> #[trigger] rate@[g] >= rate0[g],
            pre == pass_inv(fl, r0, rate0, sat0, lvl, 0),
            pre ==> pass_inv(fl, rem@, rate@, sat@, lvl, f as int),
        decreases n - f,
    {
        let ghost sat_pre = sat@;
        let ghost rem_pre = rem@;
        let ghost rate_pre = rate@;
        if !sat[f] && !any_zero(rem, &flows[f]) {
            let ghost rem_b = rem@;
            let ghost rate_b = rate@;
            let ghost sat_b = sat@;
            proof {
                assert(fill_inv(fl, lo, rem_b, rate_b, sat_b));
                assert(fl[f as int].len() > 0);
                let e = fl[f as int][0];
                assert(fl[f as int].contains(e));
                lemma_load_member(fl, rate_b, e, n, f as int);
                let i = e.0 as int;
                assert(LinkId(i as u32) == e);
                assert(cir_at(rem_b, i) != 0);
                assert forall|j: int| 0 <= j < flows@[f as int].links@.len() implies rem_b[(
                #[trigger] flows@[f as int].links@[j]).0 as int] >= 1 by {
                    assert(fl[f as int][j] == flows@[f as int].links@[j]);
                    assert(cir_at(rem_b, fl[f as int][j].0 as int) != 0);
                }
            }
            let v = rate[f] + 1;
            rate.set(f, v);
            take_crumb(rem, &flows[f]);
            if any_zero(rem, &flows[f]) {
                sat.set(f, true);
            }
            proof {
                let p = fl[f as int];
                assert forall|e: LinkId| #[trigger] load_on(fl, rate@, e, n) == load_on(fl, rate_b, e, n) + if p.contains(e) {
                    1nat
                } else {
                    0nat
                } by {
                    lemma_load_update(fl, rate_b, f as int, v, e, n);
                    assert(rate@ == rate_b.update(f as int, v));
                }
                assert forall|i: int| 0 <= i < m implies #[trigger] rem@[i] + load_on(fl, rate@, LinkId(i as u32), n)
                    <= lo_at(lo, i) by {
                    assert(rem_b[i] + load_on(fl, rate_b, LinkId(i as u32), n) <= lo_at(lo, i));
                }
                if no_repeats(fl) {
                    assert(path_no_repeats(flows@[f as int].links@)) by {
                        assert forall|a: int, b: int| 0 <= a < b < p.len() implies #[trigger] p[a] != #[trigger] p[b] by {
                            assert(fl[f as int][a] != fl[f as int][b]);
                        }
                    }
                    assert forall|i: int| 0 <= i < m implies #[trigger] rem@[i] + load_on(fl, rate@, LinkId(i as u32), n)
                        == lo_at(lo, i) by {
                        assert(rem_b[i] + load_on(fl, rate_b, LinkId(i as u32), n) == lo_at(lo, i));
                    }
                }
                assert forall|g: int| 0 <= g < n && #[trigger] sat@[g] implies fl[g].len() == 0 || hits_zero(rem@, fl[g]) by {
                    if g != f && fl[g].len() > 0 {
                        assert(sat_b[g]);
                        let j = choose|j: int| 0 <= j < fl[g].len() && cir_at(rem_b, (#[trigger] fl[g][j]).0 as int) == 0;
                        let i = fl[g][j].0 as int;
                        assert(LinkId(i as u32) == fl[g][j]);
                        assert(rem@[i] <= rem_b[i]);
                        assert(cir_at(rem@, fl[g][j].0 as int) == 0);
                    }
                }
                assert(p.contains(p[0]));
                let i0 = p[0].0 as int;
                assert(LinkId(i0 as u32) == p[0]);
                assert(rem@[i0] < rem_b[i0]);
                assert forall|i: int| 0 <= i < m implies #[trigger] rem@[i] <= rem_b[i] by {}
                lemma_total_lt(rem@, rem_b, i0);
                assert(rate@[f as int] >= 1);
                assert(rate@.len() == n);
                assert(sat@.len() == n);
                assert forall|g: int| 0 <= g < n && fl[g].len() == 0 implies #[trigger] sat@[g] && rate@[g] == 0 by {
                    assert(fill_inv(fl, lo, rem_b, rate_b, sat_b));
                    assert(sat_b[g] && rate_b[g] == 0);
                    assert(g != f);
                    assert(rate@[g] == rate_b[g]);
                }
                assert(!(forall|g: int| 0 <= g < n ==> #[trigger] rate@[g] == 0));
            }
            proof {
                if pre {
                    assert(rate@ == rate_pre.update(f as int, (rate_pre[f as int] + 1) as u64));
                    assert forall|i: int| 0 <= i < m && !fl[f as int].contains(LinkId(i as u32)) implies #[trigger] rem@[i]
                        == rem_pre[i] by {}
                    assert forall|i: int| 0 <= i < m implies #[trigger] rem@[i] <= rem_pre[i] by {}
                    assert forall|g: int| 0 <= g < n && g != f implies #[trigger] sat@[g] == sat_pre[g] by {}
                    lemma_crumb_fair(fl, rem_pre, rem@, rate_pre, rate@, sat_pre, sat@, f as int, lvl);
                }
            }
            progressed = true;
        } else {
            proof {
                if pre {
                    lemma_crumb_skip(fl, rem@, rate@, sat@, f as int, lvl);
                }
            }
        }
        f = f + 1;
    }
    proof {
        if pre {
            assert(pass_inv(fl, rem@, rate@, sat@, lvl + 1, 0)) by {
                assert forall|g: int| 0 <= g < n implies #[trigger] rate@[g] <= (lvl + 1) + if g < 0 {
                    1int
                } else {
                    0int
                } by {
                    assert(rate@[g] <= lvl + if g < n {
                        1int
                    } else {
                        0int
                    });
                }
                assert forall|g: int| 0 <= g < n && !sat@[g] && !hits_zero(rem@, fl[g]) implies #[trigger] rate@[g] == (lvl
                    + 1) + if g < 0 {
                    1int
                } else {
                    0int
                } by {
                    assert(rate@[g] == lvl + if g < n {
                        1int
                    } else {
                        0int
                    });
                }
            }
        }
    }
    progressed
}

/// Max-min fill of `flows` over `leftover` (indexed by link id; missing links
/// have nothing left): equal shares of the tightest link in rounds, then single
/// units in flow order. Every flow gets at least one unit, or the fill reports
/// `ZeroLeftover` when no flow can get anything and `ResidualExhausted` when
/// some cannot.
#[verifier::spinoff_prover]
#[verifier::rlimit(40)]
pub fn water_fill(flows: &[Path], leftover: &[u64]) -> (r: Result<Vec<u64>, RejectCode>)
    requires
        leftover@.len() <= u32::MAX,
    ensures
        flows@.len() == 0 ==> (r matches Ok(v) && v@.len() == 0),
        match r {
            Ok(rates) => {
                &&& rates@.len() == flows@.len()
                &&& forall|f: int| 0 <= f < flows@.len() ==> #[trigger] rates@[f] >= 1
                &&& feasible(paths_view(flows@), rates@, leftover@)
                &&& no_repeats(paths_view(flows@)) ==> saturating(paths_view(flows@), rates@, leftover@)
                &&& forall|f: int| 0 <= f < flows@.len() ==> (#[trigger] flows@[f]).links@.len() > 0
                &&& no_repeats(paths_view(flows@)) ==> max_min(paths_view(flows@), rates@, leftover@)
            },
            Err(code) => {
                &&& flows@.len() > 0
                &&& code == RejectCode::ZeroLeftover || code == RejectCode::ResidualExhausted
                &&& !fill_ready(paths_view(flows@), leftover@)
            },
        },
        (r matches Err(RejectCode::ZeroLeftover)) <==> (flows@.len() > 0 && forall|f: int|
            0 <= f < flows@.len() ==> blocked(#[trigger] paths_view(flows@)[f], leftover@)),
{
    let n = flows.len();
    if n == 0 {
        return Ok(Vec::new());
    }
    let ghost fl = paths_view(flows@);
    let ghost lo = leftover@;
    assert forall|f: int| 0 <= f < n implies #[trigger] fl[f] == flows@[f].links@ by {}
    // Size the table to the highest link on any path.
    let mut max_idx: u64 = 0;
    let mut f: usize = 0;
    while f < n
        invariant
            n == flows@.len(),
            fl == paths_view(flows@),
            forall|g: int| 0 <= g < n ==> #[trigger] fl[g] == flows@[g].links@,
            f <= n,
            max_idx <= u32::MAX + 1,
            forall|g: int, j: int| 0 <= g < f && 0 <= j < fl[g].len() ==> (#[trigger] fl[g][j]).0 < max_idx,
        decreases n - f,
    {
        let p = &flows[f];
        let mut j: usize = 0;
        while j < p.links.len()
            invariant
                n == flows@.len(),
                fl == paths_view(flows@),
                f < n,
                fl[f as int] == p.links@,
                j <= p.links@.len(),
                max_idx <= u32::MAX + 1,
                forall|g: int, k: int|
                    ((0 <= g < f && 0 <= k < fl[g].len()) || (g == f && 0 <= k < j)) ==> (#[trigger] fl[g][k]).0
                        < max_idx,
            decreases p.links@.len() - j,
        {
            let idx = p.links[j].0 as u64 + 1;
            if idx > max_idx {
                max_idx = idx;
            }
            j = j + 1;
        }
        f = f + 1;
    }
    let mut rem: Vec<u64> = Vec::new();
    let mut i: usize = 0;
    while i < leftover.len()
        invariant
            i <= leftover@.len(),
            rem@.len() == i,
            forall|k: int| 0 <= k < i ==> #[trigger] rem@[k] == leftover@[k],
        decreases leftover@.len() - i,
    {
        rem.push(leftover[i]);
        i = i + 1;
    }
    while (rem.len() as u64) < max_idx
        invariant
            leftover@.len() <= rem@.len(),
            rem@.len() <= u32::MAX + 1,
            max_idx <= u32::MAX + 1,
            forall|k: int| 0 <= k < rem@.len() ==> #[trigger] rem@[k] == lo_at(leftover@, k),
        decreases max_idx - rem@.len(),
    {
        rem.push(0);
    }
    let mut rate: Vec<u64> = Vec::new();
    let mut sat: Vec<bool> = Vec::new();
    let mut g: usize = 0;
    while g < n
        invariant
            n == flows@.len(),
            g <= n,
            rate@.len() == g,
            sat@.len() == g,
            forall|k: int| 0 <= k < g ==> #[trigger] rate@[k] == 0,
            forall|k: int| 0 <= k < g ==> #[trigger] sat@[k] == (flows@[k].links@.len() == 0),
        decreases n - g,
    {
        rate.push(0);
        sat.push(flows[g].links.len() == 0);
        g = g + 1;
    }
    proof {
        let m = rem@.len() as int;
        assert forall|i: int| 0 <= i < m implies #[trigger] rem@[i] + load_on(fl, rate@, LinkId(i as u32), n as int)
            == lo_at(lo, i) by {
            lemma_load_zero(fl, rate@, LinkId(i as u32), n as int);
        }
        assert(fill_inv(fl, lo, rem@, rate@, sat@));
        assert forall|g: int| 0 <= g < n && fl[g].len() > 0 && hits_zero(rem@, #[trigger] fl[g]) implies fair_link(
            fl,
            rem@,
            rate@,
            g,
        ) by {
            let j = choose|j: int| 0 <= j < fl[g].len() && cir_at(rem@, (#[trigger] fl[g][j]).0 as int) == 0;
            assert forall|h: int| 0 <= h < n && #[trigger] fl[h].contains(fl[g][j]) implies rate@[h] <= rate@[g] + 1 by {}
        }
        assert(pass_inv(fl, rem@, rate@, sat@, 0, 0));
    }
    // Equal shares while a round can be made.
    let mut going = true;
    while going
        invariant
            n == flows@.len(),
            n > 0,
            fl == paths_view(flows@),
            lo == leftover@,
            fill_inv(fl, lo, rem@, rate@, sat@),
            fill_ready(fl, lo) ==> (forall|k: int| 0 <= k < n ==> #[trigger] rate@[k] >= 1) || (forall|k: int|
                0 <= k < n ==> #[trigger] rate@[k] == 0),
            !going ==> fill_ready(fl, lo) ==> forall|k: int| 0 <= k < n ==> #[trigger] rate@[k] >= 1,
            exists|l: int| pass_inv(fl, rem@, rate@, sat@, l, 0),
        decreases total(rem@) + if going {
            1nat
        } else {
            0nat
        },
    {
        let ghost l = choose|l: int| pass_inv(fl, rem@, rate@, sat@, l, 0);
        let progress = fill_round(flows, leftover, &mut rem, &mut rate, &mut sat, Ghost(l));
        if !progress {
            going = false;
        }
    }
    // Single units while some flow can take one.
    let mut going = true;
    while going
        invariant
            n == flows@.len(),
            n > 0,
            fl == paths_view(flows@),
            lo == leftover@,
            fill_inv(fl, lo, rem@, rate@, sat@),
            fill_ready(fl, lo) ==> forall|k: int| 0 <= k < n ==> #[trigger] rate@[k] >= 1,
            !going ==> forall|k: int| 0 <= k < n ==> #[trigger] sat@[k] || hits_zero(rem@, fl[k]),
            exists|l: int| pass_inv(fl, rem@, rate@, sat@, l, 0),
        decreases total(rem@) + if going {
            1nat
        } else {
            0nat
        },
    {
        let ghost l = choose|l: int| pass_inv(fl, rem@, rate@, sat@, l, 0);
        let progressed = crumb_pass(flows, leftover, &mut rem, &mut rate, &mut sat, Ghost(l));
        assert(pass_inv(fl, rem@, rate@, sat@, l + 1, 0));
        if !progressed {
            going = false;
        }
    }
    let mut all_zero = true;
    let mut some_zero = false;
    let mut k: usize = 0;
    while k < n
        invariant
            n == rate@.len(),
            k <= n,
            all_zero == forall|x: int| 0 <= x < k ==> #[trigger] rate@[x] == 0,
            some_zero == exists|x: int| 0 <= x < k && #[trigger] rate@[x] == 0,
        decreases n - k,
    {
        if rate[k] == 0 {
            some_zero = true;
        } else {
            all_zero = false;
        }
        k = k + 1;
    }
    proof {
        let m = rem@.len() as int;
        // Every flow with a path crosses an exhausted link.
        assert forall|f: int| 0 <= f < n && fl[f].len() > 0 implies hits_zero(rem@, #[trigger] fl[f]) by {
            assert(sat@[f] || hits_zero(rem@, fl[f]));
            if sat@[f] {
                assert(fl[f].len() == 0 || hits_zero(rem@, fl[f]));
            }
        }
        // A blocked flow has no rate.
        assert forall|f: int| 0 <= f < n && blocked(#[trigger] fl[f], lo) implies rate@[f] == 0 by {
            if fl[f].len() == 0 {
                assert(sat@[f] && rate@[f] == 0);
            } else {
                let j = choose|j: int| 0 <= j < fl[f].len() && lo_at(lo, (#[trigger] fl[f][j]).0 as int) == 0;
                let e = fl[f][j];
                assert(fl[f].contains(e));
                lemma_load_member(fl, rate@, e, n as int, f);
                let i = e.0 as int;
                assert(LinkId(i as u32) == e);
                assert(rem@[i] + load_on(fl, rate@, e, n as int) <= lo_at(lo, i));
            }
        }
        if !all_zero {
            let x = choose|x: int| 0 <= x < n && #[trigger] rate@[x] != 0;
            assert(!blocked(fl[x], lo));
        }
        if all_zero {
            assert forall|f: int| 0 <= f < n implies blocked(#[trigger] fl[f], lo) by {
                if fl[f].len() > 0 {
                    assert(hits_zero(rem@, fl[f]));
                    let j = choose|j: int| 0 <= j < fl[f].len() && cir_at(rem@, (#[trigger] fl[f][j]).0 as int) == 0;
                    let i = fl[f][j].0 as int;
                    assert(rem@[i] == lo_at(lo, i));
                }
            }
        }
        if !some_zero {
            assert forall|e: LinkId| #[trigger] load_on(fl, rate@, e, n as int) <= lo_at(lo, e.0 as int) by {
                if (e.0 as int) < m {
                    let i = e.0 as int;
                    assert(LinkId(i as u32) == e);
                    assert(rem@[i] + load_on(fl, rate@, LinkId(i as u32), n as int) <= lo_at(lo, i));
                } else {
                    assert forall|f: int| 0 <= f < n implies !(#[trigger] fl[f]).contains(e) by {
                        if fl[f].contains(e) {
                            let j = lemma_contains_index(fl[f], e);
                            assert(fl[f][j].0 < m);
                        }
                    }
                    lemma_load_untouched(fl, rate@, e, n as int);
                }
            }
            assert forall|f: int| 0 <= f < n implies (#[trigger] flows@[f]).links@.len() > 0 by {
                if fl[f].len() == 0 {
                    assert(sat@[f] && rate@[f] == 0);
                    assert(exists|x: int| 0 <= x < n && #[trigger] rate@[x] == 0);
                }
            }
            if no_repeats(fl) {
                let l = choose|l: int| pass_inv(fl, rem@, rate@, sat@, l, 0);
                assert forall|f: int| 0 <= f < fl.len() implies #[trigger] fair_share(fl, rate@, lo, f) by {
                    assert(flows@[f].links@.len() > 0);
                    assert(hits_zero(rem@, fl[f]));
                    assert(fair_link(fl, rem@, rate@, f));
                    let j = choose|j: int|
                        0 <= j < fl[f].len() && cir_at(rem@, (#[trigger] fl[f][j]).0 as int) == 0 && forall|g: int|
                            0 <= g < fl.len() && #[trigger] fl[g].contains(fl[f][j]) ==> rate@[g] <= rate@[f] + 1;
                    let i = fl[f][j].0 as int;
                    assert(LinkId(i as u32) == fl[f][j]);
                    assert(rem@[i] + load_on(fl, rate@, LinkId(i as u32), n as int) == lo_at(lo, i));
                    assert(load_on(fl, rate@, fl[f][j], fl.len() as int) == lo_at(lo, fl[f][j].0 as int));
                }
                assert forall|f: int| 0 <= f < fl.len() && fl[f].len() > 0 implies exists|j: int|
                    0 <= j < fl[f].len() && #[trigger] load_on(fl, rate@, fl[f][j], fl.len() as int) == lo_at(
                        lo,
                        fl[f][j].0 as int,
                    ) by {
                    assert(hits_zero(rem@, fl[f]));
                    let j = choose|j: int| 0 <= j < fl[f].len() && cir_at(rem@, (#[trigger] fl[f][j]).0 as int) == 0;
                    let i = fl[f][j].0 as int;
                    assert(LinkId(i as u32) == fl[f][j]);
                    assert(rem@[i] + load_on(fl, rate@, LinkId(i as u32), n as int) == lo_at(lo, i));
                }
            }
        }
    }
    if all_zero {
        return Err(RejectCode::ZeroLeftover);
    }
    if some_zero {
        return Err(RejectCode::ResidualExhausted);
    }
    Ok(rate)
}

} // verus!
