//! Failures: their command-line form, their effect on the graph, and the
//! prepare step of a failure epoch.
use vstd::prelude::*;

use crate::cli_text::{
    all_digits, chars_of, decimal_parts, digits_value, first_alpha, first_index_of, find_char,
    is_word, parse_u32, pow10, pow10_u128, slice_chars, spec_decimal_parts, spec_parse_u32,
};
use std::collections::BTreeMap;

use crate::arith::sat_add_i128;
use crate::fel::Event;
use crate::failures::{apply_fail, failed_by, law_failure_keeps_wf};
use crate::model::{div_round_half_even, phase_duration_ps, round_half_even};
use crate::naive::{same_node, some_route};
use crate::paths::{copy_path, Path};
use crate::residual::Residual;
use crate::table::{communicators, map_keys, Flow, JobRec, JobTable};
use crate::topo::{graph_wf, spec_gpu, spec_link, Graph, Link, Node};
use crate::waterfill::water_fill;
use crate::types::{
    EpochId, Endpoint, EventKind, EventPayload, FlowId, GpuAvail, GpuId, JobId, JobState, LeafId,
    LinkId, Policy, RailId, RejectCode, SpineId,
};

verus! {

/// Failure time when the spec gives none: 1 ps.
pub const DEFAULT_FAIL_PS: i128 = 1;

/// What fails.
#[derive(Copy, Clone, Debug, PartialEq, Eq, Structural)]
pub enum FailKind {
    Spine(SpineId),
    Leaf(LeafId),
    Rail(RailId),
    Link(LinkId),
}

/// A failure and when it happens.
#[derive(Copy, Clone, Debug, PartialEq, Eq, Structural)]
pub struct FailSpec {
    pub t_ps: i128,
    pub kind: FailKind,
}

/// The event that announces a failure.
pub open spec fn spec_fail_event(k: FailKind) -> (EventKind, EventPayload) {
    match k {
        FailKind::Spine(spine) => (EventKind::SpineFail, EventPayload::SpineFail { spine }),
        FailKind::Leaf(leaf) => (EventKind::LeafFail, EventPayload::LeafFail { leaf }),
        FailKind::Rail(rail) => (EventKind::RailFail, EventPayload::RailFail { rail }),
        FailKind::Link(link) => (EventKind::LinkFail, EventPayload::LinkFail { link }),
    }
}

impl FailSpec {
    pub fn event(&self) -> (r: (EventKind, EventPayload))
        ensures
            r == spec_fail_event(self.kind),
    {
        match self.kind {
            FailKind::Spine(spine) => (EventKind::SpineFail, EventPayload::SpineFail { spine }),
            FailKind::Leaf(leaf) => (EventKind::LeafFail, EventPayload::LeafFail { leaf }),
            FailKind::Rail(rail) => (EventKind::RailFail, EventPayload::RailFail { rail }),
            FailKind::Link(link) => (EventKind::LinkFail, EventPayload::LinkFail { link }),
        }
    }
}

/// Picoseconds per unit, as a power of ten: `s` (or none) 12, `ms` 9, `us` 6,
/// `ns` 3, `ps` 0.
pub open spec fn unit_exp(u: Seq<char>) -> Option<nat> {
    if u == Seq::<char>::empty() || u == seq!['s'] {
        Some(12)
    } else if u == seq!['m', 's'] {
        Some(9)
    } else if u == seq!['u', 's'] {
        Some(6)
    } else if u == seq!['n', 's'] {
        Some(3)
    } else if u == seq!['p', 's'] {
        Some(0)
    } else {
        None
    }
}

/// A failure time: a decimal number (below `10^26` in its digits, at most 26
/// of them after the point) and an optional unit, converted to picoseconds
/// rounding half to even. Errors name the text, or the unit when that is what
/// is wrong.
pub open spec fn spec_fail_time(t: Seq<char>) -> Result<int, Seq<char>> {
    let ua = first_alpha(t);
    match spec_time_number(t.take(ua)) {
        None => Err("bad fail time "@ + t),
        Some(x) => match unit_exp(t.skip(ua)) {
            None => Err("bad fail time unit "@ + t.skip(ua)),
            Some(e) => Ok(signed_mag(x.0, round_half_even(x.1 * pow10(e), pow10(x.2)))),
        },
    }
}

/// `-mag` when negative, else `mag`.
pub open spec fn signed_mag(neg: bool, mag: nat) -> int {
    if neg {
        -mag
    } else {
        mag as int
    }
}

fn unit_of(u: &Vec<char>) -> (r: Option<u32>)
    ensures
        match r {
            Some(e) => unit_exp(u@) == Some(e as nat),
            None => unit_exp(u@) is None,
        },
{
    let n = u.len();
    if n == 0 {
        assert(u@ =~= Seq::<char>::empty());
        return Some(12);
    }
    if n == 1 {
        if u[0] == 's' {
            assert(u@ =~= seq!['s']);
            return Some(12);
        }
        assert(u@ != seq!['s']);
        assert(u@.len() != 2);
        return None;
    }
    if n == 2 && u[1] == 's' {
        let c = u[0];
        if c == 'm' {
            assert(u@ =~= seq!['m', 's']);
            return Some(9);
        }
        if c == 'u' {
            assert(u@ =~= seq!['u', 's']);
            return Some(6);
        }
        if c == 'n' {
            assert(u@ =~= seq!['n', 's']);
            return Some(3);
        }
        if c == 'p' {
            assert(u@ =~= seq!['p', 's']);
            return Some(0);
        }
        assert(u@[0] == c);
        assert(u@ != seq!['m', 's'] && u@ != seq!['u', 's'] && u@ != seq!['n', 's'] && u@ != seq!['p', 's']);
        return None;
    }
    if n == 2 {
        assert(u@[1] != seq!['m', 's'][1]);
        assert(u@ != seq!['m', 's'] && u@ != seq!['u', 's'] && u@ != seq!['n', 's'] && u@ != seq!['p', 's']);
    }
    None
}

/// The number part of a failure time: its sign, its digits as one value, and
/// the count of digits after the point, when it parses and is small enough.
#[verifier::opaque]
pub open spec fn spec_time_number(num: Seq<char>) -> Option<(bool, nat, nat)> {
    match spec_decimal_parts(num) {
        None => None,
        Some(parts) => {
            let m = digits_value(parts.1 + parts.2);
            if m >= pow10(26) || parts.2.len() > 26 {
                None
            } else {
                Some((parts.0, m, parts.2.len()))
            }
        },
    }
}

fn time_number(num: &Vec<char>) -> (r: Option<(bool, u128, usize)>)
    ensures
        match r {
            Some((neg, m, fd)) => spec_time_number(num@) == Some((neg, m as nat, fd as nat)) && m < pow10(26)
                && fd <= 26,
            None => spec_time_number(num@) is None,
        },
{
    reveal(spec_time_number);
    let parts = decimal_parts(num);
    let (neg, ip, fp) = match parts {
        None => {
            return None;
        },
        Some(x) => x,
    };
    let mut digs = slice_chars(&ip, 0, ip.len());
    let mut k: usize = 0;
    while k < fp.len()
        invariant
            k <= fp@.len(),
            digs@ == ip@ + fp@.take(k as int),
        decreases fp@.len() - k,
    {
        digs.push(fp[k]);
        k = k + 1;
        assert(digs@ =~= ip@ + fp@.take(k as int));
    }
    assert(fp@.take(fp@.len() as int) =~= fp@);
    let m = match crate::cli_text::small_digits_of(&digs) {
        None => {
            return None;
        },
        Some(x) => x,
    };
    if fp.len() > 26 {
        return None;
    }
    Some((neg, m, fp.len()))
}

/// Convert a failure time to picoseconds.
pub fn parse_fail_time(t: &str) -> (r: Result<i128, String>)
    ensures
        match r {
            Ok(ps) => spec_fail_time(t@) == Ok::<int, Seq<char>>(ps as int),
            Err(m) => spec_fail_time(t@) == Err::<int, Seq<char>>(m@),
        },
{
    let v = chars_of(t);
    let ua = crate::cli_text::letter_position(&v);
    let num = slice_chars(&v, 0, ua);
    let unit = slice_chars(&v, ua, v.len());
    assert(num@ =~= t@.take(ua as int));
    assert(unit@ =~= t@.skip(ua as int));
    let (neg, m, fd) = match time_number(&num) {
        None => {
            return Err(String::from_str("bad fail time ").concat(t));
        },
        Some(x) => x,
    };
    let e = match unit_of(&unit) {
        None => {
            let us = t.substring_char(ua, v.len());
            return Err(String::from_str("bad fail time unit ").concat(us));
        },
        Some(e) => e,
    };
    let mag = scaled_round(m, e, fd);
    let ps: i128 = if neg {
        -(mag as i128)
    } else {
        mag as i128
    };
    assert(ps as int == signed_mag(neg, mag as nat));
    Ok(ps)
}

/// `m * 10^e / 10^fd`, rounded half to even.
fn scaled_round(m: u128, e: u32, fd: usize) -> (r: u128)
    requires
        m < pow10(26),
        e <= 12,
        fd <= 26,
    ensures
        r as nat == round_half_even(m as nat * pow10(e as nat), pow10(fd as nat)),
        r < 100_000_000_000_000_000_000_000_000_000_000_000_000,
{
    let scale = pow10_u128(e);
    let den = pow10_u128(fd as u32);
    proof {
        crate::cli_text::lemma_pow10_facts();
        crate::cli_text::lemma_pow10_mono_pub(e as nat, 12);
        crate::cli_text::lemma_pow10_mono_pub(0, fd as nat);
    }
    assert(m * scale < 100_000_000_000_000_000_000_000_000 * 1_000_000_000_000) by (nonlinear_arith)
        requires
            m < 100_000_000_000_000_000_000_000_000,
            scale <= 1_000_000_000_000,
    ;
    let mag = div_round_half_even(m * scale, den);
    proof {
        crate::model::lemma_round_half_even_le(((m * scale) as nat), den as nat);
    }
    mag
}

/// The failure a kind name and id denote.
pub open spec fn spec_fail_kind(kind: Seq<char>, id: u32) -> Result<FailKind, ()> {
    if kind == "spine"@ {
        Ok(FailKind::Spine(SpineId(id)))
    } else if kind == "leaf"@ {
        Ok(FailKind::Leaf(LeafId(id)))
    } else if kind == "rail"@ {
        if id <= 255 {
            Ok(FailKind::Rail(RailId(id as u8)))
        } else {
            Err(())
        }
    } else if kind == "link"@ {
        Ok(FailKind::Link(LinkId(id)))
    } else {
        Err(())
    }
}

/// A kind name the grammar knows.
pub open spec fn known_kind(kind: Seq<char>) -> bool {
    kind == "spine"@ || kind == "leaf"@ || kind == "rail"@ || kind == "link"@
}

/// `kind=id[@time]`: the kind `spine`, `leaf`, `rail` or `link`, a `u32` id
/// (a `u8` one for a rail), and a time (1 ps when none is given).
pub open spec fn spec_parse_fail(s: Seq<char>) -> Result<FailSpec, Seq<char>> {
    let head = match first_index_of(s, '@') {
        Some(i) => s.take(i),
        None => s,
    };
    match first_index_of(head, '=') {
        None => Err("expected kind=id, got "@ + s),
        Some(eq) => {
            let kind = head.take(eq);
            let id = head.skip(eq + 1);
            match spec_parse_u32(id) {
                None => Err("bad fail id "@ + id),
                Some(n) => if !known_kind(kind) {
                    Err("unknown fail kind "@ + kind)
                } else {
                    match spec_fail_kind(kind, n) {
                        Err(_) => Err("bad fail id "@ + id),
                        Ok(k) => match first_index_of(s, '@') {
                            None => Ok(FailSpec { t_ps: DEFAULT_FAIL_PS, kind: k }),
                            Some(i) => match spec_fail_time(s.skip(i + 1)) {
                                Ok(t) => Ok(FailSpec { t_ps: t as i128, kind: k }),
                                Err(m) => Err(m),
                            },
                        },
                    }
                },
            }
        },
    }
}

/// Parse a `--fail` argument.
pub fn parse_fail_spec(s: &str) -> (r: Result<FailSpec, String>)
    ensures
        match r {
            Ok(f) => spec_parse_fail(s@) == Ok::<FailSpec, Seq<char>>(f),
            Err(m) => spec_parse_fail(s@) == Err::<FailSpec, Seq<char>>(m@),
        },
{
    let v = chars_of(s);
    let n = v.len();
    let at = find_char(&v, '@');
    let hend: usize = match at {
        Some(i) => i,
        None => n,
    };
    let head = slice_chars(&v, 0, hend);
    assert(head@ =~= (match first_index_of(s@, '@') {
        Some(i) => s@.take(i),
        None => s@,
    }));
    let eq = match find_char(&head, '=') {
        None => {
            return Err(String::from_str("expected kind=id, got ").concat(s));
        },
        Some(e) => e,
    };
    let kind = slice_chars(&head, 0, eq);
    let id = slice_chars(&head, eq + 1, head.len());
    assert(kind@ =~= head@.take(eq as int));
    assert(id@ =~= head@.skip(eq + 1));
    let id_str = s.substring_char(eq + 1, hend);
    assert(id_str@ =~= id@);
    let kind_str = s.substring_char(0, eq);
    assert(kind_str@ =~= kind@);
    let idn = match parse_u32(&id) {
        None => {
            return Err(String::from_str("bad fail id ").concat(id_str));
        },
        Some(x) => x,
    };
    let fk = if is_word(&kind, "spine") {
        FailKind::Spine(SpineId(idn))
    } else if is_word(&kind, "leaf") {
        FailKind::Leaf(LeafId(idn))
    } else if is_word(&kind, "rail") {
        if idn > 255 {
            return Err(String::from_str("bad fail id ").concat(id_str));
        }
        FailKind::Rail(RailId(idn as u8))
    } else if is_word(&kind, "link") {
        FailKind::Link(LinkId(idn))
    } else {
        return Err(String::from_str("unknown fail kind ").concat(kind_str));
    };
    assert(spec_fail_kind(kind@, idn) == Ok::<FailKind, ()>(fk));
    match at {
        None => Ok(FailSpec { t_ps: DEFAULT_FAIL_PS, kind: fk }),
        Some(i) => {
            let t = s.substring_char(i + 1, n);
            assert(t@ =~= s@.skip(i + 1));
            match parse_fail_time(t) {
                Ok(ps) => Ok(FailSpec { t_ps: ps, kind: fk }),
                Err(m) => Err(m),
            }
        },
    }
}

/// The job holds GPUs and may hold links.
pub open spec fn is_live(s: JobState) -> bool {
    s == JobState::Computing || s == JobState::Collecting
}

/// The element at this end is failed or missing (a NIC counts as failed when
/// its GPU is unavailable).
pub open spec fn spec_endpoint_failed(g: &Graph, ep: Endpoint) -> bool {
    match ep {
        Endpoint::Spine(s) => if (s.0 as int) < g.spines@.len() {
            g.spines@[s.0 as int].failed
        } else {
            true
        },
        Endpoint::Leaf(l) => if (l.0 as int) < g.leaves@.len() {
            g.leaves@[l.0 as int].failed
        } else {
            true
        },
        Endpoint::Nic(n) => match spec_gpu(g, GpuId(n.0)) {
            Some(x) => x.avail != GpuAvail::Present,
            None => true,
        },
    }
}

/// The link is missing, failed, or has a failed end.
pub open spec fn spec_link_broken(g: &Graph, e: LinkId) -> bool {
    match spec_link(g, e) {
        None => true,
        Some(l) => l.failed || spec_endpoint_failed(g, l.src) || spec_endpoint_failed(g, l.dst),
    }
}

/// Some link of the path is broken.
pub open spec fn spec_path_hits_failed(g: &Graph, p: Seq<LinkId>) -> bool {
    exists|i: int| 0 <= i < p.len() && spec_link_broken(g, #[trigger] p[i])
}

fn endpoint_failed(graph: &Graph, ep: Endpoint) -> (r: bool)
    ensures
        r == spec_endpoint_failed(graph, ep),
{
    match ep {
        Endpoint::Spine(s) => if (s.0 as usize) < graph.spines.len() {
            graph.spines[s.0 as usize].failed
        } else {
            true
        },
        Endpoint::Leaf(l) => if (l.0 as usize) < graph.leaves.len() {
            graph.leaves[l.0 as usize].failed
        } else {
            true
        },
        Endpoint::Nic(n) => match graph.gpu(GpuId(n.0)) {
            Some(x) => match x.avail {
                GpuAvail::Present => false,
                _ => true,
            },
            None => true,
        },
    }
}

fn link_broken(graph: &Graph, e: LinkId) -> (r: bool)
    ensures
        r == spec_link_broken(graph, e),
{
    match graph.link(e) {
        None => true,
        Some(l) => l.failed || endpoint_failed(graph, l.src) || endpoint_failed(graph, l.dst),
    }
}

/// Whether the path runs over a broken link.
pub fn path_hits_failed(graph: &Graph, path: &Path) -> (r: bool)
    ensures
        r == spec_path_hits_failed(graph, path.links@),
{
    let mut i: usize = 0;
    while i < path.links.len()
        invariant
            i <= path.links@.len(),
            forall|k: int| 0 <= k < i ==> !spec_link_broken(graph, #[trigger] path.links@[k]),
        decreases path.links@.len() - i,
    {
        if link_broken(graph, path.links[i]) {
            return true;
        }
        i = i + 1;
    }
    false
}

/// A GPU that is missing or unavailable.
pub open spec fn gpu_dead(g: &Graph, id: GpuId) -> bool {
    match spec_gpu(g, id) {
        Some(x) => x.avail != GpuAvail::Present,
        None => true,
    }
}

/// The job's binding uses a dead GPU.
pub open spec fn spec_on_dead_gpu(rec: JobRec, g: &Graph) -> bool {
    rec.binding matches Some(b) && exists|k: int| 0 <= k < b.map@.len() && gpu_dead(g, (#[trigger] b.map@[k]).1)
}

/// A planned flow or a recorded path of the job runs over a broken link.
pub open spec fn spec_paths_hit_failed(rec: JobRec, g: &Graph) -> bool {
    ||| exists|k: int| 0 <= k < rec.planned@.len() && spec_path_hits_failed(g, (#[trigger] rec.planned@[k]).path.links@)
    ||| exists|k: int| 0 <= k < rec.paths@.len() && spec_path_hits_failed(g, (#[trigger] rec.paths@[k]).links@)
}

fn gpu_is_dead(graph: &Graph, id: GpuId) -> (r: bool)
    ensures
        r == gpu_dead(graph, id),
{
    match graph.gpu(id) {
        Some(x) => match x.avail {
            GpuAvail::Present => false,
            _ => true,
        },
        None => true,
    }
}

/// Whether the job's binding uses a dead GPU.
pub fn job_on_dead_gpu(rec: &JobRec, graph: &Graph) -> (r: bool)
    ensures
        r == spec_on_dead_gpu(*rec, graph),
{
    match &rec.binding {
        None => false,
        Some(b) => {
            let mut k: usize = 0;
            while k < b.map.len()
                invariant
                    rec.binding == Some(*b),
                    k <= b.map@.len(),
                    forall|j: int| 0 <= j < k ==> !gpu_dead(graph, (#[trigger] b.map@[j]).1),
                decreases b.map@.len() - k,
            {
                if gpu_is_dead(graph, b.map[k].1) {
                    assert(gpu_dead(graph, b.map@[k as int].1));
                    return true;
                }
                k = k + 1;
            }
            false
        },
    }
}

/// Whether a planned flow or recorded path of the job runs over a broken link.
pub fn job_paths_hit_failed(rec: &JobRec, graph: &Graph) -> (r: bool)
    ensures
        r == spec_paths_hit_failed(*rec, graph),
{
    let mut k: usize = 0;
    while k < rec.planned.len()
        invariant
            k <= rec.planned@.len(),
            forall|j: int| 0 <= j < k ==> !spec_path_hits_failed(graph, (#[trigger] rec.planned@[j]).path.links@),
        decreases rec.planned@.len() - k,
    {
        if path_hits_failed(graph, &rec.planned[k].path) {
            return true;
        }
        k = k + 1;
    }
    let mut k: usize = 0;
    while k < rec.paths.len()
        invariant
            k <= rec.paths@.len(),
            forall|j: int| 0 <= j < rec.planned@.len() ==> !spec_path_hits_failed(graph, (#[trigger] rec.planned@[j]).path.links@),
            forall|j: int| 0 <= j < k ==> !spec_path_hits_failed(graph, (#[trigger] rec.paths@[j]).links@),
        decreases rec.paths@.len() - k,
    {
        if path_hits_failed(graph, &rec.paths[k]) {
            return true;
        }
        k = k + 1;
    }
    false
}

/// A leaf-spine link.
pub open spec fn spec_is_ls(l: Link) -> bool {
    (l.src is Leaf && l.dst is Spine) || (l.src is Spine && l.dst is Leaf)
}

/// The epoch's failures include a spine, or a leaf-spine link.
pub open spec fn spec_spine_class(g: &Graph, fails: Seq<crate::fel::Event>) -> bool {
    exists|k: int|
        0 <= k < fails.len() && match (#[trigger] fails[k]).payload {
            EventPayload::SpineFail { .. } => true,
            EventPayload::LinkFail { link } => spec_link(g, link) matches Some(l) && spec_is_ls(l),
            _ => false,
        }
}

/// Whether the failures include a spine or a leaf-spine link.
pub fn epoch_spine_class(graph: &Graph, fails: &[crate::fel::Event]) -> (r: bool)
    ensures
        r == spec_spine_class(graph, fails@),
{
    let mut k: usize = 0;
    while k < fails.len()
        invariant
            k <= fails@.len(),
            forall|j: int|
                0 <= j < k ==> !(match (#[trigger] fails@[j]).payload {
                    EventPayload::SpineFail { .. } => true,
                    EventPayload::LinkFail { link } => spec_link(graph, link) matches Some(l) && spec_is_ls(l),
                    _ => false,
                }),
        decreases fails@.len() - k,
    {
        let hit = match fails[k].payload {
            EventPayload::SpineFail { .. } => true,
            EventPayload::LinkFail { link } => match graph.link(link) {
                Some(l) => match (l.src, l.dst) {
                    (Endpoint::Leaf(_), Endpoint::Spine(_)) => true,
                    (Endpoint::Spine(_), Endpoint::Leaf(_)) => true,
                    _ => false,
                },
                None => false,
            },
            _ => false,
        };
        if hit {
            return true;
        }
        k = k + 1;
    }
    false
}

/// I2 broken: a failed link carried bytes this epoch (by the given counts, or
/// its own when the counts are short).
pub open spec fn spec_i2_broken(g: &Graph, bytes: Seq<u64>) -> bool {
    exists|i: int|
        0 <= i < g.links@.len() && (#[trigger] g.links@[i]).failed && ((if (g.links@[i].id.0 as int) < bytes.len() {
            bytes[g.links@[i].id.0 as int]
        } else {
            g.links@[i].bytes_this_epoch
        }) != 0 || g.links@[i].bytes_this_epoch != 0)
}

pub(crate) fn i2_broken(graph: &Graph, bytes: &[u64]) -> (r: bool)
    ensures
        r == spec_i2_broken(graph, bytes@),
{
    let mut i: usize = 0;
    while i < graph.links.len()
        invariant
            i <= graph.links@.len(),
            forall|k: int|
                0 <= k < i ==> !((#[trigger] graph.links@[k]).failed && ((if (graph.links@[k].id.0 as int) < bytes@.len() {
                    bytes@[graph.links@[k].id.0 as int]
                } else {
                    graph.links@[k].bytes_this_epoch
                }) != 0 || graph.links@[k].bytes_this_epoch != 0)),
        decreases graph.links@.len() - i,
    {
        let l = graph.links[i];
        if l.failed {
            let b = if (l.id.0 as usize) < bytes.len() {
                bytes[l.id.0 as usize]
            } else {
                l.bytes_this_epoch
            };
            if b != 0 || l.bytes_this_epoch != 0 {
                return true;
            }
        }
        i = i + 1;
    }
    false
}

/// I2: no failed link carried bytes this epoch, and every failed link has no
/// capacity.
pub fn i2_holds(graph: &Graph, bytes_epoch: &[u64]) -> (r: bool)
    ensures
        r == (!spec_i2_broken(graph, bytes_epoch@) && forall|i: int|
            0 <= i < graph.links@.len() && (#[trigger] graph.links@[i]).failed ==> graph.links@[i].capacity_Bps == 0),
{
    if i2_broken(graph, bytes_epoch) {
        return false;
    }
    let mut i: usize = 0;
    while i < graph.links.len()
        invariant
            i <= graph.links@.len(),
            forall|k: int| 0 <= k < i && (#[trigger] graph.links@[k]).failed ==> graph.links@[k].capacity_Bps == 0,
        decreases graph.links@.len() - i,
    {
        if graph.links[i].failed && graph.links[i].capacity_Bps != 0 {
            return false;
        }
        i = i + 1;
    }
    true
}

/// I3 broken: a live job's planned flow or recorded path runs over a broken link.
pub open spec fn spec_i3_broken(g: &Graph, table: &JobTable) -> bool {
    exists|id: u32|
        #[trigger] table.by_id@.contains_key(id) && is_live(table.by_id@[id].state) && spec_paths_hit_failed(
            table.by_id@[id],
            g,
        )
}

pub(crate) fn i3_broken(graph: &Graph, table: &JobTable) -> (r: bool)
    ensures
        r == spec_i3_broken(graph, table),
{
    let ids = map_keys(&table.by_id);
    let mut k: usize = 0;
    while k < ids.len()
        invariant
            ids@.to_set() == table.by_id@.dom(),
            k <= ids@.len(),
            forall|j: int|
                0 <= j < k ==> !(is_live(table.by_id@[#[trigger] ids@[j]].state) && spec_paths_hit_failed(
                    table.by_id@[ids@[j]],
                    graph,
                )),
        decreases ids@.len() - k,
    {
        let id = ids[k];
        assert(ids@.to_set().contains(id));
        match table.by_id.get(&id) {
            Some(rec) => {
                let live = match rec.state {
                    JobState::Computing | JobState::Collecting => true,
                    _ => false,
                };
                if live && job_paths_hit_failed(rec, graph) {
                    return true;
                }
            },
            None => {},
        }
        k = k + 1;
    }
    proof {
        assert forall|id: u32| #[trigger] table.by_id@.contains_key(id) implies !(is_live(table.by_id@[id].state)
            && spec_paths_hit_failed(table.by_id@[id], graph)) by {
            assert(ids@.to_set().contains(id));
            let j = choose|j: int| 0 <= j < ids@.len() && ids@[j] == id;
        }
    }
    false
}

/// I3: no live job runs over a broken link.
pub fn i3_holds(graph: &Graph, table: &JobTable) -> (r: bool)
    ensures
        r == !spec_i3_broken(graph, table),
{
    !i3_broken(graph, table)
}

} // verus!
