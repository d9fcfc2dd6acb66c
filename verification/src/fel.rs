//! Future-event list: events ordered by `(ps, seq)`, `seq` unique per push.
use vstd::prelude::*;

use crate::types::{spec_is_fail, time_lt, EventKind, EventPayload, SimTime};

verus! {

/// A scheduled event. Order is `(ps asc, seq asc)` only.
#[derive(Copy, Clone, Debug, PartialEq, Eq, Structural)]
pub struct Event {
    pub t: SimTime,
    pub kind: EventKind,
    pub payload: EventPayload,
}

/// Strictly increasing in `(ps, seq)`.
pub open spec fn events_sorted(s: Seq<Event>) -> bool {
    forall|a: int, b: int| 0 <= a < b < s.len() ==> time_lt(s[a].t, s[b].t)
}

/// The future-event list. Its view is the pending events, earliest first.
pub struct Fel {
    events: Vec<Event>,
    next_seq: u64,
}

impl View for Fel {
    type V = Seq<Event>;

    closed spec fn view(&self) -> Seq<Event> {
        self.events@
    }
}

impl Fel {
    /// The `seq` the next push will take.
    pub closed spec fn next_seq_spec(&self) -> u64 {
        self.next_seq
    }

    #[verifier::type_invariant]
    closed spec fn inv(&self) -> bool {
        &&& events_sorted(self.events@)
        &&& forall|i: int| 0 <= i < self.events@.len() ==> #[trigger] self.events@[i].t.seq
            < self.next_seq
    }

    pub fn new() -> (r: Fel)
        ensures
            r@ == Seq::<Event>::empty(),
            r.next_seq_spec() == 0,
    {
        Fel { events: Vec::new(), next_seq: 0 }
    }

    /// Schedule at `ps`. The event takes `seq = next_seq`, which then increments.
    pub fn push(&mut self, ps: i128, kind: EventKind, payload: EventPayload)
        requires
            old(self).next_seq_spec() < u64::MAX,
        ensures
            final(self).next_seq_spec() == old(self).next_seq_spec() + 1,
            exists|pos: int|
                0 <= pos <= old(self)@.len() && final(self)@ == old(self)@.insert(
                    pos,
                    Event { t: SimTime { ps, seq: old(self).next_seq_spec() }, kind, payload },
                ),
            events_sorted(final(self)@),
    {
        proof {
            use_type_invariant(&*self);
        }
        let seq = self.next_seq;
        let ev = Event { t: SimTime { ps, seq }, kind, payload };
        let mut pos: usize = 0;
        while pos < self.events.len() && self.events[pos].t.ps <= ps
            invariant
                pos <= self.events.len(),
                forall|k: int| 0 <= k < pos ==> #[trigger] self.events@[k].t.ps <= ps,
            decreases self.events.len() - pos,
        {
            pos = pos + 1;
        }
        let mut events = self.events.clone();
        let ghost old_ev = self.events@;
        assert(events@ == old_ev);
        events.insert(pos, ev);
        proof {
            assert forall|a: int, b: int| 0 <= a < b < events@.len() implies time_lt(
                events@[a].t,
                events@[b].t,
            ) by {
                if b < pos {
                    assert(events@[a] == old_ev[a] && events@[b] == old_ev[b]);
                } else if b == pos {
                    assert(events@[a] == old_ev[a]);
                    assert(old_ev[a].t.ps <= ps);
                    assert(old_ev[a].t.seq < seq);
                } else if a < pos {
                    assert(events@[a] == old_ev[a] && events@[b] == old_ev[b - 1]);
                } else if a == pos {
                    assert(events@[b] == old_ev[b - 1]);
                    assert(old_ev[pos as int].t.ps > ps);
                    if b - 1 > pos {
                        assert(time_lt(old_ev[pos as int].t, old_ev[b - 1].t));
                    }
                } else {
                    assert(events@[a] == old_ev[a - 1] && events@[b] == old_ev[b - 1]);
                }
            }
            assert forall|i: int| 0 <= i < events@.len() implies #[trigger] events@[i].t.seq
                < seq + 1 by {
                if i < pos {
                    assert(events@[i] == old_ev[i]);
                } else if i > pos {
                    assert(events@[i] == old_ev[i - 1]);
                }
            }
        }
        assert(events@ == old_ev.insert(pos as int, ev));
        *self = Fel { events, next_seq: seq + 1 };
        assert(self@ == old_ev.insert(pos as int, ev));
        assert(old(self)@ == old_ev);
    }

    /// Remove and return the earliest event, if any.
    pub fn pop(&mut self) -> (r: Option<Event>)
        ensures
            final(self).next_seq_spec() == old(self).next_seq_spec(),
            old(self)@.len() == 0 ==> r is None && final(self)@ == old(self)@,
            old(self)@.len() > 0 ==> r == Some(old(self)@[0]) && final(self)@ == old(self)@.drop_first(),
            events_sorted(final(self)@),
            r matches Some(e) ==> forall|k: int|
                0 <= k < final(self)@.len() ==> time_lt(e.t, #[trigger] final(self)@[k].t),
    {
        proof {
            use_type_invariant(&*self);
        }
        if self.events.len() == 0 {
            return None;
        }
        let mut events = self.events.clone();
        let ghost old_ev = self.events@;
        assert(events@ == old_ev);
        let e = events.remove(0);
        proof {
            assert forall|a: int, b: int| 0 <= a < b < events@.len() implies time_lt(
                events@[a].t,
                events@[b].t,
            ) by {
                assert(events@[a] == old_ev[a + 1] && events@[b] == old_ev[b + 1]);
            }
            assert forall|i: int| 0 <= i < events@.len() implies #[trigger] events@[i].t.seq
                < self.next_seq by {
                assert(events@[i] == old_ev[i + 1]);
            }
        }
        self.events = events;
        assert(self.events@ =~= old_ev.drop_first());
        assert forall|k: int| 0 <= k < self.events@.len() implies time_lt(e.t, #[trigger] self.events@[k].t) by {
            assert(self.events@[k] == old_ev[k + 1]);
        }
        Some(e)
    }

    /// Time of the earliest event, if any.
    pub fn peek_ps(&self) -> (r: Option<i128>)
        ensures
            self@.len() == 0 ==> r is None,
            self@.len() > 0 ==> r == Some(self@[0].t.ps),
            events_sorted(self@),
    {
        proof {
            use_type_invariant(self);
        }
        if self.events.len() == 0 {
            None
        } else {
            Some(self.events[0].t.ps)
        }
    }

    /// The `seq` the next push will take.
    pub fn next_seq(&self) -> (r: u64)
        ensures
            r == self.next_seq_spec(),
    {
        self.next_seq
    }

    /// Seq assigned to the most recent `push` (0 before any push).
    pub fn last_push_seq(&self) -> (r: u64)
        ensures
            r == if self.next_seq_spec() == 0 { 0 } else { (self.next_seq_spec() - 1) as u64 },
    {
        if self.next_seq == 0 {
            0
        } else {
            self.next_seq - 1
        }
    }

    /// Coalesce the `Fail*` events at the head of the list that fall at `ps`.
    /// Other events at `ps` stay, with their original `seq`.
    pub fn drain_fails_at(&mut self, ps: i128) -> (fails: Vec<Event>)
        ensures
            final(self).next_seq_spec() == old(self).next_seq_spec(),
            ({
                let n = head_len_at(old(self)@, ps);
                let head = old(self)@.take(n);
                &&& fails@ == head.filter(|e: Event| spec_is_fail(e.kind))
                &&& final(self)@ == head.filter(|e: Event| !spec_is_fail(e.kind)) + old(
                    self,
                )@.skip(n)
            }),
            events_sorted(final(self)@),
    {
        proof {
            use_type_invariant(&*self);
        }
        let ghost old_ev = self.events@;
        let mut fails: Vec<Event> = Vec::new();
        let mut rest: Vec<Event> = Vec::new();
        let ghost mut ridx: Seq<int> = Seq::empty();
        let mut i: usize = 0;
        while i < self.events.len() && self.events[i].t.ps == ps
            invariant
                self.events@ == old_ev,
                events_sorted(old_ev),
                i <= self.events.len(),
                forall|k: int| 0 <= k < i ==> #[trigger] old_ev[k].t.ps == ps,
                fails@ == old_ev.take(i as int).filter(|e: Event| spec_is_fail(e.kind)),
                rest@ == old_ev.take(i as int).filter(|e: Event| !spec_is_fail(e.kind)),
                ridx.len() == rest@.len(),
                forall|k: int|
                    0 <= k < ridx.len() ==> 0 <= #[trigger] ridx[k] < i && rest@[k] == old_ev[ridx[k]],
                forall|a: int, b: int| 0 <= a < b < ridx.len() ==> ridx[a] < ridx[b],
            decreases self.events.len() - i,
        {
            let e = self.events[i];
            proof {
                assert(old_ev.take(i + 1).drop_last() =~= old_ev.take(i as int));
                reveal_with_fuel(Seq::filter, 1);
            }
            if e.kind.is_fail() {
                fails.push(e);
            } else {
                rest.push(e);
                proof {
                    ridx = ridx.push(i as int);
                }
            }
            i = i + 1;
        }
        proof {
            lemma_head_len_at(old_ev, ps, i as int);
        }
        let mut j: usize = i;
        let ghost rest0 = rest@;
        while j < self.events.len()
            invariant
                self.events@ == old_ev,
                i <= j <= self.events.len(),
                rest@ == rest0 + old_ev.subrange(i as int, j as int),
                ridx.len() == rest@.len(),
                forall|k: int|
                    0 <= k < ridx.len() ==> 0 <= #[trigger] ridx[k] < j && rest@[k] == old_ev[ridx[k]],
                forall|a: int, b: int| 0 <= a < b < ridx.len() ==> ridx[a] < ridx[b],
            decreases self.events.len() - j,
        {
            rest.push(self.events[j]);
            proof {
                ridx = ridx.push(j as int);
            }
            j = j + 1;
            assert(rest@ =~= rest0 + old_ev.subrange(i as int, j as int));
        }
        assert(rest@ =~= rest0 + old_ev.skip(i as int));
        proof {
            assert forall|a: int, b: int| 0 <= a < b < rest@.len() implies time_lt(
                rest@[a].t,
                rest@[b].t,
            ) by {
                assert(ridx[a] < ridx[b]);
            }
            assert forall|k: int| 0 <= k < rest@.len() implies #[trigger] rest@[k].t.seq
                < self.next_seq by {
                assert(rest@[k] == old_ev[ridx[k]]);
            }
        }
        self.events = rest;
        fails
    }
}

/// Length of the leading run of events at time `ps`.
pub open spec fn head_len_at(s: Seq<Event>, ps: i128) -> int
    decreases s.len(),
{
    if s.len() == 0 || s[0].t.ps != ps {
        0
    } else {
        1 + head_len_at(s.drop_first(), ps)
    }
}

proof fn lemma_head_len_at(s: Seq<Event>, ps: i128, i: int)
    requires
        0 <= i <= s.len(),
        forall|k: int| 0 <= k < i ==> #[trigger] s[k].t.ps == ps,
        i == s.len() || s[i].t.ps != ps,
    ensures
        head_len_at(s, ps) == i,
    decreases i,
{
    if i > 0 {
        assert forall|k: int| 0 <= k < i - 1 implies #[trigger] s.drop_first()[k].t.ps == ps by {
            assert(s.drop_first()[k] == s[k + 1]);
        }
        lemma_head_len_at(s.drop_first(), ps, i - 1);
    }
}

} // verus!
