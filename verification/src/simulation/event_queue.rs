//! Time-ordered event queue used by [`super::Simulation`]. Earlier `at_ms` (and earlier
//! sequence on ties) pops first.
//!
//! Cancellation uses tombstones keyed on the monotonically-increasing `seq` assigned at
//! enqueue time. `cancel(seq)` marks the entry as stale; a stale entry is skipped when it would
//! otherwise be popped.
use crate::event::SimEvent;
use std::collections::VecDeque;
use vstd::prelude::*;

verus! {

/// A scheduled event with its ordering key `(at_ms, seq)`.
pub struct TimedEvent {
    pub at_ms: u64,
    pub seq: u64,
    pub inner: SimEvent,
}

/// `a` comes strictly before `b`: earlier time, or same time and earlier sequence number.
pub open spec fn key_lt(a: TimedEvent, b: TimedEvent) -> bool {
    a.at_ms < b.at_ms || (a.at_ms == b.at_ms && a.seq < b.seq)
}

/// Strictly increasing in `(at_ms, seq)`.
pub open spec fn key_sorted(s: Seq<TimedEvent>) -> bool {
    forall|a: int, b: int| 0 <= a < b < s.len() ==> key_lt(#[trigger] s[a], #[trigger] s[b])
}

/// No two entries share a sequence number.
pub open spec fn seqs_distinct(s: Seq<TimedEvent>) -> bool {
    forall|a: int, b: int| 0 <= a < b < s.len() ==> #[trigger] s[a].seq != #[trigger] s[b].seq
}

impl TimedEvent {
    pub fn at_ms(&self) -> (t: u64)
        ensures
            t == self.at_ms,
    {
        self.at_ms
    }

    pub fn seq(&self) -> (s: u64)
        ensures
            s == self.seq,
    {
        self.seq
    }
}

/// Queue of [`TimedEvent`]s in key order, with tombstone-based cancellation.
pub struct EventQueue {
    entries: VecDeque<TimedEvent>,
    seq: u64,
    cancelled: Vec<u64>,
}

impl EventQueue {
    /// Queued entries (tombstoned ones included), in key order.
    pub closed spec fn entries(&self) -> Seq<TimedEvent> {
        self.entries@
    }

    /// Sequence numbers marked as cancelled.
    pub closed spec fn tombstones(&self) -> Seq<u64> {
        self.cancelled@
    }

    /// The last sequence number handed out (0 before the first push).
    pub closed spec fn last_seq(&self) -> u64 {
        self.seq
    }

    /// Whether `seq` carries a tombstone.
    pub open spec fn is_cancelled(&self, seq: u64) -> bool {
        self.tombstones().contains(seq)
    }

    pub closed spec fn wf(&self) -> bool {
        &&& key_sorted(self.entries@)
        &&& forall|k: int| 0 <= k < self.entries@.len() ==> #[trigger] self.entries@[k].seq <= self.seq
        &&& seqs_distinct(self.entries@)
    }

    /// Every queued entry carries a sequence number already handed out.
    pub proof fn lemma_seqs_bounded(&self)
        requires
            self.wf(),
        ensures
            forall|k: int| 0 <= k < self.entries().len() ==> #[trigger] self.entries()[k].seq <= self.last_seq(),
    {
    }

    pub fn new() -> (q: EventQueue)
        ensures
            q.wf(),
            q.entries() == Seq::<TimedEvent>::empty(),
            q.tombstones() == Seq::<u64>::empty(),
            q.last_seq() == 0,
    {
        EventQueue { entries: VecDeque::new(), seq: 0, cancelled: Vec::new() }
    }

    /// Schedule `ev` at `at_ms`, returning the `(at_ms, seq)` key the caller may later hand to
    /// [`Self::cancel`] to invalidate this particular entry.
    pub fn push(&mut self, at_ms: u64, ev: SimEvent) -> (key: (u64, u64))
        requires
            old(self).wf(),
            old(self).last_seq() < u64::MAX,
        ensures
            final(self).wf(),
            key == (at_ms, (old(self).last_seq() + 1) as u64),
            final(self).last_seq() == key.1,
            final(self).tombstones() == old(self).tombstones(),
            final(self).entries().len() == old(self).entries().len() + 1,
            forall|e: TimedEvent| #[trigger] final(self).entries().contains(e) <==> (old(
                self,
            ).entries().contains(e) || e == (TimedEvent { at_ms, seq: key.1, inner: ev })),
            exists|p: int|
                0 <= p <= old(self).entries().len() && final(self).entries() == #[trigger] old(
                    self,
                ).entries().insert(p, TimedEvent { at_ms, seq: key.1, inner: ev }),
    {
        self.seq = self.seq + 1;
        let seq = self.seq;
        let ghost old_e = self.entries@;
        let mut p: usize = self.entries.len();
        while p > 0 && self.entries[p - 1].at_ms > at_ms
            invariant
                p <= self.entries@.len(),
                self.entries@ == old_e,
                forall|k: int| p <= k < old_e.len() ==> #[trigger] old_e[k].at_ms > at_ms,
            decreases p,
        {
            p -= 1;
        }
        let te = TimedEvent { at_ms, seq, inner: ev };
        let ghost te_g = te;
        self.entries.insert(p, te);
        proof {
            let ne = self.entries@;
            assert(ne == old_e.insert(p as int, te_g));
            assert(self.entries() == old(self).entries().insert(p as int, TimedEvent { at_ms, seq, inner: ev }));
            assert forall|a: int, b: int| 0 <= a < b < ne.len() implies key_lt(#[trigger] ne[a], #[trigger] ne[b]) by {
                if b < p {
                    assert(key_lt(old_e[a], old_e[b]));
                } else if b == p {
                    // ne[a] = old_e[a], a < p: at <= at_ms and seq < new seq
                    assert(old_e[a].seq <= seq - 1);
                    if p > 0 && a < p - 1 {
                        assert(key_lt(old_e[a], old_e[p - 1]));
                    }
                } else if a < p {
                    assert(key_lt(old_e[a], old_e[b - 1]));
                } else if a == p {
                } else {
                    assert(key_lt(old_e[a - 1], old_e[b - 1]));
                }
            }
            assert forall|k: int| 0 <= k < ne.len() implies #[trigger] ne[k].seq <= seq by {
                if k < p {
                    assert(old_e[k].seq <= seq);
                } else if k > p {
                    assert(old_e[k - 1].seq <= seq);
                }
            }
            assert forall|a: int, b: int| 0 <= a < b < ne.len() implies #[trigger] ne[a].seq != #[trigger] ne[b].seq by {
                if a == p {
                    assert(old_e[b - 1].seq <= seq - 1);
                } else if b == p {
                    assert(old_e[a].seq <= seq - 1);
                } else if b < p {
                } else if a < p {
                    assert(old_e[a].seq != old_e[b - 1].seq);
                } else {
                    assert(old_e[a - 1].seq != old_e[b - 1].seq);
                }
            }
            assert forall|e: TimedEvent| #[trigger] ne.contains(e) <==> (old_e.contains(e) || e == te_g) by {
                if ne.contains(e) {
                    let w = choose|w: int| 0 <= w < ne.len() && ne[w] == e;
                    if w < p {
                        assert(old_e[w] == e);
                    } else if w > p {
                        assert(old_e[w - 1] == e);
                    }
                }
                if old_e.contains(e) {
                    let w = choose|w: int| 0 <= w < old_e.len() && old_e[w] == e;
                    if w < p {
                        assert(ne[w] == e);
                    } else {
                        assert(ne[w + 1] == e);
                    }
                }
                if e == te_g {
                    assert(ne[p as int] == e);
                }
            }
        }
        (at_ms, seq)
    }

    /// Mark the event with this sequence number as cancelled. Safe to call with a sequence
    /// number that has already been popped or is unknown; the tombstone is only consulted on pop.
    pub fn cancel(&mut self, seq: u64)
        requires
            old(self).wf(),
        ensures
            final(self).wf(),
            final(self).entries() == old(self).entries(),
            final(self).last_seq() == old(self).last_seq(),
            forall|s: u64| #[trigger] final(self).is_cancelled(s) <==> (old(self).is_cancelled(s) || s == seq),
    {
        let mut i: usize = 0;
        while i < self.cancelled.len()
            invariant
                i <= self.cancelled@.len(),
                forall|k: int| 0 <= k < i ==> #[trigger] self.cancelled@[k] != seq,
                self.entries@ == old(self).entries@,
                self.seq == old(self).seq,
                self.cancelled@ == old(self).cancelled@,
                old(self).wf(),
            decreases self.cancelled@.len() - i,
        {
            if self.cancelled[i] == seq {
                return;
            }
            i += 1;
        }
        let ghost c0 = self.cancelled@;
        self.cancelled.push(seq);
        proof {
            assert forall|s: u64| #[trigger] self.cancelled@.contains(s) <==> (c0.contains(s) || s == seq) by {
                if self.cancelled@.contains(s) {
                    let w = choose|w: int| 0 <= w < self.cancelled@.len() && self.cancelled@[w] == s;
                    if w < c0.len() {
                        assert(c0[w] == s);
                    }
                }
                if c0.contains(s) {
                    let w = choose|w: int| 0 <= w < c0.len() && c0[w] == s;
                    assert(self.cancelled@[w] == s);
                }
                if s == seq {
                    assert(self.cancelled@[c0.len() as int] == s);
                }
            }
        }
    }

    /// Removes the tombstone of `seq`, returning whether there was one.
    fn take_tombstone(&mut self, seq: u64) -> (was: bool)
        ensures
            was == old(self).cancelled@.contains(seq),
            forall|s: u64| #[trigger] final(self).cancelled@.contains(s) ==> old(self).cancelled@.contains(s),
            forall|s: u64| s != seq && #[trigger] old(self).cancelled@.contains(s) ==> final(self).cancelled@.contains(s),
            final(self).entries@ == old(self).entries@,
            final(self).seq == old(self).seq,
    {
        let mut i: usize = 0;
        while i < self.cancelled.len()
            invariant
                i <= self.cancelled@.len(),
                forall|k: int| 0 <= k < i ==> #[trigger] self.cancelled@[k] != seq,
                self.entries@ == old(self).entries@,
                self.seq == old(self).seq,
                self.cancelled@ == old(self).cancelled@,
            decreases self.cancelled@.len() - i,
        {
            if self.cancelled[i] == seq {
                let ghost c0 = self.cancelled@;
                self.cancelled.swap_remove(i);
                proof {
                    let c1 = self.cancelled@;
                    assert(c1 == c0.update(i as int, c0.last()).drop_last());
                    assert forall|s: u64| #[trigger] c1.contains(s) implies c0.contains(s) by {
                        let w = choose|w: int| 0 <= w < c1.len() && c1[w] == s;
                        if w == i {
                            assert(c0[c0.len() - 1] == s);
                        } else {
                            assert(c0[w] == s);
                        }
                    }
                    assert forall|s: u64| s != seq && #[trigger] c0.contains(s) implies c1.contains(s) by {
                        let w = choose|w: int| 0 <= w < c0.len() && c0[w] == s;
                        if w == c0.len() - 1 {
                            if w != i {
                                assert(c1[i as int] == s);
                            }
                        } else {
                            assert(w != i);
                            assert(c1[w] == s);
                        }
                    }
                }
                return true;
            }
            i += 1;
        }
        false
    }

    /// Pop the earliest live event, skipping (and forgetting) cancelled entries on the way.
    /// Together with the contracts of [`Self::new`], [`Self::push`] and [`Self::cancel`], which
    /// keep `entries()` as exactly the pushed and not yet popped events in key order and
    /// `is_cancelled` as the cancellations made, this returns the least live entry after any
    /// history of pushes and cancellations, and `None` exactly when no live entry is left.
    pub fn pop_live(&mut self) -> (r: Option<TimedEvent>)
        requires
            old(self).wf(),
        ensures
            final(self).wf(),
            final(self).last_seq() == old(self).last_seq(),
            final(self).entries().len() <= old(self).entries().len(),
            final(self).entries() == old(self).entries().skip(
                old(self).entries().len() - final(self).entries().len(),
            ),
            forall|s: u64| #[trigger] final(self).is_cancelled(s) ==> old(self).is_cancelled(s),
            forall|j: int|
                0 <= j < final(self).entries().len() && old(self).is_cancelled(
                    #[trigger] final(self).entries()[j].seq,
                ) ==> final(self).is_cancelled(final(self).entries()[j].seq),
            match r {
                Some(te) => {
                    let k = old(self).entries().len() - final(self).entries().len() - 1;
                    &&& k >= 0
                    &&& forall|j: int|
                        0 <= j < old(self).entries().len() && !old(self).is_cancelled(
                            #[trigger] old(self).entries()[j].seq,
                        ) ==> te == old(self).entries()[j] || key_lt(te, old(self).entries()[j])
                    &&& te == old(self).entries()[k]
                    &&& !old(self).is_cancelled(te.seq)
                    &&& forall|j: int| 0 <= j < k ==> old(self).is_cancelled(#[trigger] old(self).entries()[j].seq)
                    &&& forall|j: int| 0 <= j < final(self).entries().len() ==> key_lt(te, #[trigger] final(self).entries()[j])
                },
                None => {
                    &&& final(self).entries().len() == 0
                    &&& forall|j: int| 0 <= j < old(self).entries().len() ==> old(self).is_cancelled(
                        #[trigger] old(self).entries()[j].seq,
                    )
                },
            },
    {
        let ghost e0 = self.entries@;
        let ghost c0 = self.cancelled@;
        loop
            invariant
                self.entries@.len() <= e0.len(),
                self.entries@ == e0.skip(e0.len() - self.entries@.len()),
                key_sorted(e0),
                seqs_distinct(e0),
                forall|k: int| 0 <= k < e0.len() ==> #[trigger] e0[k].seq <= self.seq,
                forall|j: int| 0 <= j < e0.len() - self.entries@.len() ==> #[trigger] c0.contains(e0[j].seq),
                forall|s: u64| #[trigger] self.cancelled@.contains(s) ==> c0.contains(s),
                forall|j: int| 0 <= j < self.entries@.len() ==> (#[trigger] c0.contains(self.entries@[j].seq)
                    ==> self.cancelled@.contains(self.entries@[j].seq)),
                self.seq == old(self).seq,
                e0 == old(self).entries@,
                c0 == old(self).cancelled@,
            decreases self.entries@.len(),
        {
            let ghost before = self.entries@;
            match self.entries.pop_front() {
                None => {
                    proof {
                        assert(self.entries@.len() == 0);
                    }
                    return None;
                },
                Some(te) => {
                    proof {
                        assert(self.entries@ =~= e0.skip(e0.len() - self.entries@.len()));
                        assert(te == e0[e0.len() - before.len()]);
                    }
                    let ghost c_before = self.cancelled@;
                    let was = self.take_tombstone(te.seq);
                    if !was {
                        proof {
                            assert(!c0.contains(te.seq)) by {
                                if c0.contains(te.seq) {
                                    assert(before[0] == te);
                                }
                            }
                            let k = e0.len() - self.entries@.len() - 1;
                            assert forall|j: int| 0 <= j < self.entries@.len() implies key_lt(te, #[trigger] self.entries@[j]) by {
                                assert(self.entries@[j] == e0[k + 1 + j]);
                            }
                            assert forall|j: int| 0 <= j < e0.len() && !c0.contains(#[trigger] e0[j].seq) implies te
                                == e0[j] || key_lt(te, e0[j]) by {
                                if j > k {
                                    assert(key_lt(e0[k], e0[j]));
                                }
                            }
                        }
                        return Some(te);
                    }
                    proof {
                        assert(c0.contains(te.seq));
                        assert forall|j: int| 0 <= j < self.entries@.len() && #[trigger] c0.contains(self.entries@[j].seq)
                            implies self.cancelled@.contains(self.entries@[j].seq) by {
                            let k = e0.len() - before.len();
                            assert(self.entries@[j] == before[j + 1]);
                            assert(before[j + 1] == e0[k + j + 1]);
                            assert(e0[k].seq != e0[k + j + 1].seq);
                            if c0.contains(self.entries@[j].seq) {
                                assert(c_before.contains(before[j + 1].seq));
                            }
                        }
                    }
                },
            }
        }
    }

    /// Drain all events, dropping the cancellation bookkeeping.
    pub fn clear(&mut self)
        requires
            old(self).wf(),
        ensures
            final(self).wf(),
            final(self).entries() == Seq::<TimedEvent>::empty(),
            final(self).tombstones() == Seq::<u64>::empty(),
            final(self).last_seq() == old(self).last_seq(),
    {
        self.entries.clear();
        self.cancelled.clear();
    }

    /// Whether another sequence number can be handed out.
    pub fn has_seq_room(&self) -> (b: bool)
        ensures
            b == (self.last_seq() < u64::MAX),
    {
        self.seq < u64::MAX
    }

    /// Currently queued (including tombstoned) events.
    pub fn len(&self) -> (n: usize)
        ensures
            n == self.entries().len(),
    {
        self.entries.len()
    }
}

} // verus!
