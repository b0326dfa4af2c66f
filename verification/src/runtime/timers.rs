//! Deadlines in the order in which they fall due.

use vstd::prelude::*;
use crate::control::message::ControlTimer;
use crate::order;
use crate::order::Rel;
use crate::types::{MonoTime, NodeId};

verus! {

/// A deadline, numbered in the order in which deadlines were set.
#[derive(Clone, Copy, Debug)]
pub struct TimerEntry {
    pub at: u64,
    pub sequence: u64,
    pub timer: ControlTimer,
}

/// Where a kind of timer stands among the others.
pub open spec fn kind_rank(timer: ControlTimer) -> int {
    match timer {
        ControlTimer::Digest(_) => 0,
        ControlTimer::SpfHold { .. } => 1,
        ControlTimer::LsaRefresh { .. } => 2,
        ControlTimer::LsaExpire { .. } => 3,
    }
}

/// The version `a` is older than the version `b`.
pub open spec fn is_older(a_epoch: u32, a_seq: u64, b_epoch: u32, b_seq: u64) -> bool {
    a_epoch < b_epoch || a_epoch == b_epoch && a_seq < b_seq
}

/// The timer `a` stands before the timer `b`: by kind, then by what they are
/// about.
pub open spec fn timer_before(a: ControlTimer, b: ControlTimer) -> bool {
    match (a, b) {
        (ControlTimer::Digest(x), ControlTimer::Digest(y)) => x.value() < y.value(),
        (
            ControlTimer::SpfHold { generation: x },
            ControlTimer::SpfHold { generation: y },
        ) => x < y,
        (
            ControlTimer::LsaRefresh { epoch: e, seq: s },
            ControlTimer::LsaRefresh { epoch: f, seq: t },
        ) => is_older(e, s, f, t),
        (
            ControlTimer::LsaExpire { origin: o, epoch: e, seq: s },
            ControlTimer::LsaExpire { origin: p, epoch: f, seq: t },
        ) => order::bytes_before(o.bytes(), p.bytes()) || o == p && is_older(e, s, f, t),
        _ => kind_rank(a) < kind_rank(b),
    }
}

/// The deadline `a` falls due before the deadline `b`; at one time, the one
/// that was set first.
pub open spec fn entry_before(a: TimerEntry, b: TimerEntry) -> bool {
    a.at < b.at || a.at == b.at && (a.sequence < b.sequence || a.sequence == b.sequence
        && timer_before(a.timer, b.timer))
}

/// The deadlines with one more, behind all that it does not come before.
pub open spec fn scheduled(entries: Seq<TimerEntry>, entry: TimerEntry) -> Seq<TimerEntry>
    decreases entries.len(),
{
    if entries.len() > 0 && entry_before(entry, entries.last()) {
        scheduled(entries.drop_last(), entry).push(entries.last())
    } else {
        entries.push(entry)
    }
}

/// No deadline stands behind one that falls due later.
pub open spec fn is_in_order(entries: Seq<TimerEntry>) -> bool {
    forall|i: int, j: int|
        0 <= i < j < entries.len() ==> !entry_before(#[trigger] entries[j], #[trigger] entries[i])
}

/// The order of timers is total.
proof fn timers_are_ordered(a: ControlTimer, b: ControlTimer, c: ControlTimer)
    ensures
        timer_before(a, b) ==> !timer_before(b, a),
        timer_before(a, b) && !timer_before(c, b) ==> timer_before(a, c),
{
    match (a, b) {
        (
            ControlTimer::LsaExpire { origin: o, epoch: e, seq: s },
            ControlTimer::LsaExpire { origin: p, epoch: f, seq: t },
        ) => {
            order::bytes_before_irreflexive(o.bytes());
            if order::bytes_before(o.bytes(), p.bytes()) && order::bytes_before(
                p.bytes(),
                o.bytes(),
            ) {
                order::bytes_before_transitive(o.bytes(), p.bytes(), o.bytes());
            }
            match c {
                ControlTimer::LsaExpire { origin: q, epoch: g, seq: u } => {
                    NodeId::ids_are_connected(p, q);
                    if order::bytes_before(o.bytes(), p.bytes()) && order::bytes_before(
                        p.bytes(),
                        q.bytes(),
                    ) {
                        order::bytes_before_transitive(o.bytes(), p.bytes(), q.bytes());
                    }
                },
                _ => {},
            }
        },
        _ => {},
    }
}

/// The order of deadlines is total.
proof fn entries_are_ordered(a: TimerEntry, b: TimerEntry, c: TimerEntry)
    ensures
        entry_before(a, b) ==> !entry_before(b, a),
        entry_before(a, b) && !entry_before(c, b) ==> entry_before(a, c),
{
    timers_are_ordered(a.timer, b.timer, c.timer);
}

/// One deadline more keeps the others, and keeps them in order.
pub proof fn scheduling_keeps_order(entries: Seq<TimerEntry>, entry: TimerEntry)
    requires
        is_in_order(entries),
    ensures
        is_in_order(scheduled(entries, entry)),
        scheduled(entries, entry).to_multiset() == entries.to_multiset().insert(entry),
        scheduled(entries, entry).len() == entries.len() + 1,
        forall|i: int|
            0 <= i < scheduled(entries, entry).len() ==> {
                ||| #[trigger] scheduled(entries, entry)[i] == entry
                ||| entries.contains(scheduled(entries, entry)[i])
            },
    decreases entries.len(),
{
    broadcast use vstd::seq_lib::group_to_multiset_ensures;

    let after = scheduled(entries, entry);
    if entries.len() > 0 && entry_before(entry, entries.last()) {
        let less = entries.drop_last();
        let last = entries.last();
        assert forall|i: int, j: int| 0 <= i < j < less.len() implies !entry_before(
            #[trigger] less[j],
            #[trigger] less[i],
        ) by {
            assert(!entry_before(entries[j], entries[i]));
        }
        scheduling_keeps_order(less, entry);
        let inner = scheduled(less, entry);
        assert(less.push(last) =~= entries);
        assert forall|i: int| 0 <= i < inner.len() implies !entry_before(
            last,
            #[trigger] inner[i],
        ) && (inner[i] == entry || entries.contains(inner[i])) by {
            entries_are_ordered(entry, last, last);
            if inner[i] != entry {
                let k = choose|k: int| 0 <= k < less.len() && less[k] == inner[i];
                assert(entries[k] == inner[i]);
                assert(!entry_before(entries[entries.len() - 1], entries[k]));
            }
        }
        assert(entries.contains(last));
        assert forall|i: int, j: int| 0 <= i < j < after.len() implies !entry_before(
            #[trigger] after[j],
            #[trigger] after[i],
        ) by {
            assert(after[i] == inner[i]);
            if j < inner.len() {
                assert(after[j] == inner[j]);
            }
        }
        assert(after.to_multiset() =~= entries.to_multiset().insert(entry));
    } else {
        assert forall|i: int, j: int| 0 <= i < j < after.len() implies !entry_before(
            #[trigger] after[j],
            #[trigger] after[i],
        ) by {
            if j == entries.len() {
                let last = entries.last();
                if i < entries.len() - 1 {
                    assert(!entry_before(entries[entries.len() - 1], entries[i]));
                }
                entries_are_ordered(entry, entries[i], last);
            } else {
                assert(!entry_before(entries[j], entries[i]));
            }
        }
        assert forall|i: int| 0 <= i < after.len() implies (#[trigger] after[i] == entry
            || entries.contains(after[i])) by {
            if i < entries.len() {
                assert(entries[i] == after[i]);
            }
        }
    }
}

/// No other deadline falls due before the first one.
pub proof fn first_is_earliest(entries: Seq<TimerEntry>, i: int)
    requires
        is_in_order(entries),
        0 <= i < entries.len(),
    ensures
        !entry_before(entries[i], entries[0]),
        entries[0].at <= entries[i].at,
{
    entries_are_ordered(entries[0], entries[i], entries[0]);
    if i > 0 {
        assert(!entry_before(entries[i], entries[0]));
    } else {
        entries_are_ordered(entries[0], entries[0], entries[0]);
    }
}

/// Deadlines in the order in which they fall due.
#[derive(Debug)]
pub struct TimerQueue {
    entries: Vec<TimerEntry>,
    next_sequence: u64,
}

impl TimerQueue {
    /// The deadlines, in order.
    pub closed spec fn entries(&self) -> Seq<TimerEntry> {
        self.entries@
    }

    /// The number of the next deadline.
    pub closed spec fn next_sequence(&self) -> u64 {
        self.next_sequence
    }

    /// No deadline is set.
    pub fn new() -> (queue: Self)
        ensures
            queue.entries() == Seq::<TimerEntry>::empty(),
            queue.next_sequence() == 0,
    {
        TimerQueue { entries: Vec::new(), next_sequence: 0 }
    }

    /// Sets a deadline.
    pub fn schedule(&mut self, at: MonoTime, timer: ControlTimer)
        ensures
            final(self).entries() == scheduled(
                old(self).entries(),
                TimerEntry { at: at.millis(), sequence: old(self).next_sequence(), timer },
            ),
            final(self).next_sequence() == (if old(self).next_sequence() == u64::MAX {
                0
            } else {
                old(self).next_sequence() + 1
            }),
    {
        let entry = TimerEntry { at: at.as_millis(), sequence: self.next_sequence, timer };
        let ghost before = self.entries@;
        let mut i: usize = self.entries.len();
        assert(before.take(i as int) =~= before);
        assert(before.skip(i as int) =~= Seq::<TimerEntry>::empty());
        assert(scheduled(before, entry) =~= scheduled(before.take(i as int), entry) + before.skip(
            i as int,
        ));
        while i > 0 && Self::is_before(&entry, &self.entries[i - 1])
            invariant
                self.entries@ == before,
                i <= before.len(),
                scheduled(before, entry) == scheduled(before.take(i as int), entry) + before.skip(
                    i as int,
                ),
            decreases i,
        {
            proof {
                let now = before.take(i as int);
                let less = before.take(i - 1);
                assert(now.drop_last() =~= less);
                assert(now.last() == before[i - 1]);
                assert(scheduled(now, entry) + before.skip(i as int) =~= scheduled(less, entry)
                    + before.skip(i - 1));
            }
            i = i - 1;
        }
        proof {
            let now = before.take(i as int);
            if i > 0 {
                assert(now.last() == before[i - 1]);
            }
            assert(scheduled(now, entry) =~= now.push(entry));
            assert(before.insert(i as int, entry) =~= now.push(entry) + before.skip(i as int));
        }
        self.entries.insert(i, entry);
        self.next_sequence = self.next_sequence.wrapping_add(1);
    }

    /// Whether one timer stands before another.
    fn is_timer_before(a: &ControlTimer, b: &ControlTimer) -> (before: bool)
        ensures
            before == timer_before(*a, *b),
    {
        match (*a, *b) {
            (ControlTimer::Digest(x), ControlTimer::Digest(y)) => x.get() < y.get(),
            (
                ControlTimer::SpfHold { generation: x },
                ControlTimer::SpfHold { generation: y },
            ) => x < y,
            (
                ControlTimer::LsaRefresh { epoch: e, seq: s },
                ControlTimer::LsaRefresh { epoch: f, seq: t },
            ) => e < f || e == f && s < t,
            (
                ControlTimer::LsaExpire { origin: o, epoch: e, seq: s },
                ControlTimer::LsaExpire { origin: p, epoch: f, seq: t },
            ) => match o.relate_id(&p) {
                Rel::Before => true,
                Rel::Same => {
                    proof {
                        order::bytes_before_irreflexive(o.bytes());
                    }
                    e < f || e == f && s < t
                },
                Rel::After => false,
            },
            _ => Self::rank(a) < Self::rank(b),
        }
    }

    /// Where a kind of timer stands among the others.
    fn rank(timer: &ControlTimer) -> (rank: u8)
        ensures
            rank == kind_rank(*timer),
    {
        match timer {
            ControlTimer::Digest(_) => 0,
            ControlTimer::SpfHold { .. } => 1,
            ControlTimer::LsaRefresh { .. } => 2,
            ControlTimer::LsaExpire { .. } => 3,
        }
    }

    /// Whether one deadline falls due before another.
    fn is_before(a: &TimerEntry, b: &TimerEntry) -> (before: bool)
        ensures
            before == entry_before(*a, *b),
    {
        if a.at != b.at {
            a.at < b.at
        } else if a.sequence != b.sequence {
            a.sequence < b.sequence
        } else {
            Self::is_timer_before(&a.timer, &b.timer)
        }
    }

    /// When the next deadline falls due, if one is set.
    pub fn next_at(&self) -> (at: Option<u64>)
        ensures
            at == if self.entries().len() > 0 {
                Some(self.entries()[0].at)
            } else {
                None
            },
    {
        if self.entries.len() > 0 {
            Some(self.entries[0].at)
        } else {
            None
        }
    }

    /// Takes the next deadline, if one is set.
    pub fn take_next(&mut self) -> (timer: Option<ControlTimer>)
        ensures
            final(self).next_sequence() == old(self).next_sequence(),
            match timer {
                Some(t) => {
                    &&& old(self).entries().len() > 0
                    &&& t == old(self).entries()[0].timer
                    &&& final(self).entries() == old(self).entries().drop_first()
                },
                None => {
                    &&& old(self).entries().len() == 0
                    &&& final(self).entries() == old(self).entries()
                },
            },
    {
        if self.entries.len() == 0 {
            return None;
        }
        let ghost before = self.entries@;
        let entry = self.entries.remove(0);
        assert(self.entries@ =~= before.drop_first());
        Some(entry.timer)
    }

    /// Takes the next deadline, if it has fallen due.
    pub fn take_due(&mut self, now: MonoTime) -> (timer: Option<ControlTimer>)
        ensures
            final(self).next_sequence() == old(self).next_sequence(),
            match timer {
                Some(t) => {
                    &&& old(self).entries().len() > 0
                    &&& old(self).entries()[0].at <= now.millis()
                    &&& t == old(self).entries()[0].timer
                    &&& final(self).entries() == old(self).entries().drop_first()
                },
                None => {
                    &&& old(self).entries().len() > 0 ==> old(self).entries()[0].at > now.millis()
                    &&& final(self).entries() == old(self).entries()
                },
            },
    {
        match self.next_at() {
            Some(at) => if at <= now.as_millis() {
                self.take_next()
            } else {
                None
            },
            None => None,
        }
    }
}

} // verus!
