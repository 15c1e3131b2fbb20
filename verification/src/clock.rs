//! A simulated clock: a monotonic instant and a queue of timers ordered by
//! deadline and then by timer id.

use std::cmp::Ordering;
use vstd::prelude::*;
use vstd::std_specs::cmp::PartialOrdSpecImpl;

verus! {

/// An instant of simulated time, counted in ticks.
#[derive(Clone, Copy, Debug, PartialEq, Eq, Structural, Default, Ord)]
pub struct SimInstant(pub u64);

impl SimInstant {
    pub fn from_ticks(ticks: u64) -> (instant: Self)
        ensures
            instant.0 == ticks,
    {
        SimInstant(ticks)
    }

    pub fn ticks(self) -> (ticks: u64)
        ensures
            ticks == self.0,
    {
        self.0
    }
}

/// The handle of a scheduled timer.
#[derive(Clone, Copy, Debug, PartialEq, Eq, Structural, Ord)]
pub struct TimerId(pub u64);

impl TimerId {
    pub fn value(self) -> (value: u64)
        ensures
            value == self.0,
    {
        self.0
    }
}


/// Two tick counts compared as numbers.
pub open spec fn tick_order(a: u64, b: u64) -> Option<Ordering> {
    if a < b {
        Some(Ordering::Less)
    } else if a > b {
        Some(Ordering::Greater)
    } else {
        Some(Ordering::Equal)
    }
}

fn compare_ticks(a: u64, b: u64) -> (o: Option<Ordering>)
    ensures
        o == tick_order(a, b),
{
    if a < b {
        Some(Ordering::Less)
    } else if a > b {
        Some(Ordering::Greater)
    } else {
        Some(Ordering::Equal)
    }
}

/// Instants are ordered by their ticks.
impl PartialOrd for SimInstant {
    fn partial_cmp(&self, other: &Self) -> (o: Option<Ordering>) {
        compare_ticks(self.0, other.0)
    }
}

impl PartialOrdSpecImpl for SimInstant {
    open spec fn obeys_partial_cmp_spec() -> bool {
        true
    }

    open spec fn partial_cmp_spec(&self, other: &Self) -> Option<Ordering> {
        tick_order(self.0, other.0)
    }
}

/// Timer ids are ordered by their values.
impl PartialOrd for TimerId {
    fn partial_cmp(&self, other: &Self) -> (o: Option<Ordering>) {
        compare_ticks(self.0, other.0)
    }
}

impl PartialOrdSpecImpl for TimerId {
    open spec fn obeys_partial_cmp_spec() -> bool {
        true
    }

    open spec fn partial_cmp_spec(&self, other: &Self) -> Option<Ordering> {
        tick_order(self.0, other.0)
    }
}

} // verus!

verus! {

/// The order of the timer queue: by deadline, then by timer id.
pub open spec fn timer_le(a: (u64, u64), b: (u64, u64)) -> bool {
    a.0 < b.0 || (a.0 == b.0 && a.1 <= b.1)
}

/// A timer queue is kept sorted by (deadline, id).
pub open spec fn timers_sorted(timers: Seq<(u64, u64)>) -> bool {
    forall|i: int, j: int| 0 <= i < j < timers.len() ==> timer_le(timers[i], timers[j])
}

/// `u64` addition that stops at the largest value.
pub open spec fn saturating_add(a: u64, b: u64) -> u64 {
    if a + b > u64::MAX {
        u64::MAX
    } else {
        (a + b) as u64
    }
}

/// The abstract state of a simulated clock: the current instant, the id that
/// the next timer receives, and the pending timers as (deadline, id) pairs in
/// queue order.
pub struct SimClockView {
    pub now: u64,
    pub next_id: u64,
    pub timers: Seq<(u64, u64)>,
}

/// A call of `schedule_after` took the clock from `before` to `after` and
/// handed out timer id `id`: the id that was next, the next one counting up
/// by one (and stopping at the largest value).
pub open spec fn hands_out(before: SimClockView, after: SimClockView, id: u64) -> bool {
    &&& id == before.next_id
    &&& after.next_id == saturating_add(before.next_id, 1)
}

/// The ids a run of `schedule_after` calls handed out, with the clock's
/// state before each call and after the last.
pub open spec fn id_run(states: Seq<SimClockView>, ids: Seq<u64>) -> bool {
    &&& states.len() == ids.len() + 1
    &&& forall|i: int| 0 <= i < ids.len() ==> hands_out(#[trigger] states[i], states[i + 1], ids[i])
}

/// A new clock hands out timer ids 0, 1, 2, ... in the order of the
/// `schedule_after` calls, so no two of its timers share an id and later
/// timers have larger ids.
pub proof fn law_timer_ids_count_from_zero(states: Seq<SimClockView>, ids: Seq<u64>)
    requires
        id_run(states, ids),
        states[0].next_id == 0,
        ids.len() < u64::MAX,
    ensures
        forall|i: int| 0 <= i < ids.len() ==> #[trigger] ids[i] == i,
        states.last().next_id == ids.len(),
{
    lemma_ids_from_zero(states, ids, ids.len() as int);
}

proof fn lemma_ids_from_zero(states: Seq<SimClockView>, ids: Seq<u64>, k: int)
    requires
        id_run(states, ids),
        states[0].next_id == 0,
        ids.len() < u64::MAX,
        0 <= k <= ids.len(),
    ensures
        states[k].next_id == k,
        forall|i: int| 0 <= i < k ==> #[trigger] ids[i] == i,
    decreases k,
{
    if k > 0 {
        lemma_ids_from_zero(states, ids, k - 1);
        assert(hands_out(states[k - 1], states[k], ids[k - 1]));
    }
}

/// A deterministic clock whose time moves only to the next timer deadline.
#[derive(Debug)]
pub struct SimClock {
    now: SimInstant,
    next_id: u64,
    timers: Vec<(u64, u64)>,
}

impl View for SimClock {
    type V = SimClockView;

    closed spec fn view(&self) -> SimClockView {
        SimClockView { now: self.now.0, next_id: self.next_id, timers: self.timers@ }
    }
}

/// What every clock satisfies: the queue is sorted and no timer lies in the
/// past.
pub open spec fn clock_valid(v: SimClockView) -> bool {
    &&& timers_sorted(v.timers)
    &&& forall|i: int| 0 <= i < v.timers.len() ==> v.timers[i].0 >= v.now
}

impl SimClock {
    #[verifier::type_invariant]
    closed spec fn well_formed(&self) -> bool {
        clock_valid(self@)
    }

    /// A clock at instant zero with no timers.
    pub fn new() -> (clock: Self)
        ensures
            clock@.now == 0,
            clock@.next_id == 0,
            clock@.timers == Seq::<(u64, u64)>::empty(),
            clock_valid(clock@),
    {
        SimClock { now: SimInstant(0), next_id: 0, timers: Vec::new() }
    }

    pub fn now(&self) -> (now: SimInstant)
        ensures
            now.0 == self@.now,
            clock_valid(self@),
    {
        proof {
            use_type_invariant(self);
        }
        self.now
    }

    /// Schedules a timer `ticks` after the current instant (the deadline
    /// saturates at the largest instant) and returns its id.
    pub fn schedule_after(&mut self, ticks: u64) -> (id: TimerId)
        ensures
            id.0 == old(self)@.next_id,
            hands_out(old(self)@, final(self)@, id.0),
            final(self)@.now == old(self)@.now,
            final(self)@.next_id == saturating_add(old(self)@.next_id, 1),
            clock_valid(final(self)@),
            final(self)@.timers.to_multiset() == old(self)@.timers.to_multiset().insert(
                (saturating_add(old(self)@.now, ticks), old(self)@.next_id),
            ),
    {
        proof {
            use_type_invariant(&*self);
        }
        let id = self.next_id;
        self.next_id = self.next_id.saturating_add(1);
        let deadline = self.now.0.saturating_add(ticks);
        let entry = (deadline, id);
        let mut pos: usize = 0;
        let len = self.timers.len();
        while pos < len && (self.timers[pos].0 < deadline || (self.timers[pos].0 == deadline
            && self.timers[pos].1 <= id))
            invariant
                len == self.timers.len(),
                pos <= len,
                entry == (deadline, id),
                forall|i: int| 0 <= i < pos ==> timer_le(#[trigger] self.timers@[i], entry),
            decreases len - pos,
        {
            pos = pos + 1;
        }
        let ghost old_timers = self.timers@;
        assert(pos == len || !timer_le(old_timers[pos as int], entry));
        let mut timers: Vec<(u64, u64)> = Vec::new();
        std::mem::swap(&mut timers, &mut self.timers);
        timers.insert(pos, entry);
        proof {
            vstd::seq_lib::to_multiset_insert(old_timers, pos as int, entry);
            assert forall|i: int, j: int| 0 <= i < j < timers@.len() implies timer_le(
                timers@[i],
                timers@[j],
            ) by {
                if j < pos {
                } else if j == pos {
                } else if i < pos {
                    assert(timer_le(old_timers[i], entry));
                    assert(timer_le(entry, old_timers[pos as int]) || pos == len);
                    assert(timer_le(old_timers[pos as int], old_timers[j - 1]) || pos == j - 1);
                } else if i == pos {
                    assert(timer_le(old_timers[pos as int], old_timers[j - 1]) || pos == j - 1);
                } else {
                }
            }
        }
        self.timers = timers;
        TimerId(id)
    }

    pub fn has_timers(&self) -> (has: bool)
        ensures
            has == (self@.timers.len() > 0),
    {
        self.timers.len() > 0
    }

    /// Moves the clock to the earliest pending deadline and fires every timer
    /// due then, returning their ids in queue order. With no timers pending
    /// nothing changes and no id is returned.
    pub fn advance_to_next(&mut self) -> (fired: Vec<TimerId>)
        ensures
            old(self)@.timers.len() == 0 ==> fired@.len() == 0 && final(self)@ == old(self)@,
            old(self)@.timers.len() > 0 ==> {
                let d = old(self)@.timers[0].0;
                let k = fired@.len() as int;
                &&& 0 < k <= old(self)@.timers.len()
                &&& forall|i: int|
                    0 <= i < k ==> old(self)@.timers[i].0 == d && (#[trigger] fired@[i]).0
                        == old(self)@.timers[i].1
                &&& k == old(self)@.timers.len() || old(self)@.timers[k].0 != d
                &&& final(self)@.now == d
                &&& final(self)@.next_id == old(self)@.next_id
                &&& final(self)@.timers == old(self)@.timers.skip(k)
            },
            final(self)@.now >= old(self)@.now,
            clock_valid(final(self)@),
    {
        proof {
            use_type_invariant(&*self);
        }
        if self.timers.len() == 0 {
            return Vec::new();
        }
        let deadline = self.timers[0].0;
        let len = self.timers.len();
        let mut fired: Vec<TimerId> = Vec::new();
        let mut k: usize = 0;
        while k < len && self.timers[k].0 == deadline
            invariant
                len == self.timers.len(),
                k <= len,
                fired@.len() == k,
                deadline == self.timers@[0].0,
                forall|i: int| 0 <= i < k ==> (#[trigger] self.timers@[i]).0 == deadline,
                forall|i: int| 0 <= i < k ==> (#[trigger] fired@[i]).0 == self.timers@[i].1,
            decreases len - k,
        {
            let ghost before = fired@;
            assert(self.timers@[k as int].0 == deadline);
            fired.push(TimerId(self.timers[k].1));
            assert(fired@[k as int].0 == self.timers@[k as int].1);
            assert forall|i: int| 0 <= i < k implies fired@[i] == before[i] by {}
            k = k + 1;
        }
        let ghost old_timers = self.timers@;
        let mut timers: Vec<(u64, u64)> = Vec::new();
        std::mem::swap(&mut timers, &mut self.timers);
        let rest = timers.split_off(k);
        assert(rest@ == old_timers.skip(k as int));
        proof {
            assert forall|i: int, j: int| 0 <= i < j < rest@.len() implies timer_le(
                rest@[i],
                rest@[j],
            ) by {
                assert(rest@[i] == old_timers[i + k]);
                assert(rest@[j] == old_timers[j + k]);
            }
            assert forall|i: int| 0 <= i < rest@.len() implies rest@[i].0 >= deadline by {
                assert(rest@[i] == old_timers[i + k]);
                assert(timer_le(old_timers[0], old_timers[i + k]) || i + k == 0);
            }
        }
        self.timers = rest;
        self.now = SimInstant(deadline);
        fired
    }
}

} // verus!
