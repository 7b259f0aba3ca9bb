//! Fan-out of the event stream to one tracker per window size, and the
//! global count of created outputs.

use vstd::prelude::*;
use crate::decode::InputLine;
use crate::tracker::{Counter, TrackerState, observe};

verus! {

/// The window sizes tracked, from short-term to long-term.
pub fn window_sizes() -> (r: Vec<u32>)
    ensures
        r@ == seq![2u32, 4, 16, 64, 144, 256, 1024, 4096, 16384, 65536],
{
    let r = vec![2u32, 4, 16, 64, 144, 256, 1024, 4096, 16384, 65536];
    assert(r@ =~= seq![2u32, 4, 16, 64, 144, 256, 1024, 4096, 16384, 65536]);
    r
}

/// All trackers, in size order, and the number of creation events seen.
pub struct Stream {
    counters: Vec<Counter>,
    total: u32,
}

pub open spec fn trackers_view(v: Seq<Counter>) -> Seq<TrackerState> {
    v.map_values(|c: Counter| c@)
}

impl Stream {
    pub closed spec fn view(&self) -> (Seq<TrackerState>, nat) {
        (trackers_view(self.counters@), self.total as nat)
    }

    pub closed spec fn wf(&self) -> bool {
        forall|i: int| 0 <= i < self.counters@.len() ==> (#[trigger] self.counters@[i]).wf()
    }

    /// No counter is at its limit, so one more event can be fed.
    pub open spec fn has_room_spec(&self) -> bool {
        &&& self@.1 < u32::MAX
        &&& forall|i: int|
            0 <= i < self@.0.len() ==> (#[trigger] self@.0[i]).spent < u32::MAX && self@.0[i].live.len()
                < usize::MAX
    }

    /// One fresh tracker per size, in the order given.
    pub fn new(sizes: &Vec<u32>) -> (r: Stream)
        requires
            forall|i: int| 0 <= i < sizes@.len() ==> sizes@[i] > 0,
        ensures
            r.wf(),
            r@.1 == 0,
            r@.0.len() == sizes@.len(),
            forall|i: int|
                0 <= i < sizes@.len() ==> (#[trigger] r@.0[i]) == (TrackerState {
                    size: sizes@[i] as nat,
                    live: Set::empty(),
                    spent: 0,
                    checkpoint: 0,
                    history: Seq::empty(),
                }),
    {
        let mut counters: Vec<Counter> = Vec::new();
        let mut i: usize = 0;
        while i < sizes.len()
            invariant
                i <= sizes@.len(),
                forall|j: int| 0 <= j < sizes@.len() ==> sizes@[j] > 0,
                counters@.len() == i,
                forall|j: int| 0 <= j < i ==> (#[trigger] counters@[j]).wf(),
                forall|j: int|
                    0 <= j < i ==> (#[trigger] counters@[j])@ == (TrackerState {
                        size: sizes@[j] as nat,
                        live: Set::empty(),
                        spent: 0,
                        checkpoint: 0,
                        history: Seq::empty(),
                    }),
            decreases sizes@.len() - i,
        {
            counters.push(Counter::new(sizes[i]));
            i = i + 1;
        }
        Stream { counters, total: 0 }
    }

    /// Whether one more event can be fed.
    pub fn has_room(&self) -> (r: bool)
        requires
            self.wf(),
        ensures
            r == self.has_room_spec(),
    {
        if self.total == u32::MAX {
            return false;
        }
        let mut i: usize = 0;
        while i < self.counters.len()
            invariant
                self.wf(),
                i <= self.counters@.len(),
                forall|j: int|
                    0 <= j < i ==> (#[trigger] self.counters@[j])@.spent < u32::MAX
                        && self.counters@[j]@.live.len() < usize::MAX,
            decreases self.counters@.len() - i,
        {
            if self.counters[i].spent() == u32::MAX || self.counters[i].live_len() == usize::MAX {
                assert(self@.0[i as int] == self.counters@[i as int]@);
                return false;
            }
            i = i + 1;
        }
        assert forall|j: int| 0 <= j < self@.0.len() implies (#[trigger] self@.0[j]).spent < u32::MAX
            && self@.0[j].live.len() < usize::MAX by {
            assert(self@.0[j] == self.counters@[j]@);
        }
        true
    }

    /// Feeds one event to every tracker in size order, then counts it if it
    /// creates an output.
    pub fn feed(&mut self, line: &InputLine)
        requires
            old(self).wf(),
            old(self).has_room_spec(),
        ensures
            final(self).wf(),
            final(self)@.0.len() == old(self)@.0.len(),
            forall|i: int|
                0 <= i < old(self)@.0.len() ==> (#[trigger] final(self)@.0[i]) == observe(
                    old(self)@.0[i],
                    line.view(),
                ),
            final(self)@.1 == old(self)@.1 + if line.input {
                0nat
            } else {
                1nat
            },
    {
        let ghost before = self.counters@;
        assert forall|j: int| 0 <= j < before.len() implies (#[trigger] before[j])@.spent < u32::MAX
            && before[j]@.live.len() < usize::MAX by {
            assert(self@.0[j] == before[j]@);
        }
        let n = self.counters.len();
        let mut i: usize = 0;
        while i < n
            invariant
                n == before.len(),
                self.counters@.len() == n,
                i <= n,
                forall|j: int| 0 <= j < n ==> (#[trigger] before[j]).wf(),
                forall|j: int|
                    0 <= j < n ==> (#[trigger] before[j])@.spent < u32::MAX && before[j]@.live.len()
                        < usize::MAX,
                forall|j: int| 0 <= j < i ==> (#[trigger] self.counters@[j]).wf(),
                forall|j: int|
                    0 <= j < i ==> (#[trigger] self.counters@[j])@ == observe(before[j]@, line.view()),
                forall|j: int| i <= j < n ==> (#[trigger] self.counters@[j]) == before[j],
                self.total == old(self).total,
            decreases n - i,
        {
            let mut c = self.counters.remove(i);
            c.count(line);
            self.counters.insert(i, c);
            i = i + 1;
        }
        if !line.input {
            self.total = self.total + 1;
        }
        assert forall|j: int| 0 <= j < n implies (#[trigger] self@.0[j]) == observe(
            old(self)@.0[j],
            line.view(),
        ) by {
            assert(self@.0[j] == self.counters@[j]@);
            assert(old(self)@.0[j] == before[j]@);
        }
    }

    /// Creation events seen so far.
    pub fn total(&self) -> (r: u32)
        ensures
            r as nat == self@.1,
    {
        self.total
    }

    /// The trackers, in size order.
    pub fn counters(&self) -> (r: &Vec<Counter>)
        ensures
            trackers_view(r@) == self@.0,
    {
        &self.counters
    }
}

} // verus!
