//! One window resolution: its live keys, its spend accounting and the turnover
//! samples taken at each window rotation.

use vstd::prelude::*;
use crate::decode::InputLine;
use std::collections::HashMap;

verus! {

/// A turnover sample: `spent` matched spends over `live` outputs of one window.
#[derive(Debug, Clone, Copy, PartialEq, Eq, Structural)]
pub struct Sample {
    pub spent: u32,
    pub live: usize,
}

/// The abstract state of a tracker.
pub struct TrackerState {
    pub size: nat,
    pub live: Set<Seq<u8>>,
    pub spent: nat,
    pub checkpoint: nat,
    pub history: Seq<Sample>,
}

/// The state right after the rotation check at `height`.
pub open spec fn rotate(s: TrackerState, height: u32) -> TrackerState {
    if (height as nat) % s.size == 0 {
        TrackerState {
            live: Set::empty(),
            checkpoint: s.spent,
            history: if s.live.len() > 0 {
                s.history.push(Sample { spent: (s.spent - s.checkpoint) as u32, live: s.live.len() as usize })
            } else {
                s.history
            },
            ..s
        }
    } else {
        s
    }
}

/// The state after observing one event `(is_spend, height, key)`.
pub open spec fn observe(s: TrackerState, e: (bool, u32, Seq<u8>)) -> TrackerState {
    let r = rotate(s, e.1);
    if e.0 {
        if r.live.contains(e.2) {
            TrackerState { spent: r.spent + 1, ..r }
        } else {
            r
        }
    } else {
        TrackerState { live: r.live.insert(e.2), ..r }
    }
}

/// The state after observing `events` in order.
pub open spec fn run(s: TrackerState, events: Seq<(bool, u32, Seq<u8>)>) -> TrackerState
    decreases events.len(),
{
    if events.len() == 0 {
        s
    } else {
        run(observe(s, events[0]), events.drop_first())
    }
}

/// Number of events in `events` whose height is a multiple of the window size
/// and that find the live set non-empty at their rotation check.
pub open spec fn rotations(s: TrackerState, events: Seq<(bool, u32, Seq<u8>)>) -> nat
    decreases events.len(),
{
    if events.len() == 0 {
        0
    } else {
        (if (events[0].1 as nat) % s.size == 0 && s.live.len() > 0 {
            1nat
        } else {
            0nat
        }) + rotations(observe(s, events[0]), events.drop_first())
    }
}

/// Tracks, for one window size, what fraction of live outputs get spent
/// before the window rotates.
///
/// The live keys are grouped by their leading bytes, so that a lookup only
/// scans the keys that share them.
pub struct Counter {
    set: HashMap<u64, Vec<Vec<u8>>>,
    keys: Ghost<Seq<Seq<u8>>>,
    live: usize,
    last_spent: u32,
    spent: u32,
    size: u32,
    list: Vec<Sample>,
}

pub open spec fn key_views(v: Seq<Vec<u8>>) -> Seq<Seq<u8>> {
    v.map_values(|k: Vec<u8>| k@)
}

/// The bucket of a key: its first eight bytes (fewer for a shorter key) read
/// as a big-endian number.
pub open spec fn bucket_of(k: Seq<u8>) -> u64 {
    bytes_value(k.subrange(0, if k.len() < 8 {
        k.len() as int
    } else {
        8
    }))
}

pub open spec fn bytes_value(s: Seq<u8>) -> u64
    decreases s.len(),
{
    if s.len() == 0 {
        0
    } else {
        (bytes_value(s.drop_last()) << 8u64) | (s.last() as u64)
    }
}

fn bucket(key: &Vec<u8>) -> (r: u64)
    ensures
        r == bucket_of(key@),
{
    let m: usize = if key.len() < 8 {
        key.len()
    } else {
        8
    };
    let mut acc: u64 = 0;
    let mut i: usize = 0;
    while i < m
        invariant
            i <= m,
            m <= key@.len(),
            m == (if key@.len() < 8 {
                key@.len() as int
            } else {
                8
            }),
            acc == bytes_value(key@.subrange(0, i as int)),
        decreases m - i,
    {
        assert(key@.subrange(0, i + 1).drop_last() =~= key@.subrange(0, i as int));
        acc = (acc << 8u64) | (key[i] as u64);
        i = i + 1;
    }
    acc
}

impl Counter {
    pub closed spec fn view(&self) -> TrackerState {
        TrackerState {
            size: self.size as nat,
            live: self.keys@.to_set(),
            spent: self.spent as nat,
            checkpoint: self.last_spent as nat,
            history: self.list@,
        }
    }

    pub closed spec fn wf(&self) -> bool {
        &&& self.size > 0
        &&& self.keys@.no_duplicates()
        &&& self.live == self.keys@.len()
        &&& forall|k: Seq<u8>|
            #![trigger self.keys@.contains(k)]
            self.keys@.contains(k) <==> (self.set@.contains_key(bucket_of(k)) && key_views(
                self.set@[bucket_of(k)]@,
            ).contains(k))
        &&& self.last_spent <= self.spent
    }

    /// A tracker for windows of `size` blocks, with nothing observed yet.
    pub fn new(size: u32) -> (r: Counter)
        requires
            size > 0,
        ensures
            r.wf(),
            r@ == (TrackerState {
                size: size as nat,
                live: Set::empty(),
                spent: 0,
                checkpoint: 0,
                history: Seq::empty(),
            }),
    {
        let r = Counter {
            set: HashMap::new(),
            keys: Ghost(Seq::empty()),
            live: 0,
            last_spent: 0,
            spent: 0,
            size,
            list: Vec::new(),
        };
        assert(r.keys@.to_set() =~= Set::empty());
        r
    }

    /// Feeds one event: the rotation check at its height, then the spend match
    /// or the creation.
    pub fn count(&mut self, line: &InputLine)
        requires
            old(self).wf(),
            old(self)@.spent < u32::MAX,
            old(self)@.live.len() < usize::MAX,
        ensures
            final(self).wf(),
            final(self)@ == observe(old(self)@, line.view()),
    {
        proof {
            self.keys@.unique_seq_to_set();
        }
        if line.height % self.size == 0 {
            if self.live > 0 {
                let i = self.spent - self.last_spent;
                self.list.push(Sample { spent: i, live: self.live });
            }
            self.set = HashMap::new();
            self.keys = Ghost(Seq::empty());
            self.live = 0;
            self.last_spent = self.spent;
            assert(self.keys@.to_set() =~= Set::empty());
        }
        let found = self.contains(&line.key);
        if line.input {
            if found {
                self.spent = self.spent + 1;
            }
        } else if !found {
            self.insert_new(&line.key);
        } else {
            assert(self.keys@.to_set().insert(line.key@) =~= self.keys@.to_set());
        }
    }

    fn contains(&self, key: &Vec<u8>) -> (r: bool)
        requires
            self.wf(),
        ensures
            r == self.keys@.contains(key@),
    {
        broadcast use vstd::std_specs::hash::group_hash_axioms;
        let p = bucket(key);
        match self.set.get(&p) {
            None => {
                assert(!self.keys@.contains(key@));
                false
            },
            Some(b) => {
                assert(self.set@.contains_key(p) && *b == self.set@[p]);
                let mut i: usize = 0;
                while i < b.len()
                    invariant
                        0 <= i <= b@.len(),
                        forall|j: int| 0 <= j < i ==> b@[j]@ != key@,
                        self.wf(),
                        p == bucket_of(key@),
                        self.set@.contains_key(p),
                        *b == self.set@[p],
                    decreases b@.len() - i,
                {
                    if bytes_eq(&b[i], key) {
                        assert(key_views(b@)[i as int] == key@);
                        assert(key_views(b@).contains(key@));
                        assert(key_views(self.set@[bucket_of(key@)]@).contains(key@));
                        assert(self.keys@.contains(key@));
                        return true;
                    }
                    i = i + 1;
                }
                assert(!key_views(b@).contains(key@));
                assert(!self.keys@.contains(key@));
                false
            },
        }
    }

    fn insert_new(&mut self, key: &Vec<u8>)
        requires
            old(self).wf(),
            !old(self).keys@.contains(key@),
            old(self).keys@.len() < usize::MAX,
        ensures
            final(self).wf(),
            final(self)@ == (TrackerState { live: old(self)@.live.insert(key@), ..old(self)@ }),
    {
        broadcast use vstd::std_specs::hash::group_hash_axioms;
        proof {
            self.keys@.unique_seq_to_set();
        }
        let p = bucket(key);
        let ghost before = self.set@;
        let ghost old_keys = self.keys@;
        let mut b = match self.set.remove(&p) {
            Some(b) => b,
            None => Vec::new(),
        };
        let ghost old_b = b@;
        b.push(key.clone());
        assert(key_views(b@) =~= key_views(old_b).push(key@));
        self.set.insert(p, b);
        self.keys = Ghost(old_keys.push(key@));
        self.live = self.live + 1;
        proof {
            old_keys.lemma_push_to_set_commute(key@);
            assert(self.set@ == before.remove(p).insert(p, b));
            assert forall|k: Seq<u8>| #![trigger self.keys@.contains(k)]
                self.keys@.contains(k) <==> (self.set@.contains_key(bucket_of(k)) && key_views(
                    self.set@[bucket_of(k)]@,
                ).contains(k)) by {
                assert(self.keys@.contains(k) <==> self.keys@.to_set().contains(k));
                assert(old_keys.contains(k) <==> old_keys.to_set().contains(k));
                assert(self.keys@.contains(k) <==> (old_keys.contains(k) || k == key@));
                if bucket_of(k) == p {
                    key_views(old_b).lemma_push_to_set_commute(key@);
                    assert(key_views(b@).contains(k) <==> key_views(b@).to_set().contains(k));
                    assert(key_views(old_b).contains(k) <==> key_views(old_b).to_set().contains(k));
                    assert(key_views(b@).contains(k) <==> (key_views(old_b).contains(k) || k == key@));
                    if before.contains_key(p) {
                        assert(old_b == before[p]@);
                    } else {
                        assert(!old_keys.contains(k));
                    }
                } else {
                    assert(self.set@.contains_key(bucket_of(k)) == before.contains_key(bucket_of(k)));
                    if before.contains_key(bucket_of(k)) {
                        assert(self.set@[bucket_of(k)] == before[bucket_of(k)]);
                    }
                }
            }
        }
    }

    /// Number of keys live in the current window.
    pub fn live_len(&self) -> (r: usize)
        requires
            self.wf(),
        ensures
            r == self@.live.len(),
    {
        proof {
            self.keys@.unique_seq_to_set();
        }
        self.live
    }

    /// The window size.
    pub fn size(&self) -> (r: u32)
        ensures
            r as nat == self@.size,
    {
        self.size
    }

    /// Spends matched since the tracker was made.
    pub fn spent(&self) -> (r: u32)
        ensures
            r as nat == self@.spent,
    {
        self.spent
    }

    /// The samples taken at the rotations so far, oldest first.
    pub fn history(&self) -> (r: &Vec<Sample>)
        ensures
            r@ == self@.history,
    {
        &self.list
    }
}

fn bytes_eq(a: &Vec<u8>, b: &Vec<u8>) -> (r: bool)
    ensures
        r == (a@ == b@),
{
    if a.len() != b.len() {
        return false;
    }
    let mut i: usize = 0;
    while i < a.len()
        invariant
            0 <= i <= a@.len(),
            a@.len() == b@.len(),
            forall|j: int| 0 <= j < i ==> a@[j] == b@[j],
        decreases a@.len() - i,
    {
        if a[i] != b[i] {
            return false;
        }
        i = i + 1;
    }
    assert(a@ =~= b@);
    true
}

} // verus!
