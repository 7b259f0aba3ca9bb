//! Properties that relate several operations of the library.

use vstd::prelude::*;
use crate::decode::{canonical_key, hex_bytes, parse_spec, u32_text_value};
use crate::reduce::{MAX_POINTS, halved_from, is_halving, lemma_reduced_len_bound, pass_count, reduced_len};
use crate::tracker::{TrackerState, observe, rotations, run};

verus! {

/// Without spend events a tracker counts no spend, and every sample it takes
/// has zero matched spends.
pub proof fn lemma_no_spends_no_turnover(s: TrackerState, events: Seq<(bool, u32, Seq<u8>)>)
    requires
        s.size > 0,
        s.spent == 0,
        s.checkpoint == 0,
        forall|i: int| 0 <= i < s.history.len() ==> (#[trigger] s.history[i]).spent == 0,
        forall|i: int| 0 <= i < events.len() ==> !(#[trigger] events[i]).0,
    ensures
        run(s, events).spent == 0,
        forall|i: int|
            0 <= i < run(s, events).history.len() ==> (#[trigger] run(s, events).history[i]).spent
                == 0,
    decreases events.len(),
{
    if events.len() > 0 {
        let n = observe(s, events[0]);
        assert(!events[0].0);
        assert forall|i: int| 0 <= i < events.drop_first().len() implies !(#[trigger] events.drop_first()[i]).0 by {
            assert(events.drop_first()[i] == events[i + 1]);
        }
        lemma_no_spends_no_turnover(n, events.drop_first());
    }
}

/// A tracker takes one sample exactly at each event whose height is a
/// multiple of its window size and that finds its live set non-empty.
pub proof fn lemma_samples_count_rotations(s: TrackerState, events: Seq<(bool, u32, Seq<u8>)>)
    requires
        s.size > 0,
    ensures
        run(s, events).history.len() == s.history.len() + rotations(s, events),
    decreases events.len(),
{
    if events.len() > 0 {
        lemma_samples_count_rotations(observe(s, events[0]), events.drop_first());
    }
}

/// A creation record and a spend record of the same output, whose identifier
/// fields spell reversed bytes, decode to the same key; a tracker that saw the
/// creation matches the spend when no rotation falls between them.
pub proof fn lemma_spend_matches_creation(
    s: TrackerState,
    created: Seq<Seq<u8>>,
    spent: Seq<Seq<u8>>,
)
    requires
        s.size > 0,
        parse_spec(created) is Ok,
        parse_spec(spent) is Ok,
        !parse_spec(created)->Ok_0.0,
        parse_spec(spent)->Ok_0.0,
        hex_bytes(spent[2]) == hex_bytes(created[2]).reverse(),
        u32_text_value(spent[3]) == u32_text_value(created[3]),
        (parse_spec(spent)->Ok_0.1 as nat) % s.size != 0,
    ensures
        parse_spec(created)->Ok_0.2 == parse_spec(spent)->Ok_0.2,
        observe(observe(s, parse_spec(created)->Ok_0), parse_spec(spent)->Ok_0).spent == s.spent
            + 1,
{
    let id = hex_bytes(created[2]);
    let n = u32_text_value(created[3]) as u32;
    assert(id.reverse().reverse() =~= id);
    assert(canonical_key(false, id, n) == canonical_key(true, id.reverse(), n));
    let c = observe(s, parse_spec(created)->Ok_0);
    assert(c.live.contains(parse_spec(created)->Ok_0.2));
}

/// A reduced series holds at most `MAX_POINTS` points, and a series of at
/// most `MAX_POINTS` points is left as it is, after no pass.
pub proof fn lemma_reduction_bounds<T, F: Fn(T, T) -> T>(v: Seq<T>, out: Seq<T>, mean: F)
    requires
        halved_from(v, out, pass_count(v.len()), mean),
    ensures
        reduced_len(v.len()) <= MAX_POINTS,
        v.len() <= MAX_POINTS ==> pass_count(v.len()) == 0 && out == v,
{
    lemma_reduced_len_bound(v.len());
    if v.len() <= MAX_POINTS {
        let stages = choose|stages: Seq<Seq<T>>|
            #![trigger stages.len()]
            {
                &&& stages.len() == pass_count(v.len()) + 1
                &&& stages[0] == v
                &&& stages[pass_count(v.len()) as int] == out
                &&& forall|k: int|
                    0 <= k < pass_count(v.len()) ==> is_halving(
                        #[trigger] stages[k],
                        stages[k + 1],
                        mean,
                    )
            };
        assert(stages.len() == 1);
    }
}

/// Reducing a series that is already reduced changes nothing.
pub proof fn lemma_reduction_idempotent<T, F: Fn(T, T) -> T>(
    v: Seq<T>,
    once: Seq<T>,
    twice: Seq<T>,
    mean: F,
)
    requires
        halved_from(v, once, pass_count(v.len()), mean),
        once.len() == reduced_len(v.len()),
        halved_from(once, twice, pass_count(once.len()), mean),
    ensures
        pass_count(once.len()) == 0,
        twice == once,
{
    lemma_reduced_len_bound(v.len());
    lemma_reduction_bounds(once, twice, mean);
}

} // verus!
