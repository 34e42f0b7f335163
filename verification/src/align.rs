//! Temporal alignment: retiming a chart's events to a replay's clicks.
//!
//! The aligner walks the event sequence once, in its existing order. For
//! each event it binary-searches the remaining click pool for the first
//! click at or after the event's nominal time, snaps the event to the
//! strictly nearer of that click and its predecessor (ties go to the later
//! click), and discards every click up to and including the chosen one. If
//! the search runs off the end of the pool, processing stops entirely and
//! every remaining event is left untouched. The assignment is greedy and
//! single-pass by design: a discarded click is never revisited.

use vstd::prelude::*;
use crate::clicks::Click;
use crate::clicks::ReplayAction;
use crate::clicks::clicks_upto;
use crate::clicks::prefix_time;
use crate::clicks::spec_clicks;

verus! {

/// A timed, positioned interactive element of a chart, mutable in place.
#[derive(Clone, Copy, PartialEq, Eq, Structural, Debug)]
pub struct ChartEvent {
    pub time: i64,
    pub x: i32,
    pub y: i32,
}

/// The click pool is ascending by time.
pub open spec fn clicks_sorted(s: Seq<Click>) -> bool {
    forall|i: int, j: int| 0 <= i <= j < s.len() ==> s[i].time <= s[j].time
}

/// The index of the first click at or after time `t`: the insertion point
/// a binary search returns on an ascending pool.
pub open spec fn lower_bound(s: Seq<Click>, t: int) -> int
    decreases s.len(),
{
    if s.len() == 0 {
        0
    } else if s[0].time >= t {
        0
    } else {
        1 + lower_bound(s.drop_first(), t)
    }
}

/// Any index with the characteristic properties of `lower_bound` is
/// `lower_bound`: everything before it earlier than `t`, itself not.
pub proof fn lemma_lower_bound_unique(s: Seq<Click>, t: int, i: int)
    requires
        0 <= i <= s.len(),
        forall|j: int| 0 <= j < i ==> s[j].time < t,
        i < s.len() ==> s[i].time >= t,
    ensures
        i == lower_bound(s, t),
    decreases s.len(),
{
    if s.len() == 0 {
    } else if s[0].time >= t {
        assert(i == 0);
    } else {
        assert(i >= 1);
        assert forall|j: int| 0 <= j < i - 1 implies s.drop_first()[j].time < t by {
            assert(s.drop_first()[j] == s[j + 1]);
        }
        if i - 1 < s.len() - 1 {
            assert(s.drop_first()[i - 1] == s[i]);
        }
        lemma_lower_bound_unique(s.drop_first(), t, i - 1);
    }
}

/// The click an event at nominal time `t` snaps to, as an index into the
/// pool: the lower bound, or its predecessor when that one is strictly
/// nearer. Meaningful only when the lower bound is inside the pool.
pub open spec fn chosen_index(s: Seq<Click>, t: int) -> int {
    let idx = lower_bound(s, t);
    if idx > 0 && t - s[idx - 1].time < s[idx].time - t {
        idx - 1
    } else {
        idx
    }
}

/// The aligned event sequence: each event in order is snapped to its chosen
/// click and the pool shrinks past that click; when the pool is exhausted
/// for an event, that event and all later ones stay as they are.
pub open spec fn spec_align(events: Seq<ChartEvent>, clicks: Seq<Click>) -> Seq<ChartEvent>
    decreases events.len(),
{
    if events.len() == 0 {
        events
    } else {
        let t = events[0].time as int;
        if lower_bound(clicks, t) == clicks.len() {
            events
        } else {
            let ci = chosen_index(clicks, t);
            let e = ChartEvent { time: clicks[ci].time, x: clicks[ci].x, y: clicks[ci].y };
            seq![e] + spec_align(events.drop_first(), clicks.skip(ci + 1))
        }
    }
}

/// Exhaustion stops everything: when the search index for the next event
/// equals the remaining pool length, alignment leaves every event of the
/// sequence — this one and all after it — exactly as it was.
pub proof fn lemma_align_exhausted(events: Seq<ChartEvent>, clicks: Seq<Click>)
    requires
        events.len() > 0,
        lower_bound(clicks, events[0].time as int) == clicks.len(),
    ensures
        spec_align(events, clicks) == events,
{
}

/// The clicks of the first `n` actions are ascending and bounded by the
/// cumulative time so far, when no delta is negative.
proof fn lemma_clicks_upto_sorted(s: Seq<ReplayAction>, n: int)
    requires
        1 <= n <= s.len(),
        forall|i: int| 1 <= i < s.len() ==> s[i].delta >= 0,
        forall|i: int|
            1 <= i < s.len() ==> i64::MIN <= #[trigger] prefix_time(s, i) <= i64::MAX,
    ensures
        clicks_sorted(clicks_upto(s, n)),
        forall|j: int|
            0 <= j < clicks_upto(s, n).len() ==> #[trigger] clicks_upto(s, n)[j].time
                <= prefix_time(s, n - 1),
    decreases n,
{
    if n == 1 {
    } else {
        lemma_clicks_upto_sorted(s, n - 1);
        assert(prefix_time(s, n - 1) == prefix_time(s, n - 2) + s[n - 1].delta);
        assert(s[n - 1].delta >= 0);
    }
}

/// A trace whose deltas are all non-negative yields an ascending click
/// pool: for such a replay, extraction feeds alignment directly.
pub proof fn lemma_monotone_trace_clicks_sorted(s: Seq<ReplayAction>)
    requires
        forall|i: int| 1 <= i < s.len() ==> s[i].delta >= 0,
        forall|i: int|
            1 <= i < s.len() ==> i64::MIN <= #[trigger] prefix_time(s, i) <= i64::MAX,
    ensures
        clicks_sorted(spec_clicks(s)),
{
    if s.len() >= 1 {
        lemma_clicks_upto_sorted(s, s.len() as int);
    } else {
        assert(clicks_upto(s, s.len() as int).len() == 0);
    }
}

/// The whole pool is ascending when every adjacent pair is.
proof fn lemma_adjacent_clicks_sorted(s: Seq<Click>, i: int, j: int)
    requires
        forall|x: int| 0 <= x < s.len() - 1 ==> #[trigger] s[x].time <= s[x + 1].time,
        0 <= i <= j < s.len(),
    ensures
        s[i].time <= s[j].time,
    decreases j - i,
{
    if i < j {
        lemma_adjacent_clicks_sorted(s, i, j - 1);
        assert(s[j - 1].time <= s[j - 1 + 1].time);
    }
}

/// Checks that a click pool is ascending by time, as alignment requires.
pub fn clicks_are_sorted(clicks: &Vec<Click>) -> (r: bool)
    ensures
        r == clicks_sorted(clicks@),
{
    let n = clicks.len();
    if n == 0 {
        return true;
    }
    let mut i: usize = 0;
    while i + 1 < n
        invariant
            n == clicks@.len(),
            0 <= i < n,
            forall|x: int| 0 <= x < i ==> #[trigger] clicks@[x].time <= clicks@[x + 1].time,
        decreases n - i,
    {
        if clicks[i].time > clicks[i + 1].time {
            proof {
                assert(!clicks_sorted(clicks@)) by {
                    if clicks_sorted(clicks@) {
                        assert(clicks@[i as int].time <= clicks@[i + 1].time);
                    }
                }
            }
            return false;
        }
        i = i + 1;
    }
    proof {
        assert forall|a: int, b: int|
            0 <= a <= b < clicks@.len() implies clicks@[a].time <= clicks@[b].time by {
            lemma_adjacent_clicks_sorted(clicks@, a, b);
        }
    }
    true
}

/// Binary search for the first click at index `start` or later whose time
/// is at or after `t`.
fn lower_bound_from(clicks: &Vec<Click>, start: usize, t: i64) -> (r: usize)
    requires
        start <= clicks@.len(),
        clicks_sorted(clicks@),
    ensures
        start <= r <= clicks@.len(),
        forall|j: int| start <= j < r ==> clicks@[j].time < t,
        r < clicks@.len() ==> clicks@[r as int].time >= t,
{
    let mut lo = start;
    let mut hi = clicks.len();
    while lo < hi
        invariant
            start <= lo <= hi <= clicks@.len(),
            clicks_sorted(clicks@),
            forall|j: int| start <= j < lo ==> clicks@[j].time < t,
            hi < clicks@.len() ==> clicks@[hi as int].time >= t,
        decreases hi - lo,
    {
        let mid = lo + (hi - lo) / 2;
        if clicks[mid].time < t {
            lo = mid + 1;
        } else {
            hi = mid;
        }
    }
    lo
}

/// Retimes and repositions `events` against the ascending click pool, one
/// greedy pass, exactly as `spec_align` describes.
pub fn align_events(events: &mut Vec<ChartEvent>, clicks: &Vec<Click>)
    requires
        clicks_sorted(clicks@),
    ensures
        final(events)@ == spec_align(old(events)@, clicks@),
{
    let ghost orig: Seq<ChartEvent> = events@;
    let mut i: usize = 0;
    let mut start: usize = 0;
    let mut exhausted = false;
    proof {
        assert(orig.skip(0) =~= orig);
        assert(clicks@.skip(0) =~= clicks@);
        assert(events@.take(0) + spec_align(orig, clicks@) =~= spec_align(orig, clicks@));
    }
    while i < events.len() && !exhausted
        invariant
            i <= events@.len(),
            events@.len() == orig.len(),
            start <= clicks@.len(),
            clicks_sorted(clicks@),
            events@.skip(i as int) == orig.skip(i as int),
            !exhausted ==> events@.take(i as int)
                + spec_align(orig.skip(i as int), clicks@.skip(start as int))
                == spec_align(orig, clicks@),
            exhausted ==> events@ == spec_align(orig, clicks@),
        decreases events@.len() - i + (if exhausted { 0int } else { 1int }),
    {
        let t = events[i].time;
        proof {
            assert(orig.skip(i as int)[0] == orig[i as int]);
            assert(events@.skip(i as int)[0] == events@[i as int]);
        }
        let idx = lower_bound_from(clicks, start, t);
        proof {
            let pool = clicks@.skip(start as int);
            assert forall|j: int| 0 <= j < idx - start implies pool[j].time < t as int by {
                assert(pool[j] == clicks@[start + j]);
            }
            if idx - start < pool.len() {
                assert(pool[idx - start] == clicks@[idx as int]);
            }
            lemma_lower_bound_unique(pool, t as int, idx - start);
        }
        if idx == clicks.len() {
            proof {
                let pool = clicks@.skip(start as int);
                assert(lower_bound(pool, t as int) == pool.len());
                assert(spec_align(orig.skip(i as int), pool) == orig.skip(i as int));
                assert(events@.take(i as int) + events@.skip(i as int) =~= events@);
            }
            exhausted = true;
        } else {
            let ci = if idx > start {
                let before = clicks[idx - 1].time;
                let after = clicks[idx].time;
                if (t as i128) - (before as i128) < (after as i128) - (t as i128) {
                    idx - 1
                } else {
                    idx
                }
            } else {
                idx
            };
            let c = clicks[ci];
            let ghost before_set: Seq<ChartEvent> = events@;
            events.set(i, ChartEvent { time: c.time, x: c.x, y: c.y });
            proof {
                let pool = clicks@.skip(start as int);
                let tail = orig.skip(i as int);
                let li = idx - start;
                let cil = chosen_index(pool, t as int);
                if li > 0 {
                    assert(pool[li - 1] == clicks@[idx - 1]);
                    assert(pool[li] == clicks@[idx as int]);
                }
                assert(cil == ci - start);
                assert(pool[cil] == clicks@[ci as int]);
                let e = ChartEvent {
                    time: pool[cil].time,
                    x: pool[cil].x,
                    y: pool[cil].y,
                };
                assert(tail[0] == orig[i as int]);
                assert(spec_align(tail, pool) == seq![e]
                    + spec_align(tail.drop_first(), pool.skip(cil + 1)));
                assert(tail.drop_first() =~= orig.skip(i + 1));
                assert(pool.skip(cil + 1) =~= clicks@.skip(ci + 1));
                assert(events@ == before_set.update(i as int, e));
                assert(events@.take(i + 1) =~= before_set.take(i as int).push(e));
                assert(events@.skip(i + 1) =~= orig.skip(i + 1));
                assert(before_set.take(i as int).push(e)
                    + spec_align(orig.skip(i + 1), clicks@.skip(ci + 1))
                    =~= before_set.take(i as int)
                    + (seq![e] + spec_align(orig.skip(i + 1), clicks@.skip(ci + 1))));
                assert(events@.take(i + 1)
                    + spec_align(orig.skip(i + 1), clicks@.skip(ci + 1))
                    == spec_align(orig, clicks@));
            }
            start = ci + 1;
            i = i + 1;
        }
    }
    proof {
        if !exhausted {
            assert(orig.skip(i as int).len() == 0);
            assert(spec_align(orig.skip(i as int), clicks@.skip(start as int)).len() == 0);
            assert(events@.take(i as int) + spec_align(
                orig.skip(i as int),
                clicks@.skip(start as int),
            ) =~= events@);
        }
    }
}

} // verus!
