//! Click extraction: turning a replay's raw input-action trace into the
//! ordered sequence of discrete click events.
//!
//! An action carries the time elapsed since the previous action, an
//! instantaneous button mask, and a cursor position. A click is produced
//! exactly at a rising edge of one of the two primary buttons (the low two
//! bits of the mask); the very first action never produces a click.

use vstd::prelude::*;

verus! {

/// One sampled frame of a replay's input trace, reduced to plain values:
/// `delta` milliseconds since the previous frame, the instantaneous button
/// mask, and the cursor position truncated toward zero to integers.
#[derive(Clone, Copy, PartialEq, Eq, Structural, Debug)]
pub struct ReplayAction {
    pub delta: i64,
    pub buttons: u32,
    pub x: i32,
    pub y: i32,
}

/// A discrete press event synthesized from the trace: cumulative time in
/// milliseconds and the cursor position at the pressing frame.
#[derive(Clone, Copy, PartialEq, Eq, Structural, Debug)]
pub struct Click {
    pub time: i64,
    pub x: i32,
    pub y: i32,
}

/// Cumulative time after processing action index `i`: the sum of the deltas
/// of actions `1..=i`. The delta of action 0 is never accumulated.
pub open spec fn prefix_time(s: Seq<ReplayAction>, i: int) -> int
    decreases i,
{
    if i <= 0 {
        0
    } else {
        prefix_time(s, i - 1) + s[i].delta
    }
}

/// A press edge: some primary button (low two bits) is down now and was not
/// down in the previous frame.
pub open spec fn is_press_edge(prev: u32, cur: u32) -> bool {
    (!prev & cur & 3u32) != 0u32
}

/// The clicks produced by the actions at indices `1..n`, in trace order.
pub open spec fn clicks_upto(s: Seq<ReplayAction>, n: int) -> Seq<Click>
    decreases n,
{
    if n <= 1 {
        Seq::empty()
    } else {
        let rest = clicks_upto(s, n - 1);
        if is_press_edge(s[n - 2].buttons, s[n - 1].buttons) {
            rest.push(
                Click { time: prefix_time(s, n - 1) as i64, x: s[n - 1].x, y: s[n - 1].y },
            )
        } else {
            rest
        }
    }
}

/// All clicks of a trace. A trace with fewer than two actions yields no
/// clicks: there is no previous frame to form an edge against.
pub open spec fn spec_clicks(s: Seq<ReplayAction>) -> Seq<Click> {
    clicks_upto(s, s.len() as int)
}

/// Checks that every cumulative time of the trace stays within the range
/// of the time type, as extraction requires.
pub fn trace_times_fit(actions: &Vec<ReplayAction>) -> (r: bool)
    ensures
        r == (forall|i: int|
            1 <= i < actions@.len() ==> i64::MIN <= #[trigger] prefix_time(actions@, i)
                <= i64::MAX),
{
    if actions.len() < 2 {
        return true;
    }
    let mut t: i128 = 0;
    let mut i: usize = 1;
    while i < actions.len()
        invariant
            1 <= i <= actions@.len(),
            t == prefix_time(actions@, i - 1),
            i64::MIN <= t <= i64::MAX,
            forall|k: int|
                1 <= k < i ==> i64::MIN <= #[trigger] prefix_time(actions@, k) <= i64::MAX,
        decreases actions@.len() - i,
    {
        proof {
            assert(prefix_time(actions@, i as int) == prefix_time(actions@, i - 1)
                + actions@[i as int].delta);
        }
        let next = t + actions[i].delta as i128;
        if next < i64::MIN as i128 || next > i64::MAX as i128 {
            proof {
                assert(!(i64::MIN <= prefix_time(actions@, i as int) <= i64::MAX));
            }
            return false;
        }
        t = next;
        i = i + 1;
    }
    true
}

/// Extracts the click sequence of a trace, in trace order.
///
/// The precondition only rules out machine overflow of the cumulative time;
/// it does not restrict the shape of the trace.
pub fn extract_clicks(actions: &Vec<ReplayAction>) -> (clicks: Vec<Click>)
    requires
        forall|i: int|
            1 <= i < actions@.len() ==> i64::MIN <= #[trigger] prefix_time(actions@, i)
                <= i64::MAX,
    ensures
        clicks@ == spec_clicks(actions@),
{
    let mut clicks: Vec<Click> = Vec::new();
    let n = actions.len();
    if n < 2 {
        return clicks;
    }
    let mut time: i64 = 0;
    let mut i: usize = 1;
    while i < n
        invariant
            n == actions@.len(),
            2 <= n,
            1 <= i <= n,
            forall|k: int|
                1 <= k < actions@.len() ==> i64::MIN <= #[trigger] prefix_time(actions@, k)
                    <= i64::MAX,
            time == prefix_time(actions@, i - 1),
            clicks@ == clicks_upto(actions@, i as int),
        decreases n - i,
    {
        let prev_buttons = actions[i - 1].buttons;
        let cur = actions[i];
        proof {
            assert(prefix_time(actions@, i as int) == prefix_time(actions@, i - 1)
                + actions@[i as int].delta);
        }
        time = time + cur.delta;
        if (!prev_buttons & cur.buttons & 3) != 0 {
            clicks.push(Click { time, x: cur.x, y: cur.y });
        }
        i = i + 1;
    }
    clicks
}

} // verus!
