use beatmap_tools::align::ChartEvent;
use beatmap_tools::align::align_events;
use beatmap_tools::align::clicks_are_sorted;
use beatmap_tools::clicks::Click;
use beatmap_tools::clicks::ReplayAction;
use beatmap_tools::clicks::extract_clicks;
use beatmap_tools::clicks::trace_times_fit;

fn action(delta: i64, buttons: u32, x: i32, y: i32) -> ReplayAction {
    ReplayAction { delta, buttons, x, y }
}

fn event(time: i64, x: i32, y: i32) -> ChartEvent {
    ChartEvent { time, x, y }
}

fn click(time: i64, x: i32, y: i32) -> Click {
    Click { time, x, y }
}

#[test]
fn extraction_single_rising_edge() {
    // Masks [1, 1, 1, 3]: the only rising edge is at index 3 (mask 1 -> 3
    // sets bit 1), at cumulative time 10 + 5 + 20 = 35; the button already
    // held at index 0 never counts.
    let actions = vec![
        action(0, 1, 100, 100),
        action(10, 1, 110, 110),
        action(5, 1, 120, 120),
        action(20, 3, 130, 130),
    ];
    let clicks = extract_clicks(&actions);
    assert_eq!(clicks.len(), 1);
    assert_eq!(clicks[0], click(35, 130, 130));
}

#[test]
fn extraction_counts_every_rising_edge() {
    // Deltas [0, 10, 5, 20] and masks [0, 1, 1, 3] hold two rising edges:
    // bit 0 rises at index 1 (time 10) and bit 1 rises at index 3 (time
    // 10 + 5 + 20 = 35).
    let actions = vec![
        action(0, 0, 100, 100),
        action(10, 1, 110, 110),
        action(5, 1, 120, 120),
        action(20, 3, 130, 130),
    ];
    let clicks = extract_clicks(&actions);
    assert_eq!(clicks.len(), 2);
    assert_eq!(clicks[0], click(10, 110, 110));
    assert_eq!(clicks[1], click(35, 130, 130));
}

#[test]
fn extraction_first_action_never_clicks() {
    // A held button in the very first frame is no rising edge.
    let actions = vec![action(0, 3, 0, 0), action(7, 3, 1, 1)];
    let clicks = extract_clicks(&actions);
    assert_eq!(clicks.len(), 0);
}

#[test]
fn extraction_release_then_press() {
    let actions = vec![action(0, 3, 0, 0), action(4, 0, 1, 1), action(6, 1, 2, 2)];
    let clicks = extract_clicks(&actions);
    assert_eq!(clicks.len(), 1);
    assert_eq!(clicks[0], click(10, 2, 2));
}

#[test]
fn extraction_high_bits_ignored() {
    // Only the low two bits of the mask count as primary actions.
    let actions = vec![action(0, 0, 0, 0), action(9, 4, 1, 1)];
    let clicks = extract_clicks(&actions);
    assert_eq!(clicks.len(), 0);
}

#[test]
fn extraction_short_trace_is_empty() {
    let none: Vec<ReplayAction> = Vec::new();
    assert_eq!(extract_clicks(&none).len(), 0);
    let one = vec![action(0, 3, 0, 0)];
    assert_eq!(extract_clicks(&one).len(), 0);
}

#[test]
fn trace_overflow_is_detected() {
    let fine = vec![action(0, 0, 0, 0), action(10, 1, 0, 0)];
    assert!(trace_times_fit(&fine));
    let over = vec![action(0, 0, 0, 0), action(i64::MAX, 0, 0, 0), action(1, 1, 0, 0)];
    assert!(!trace_times_fit(&over));
}

#[test]
fn click_pool_order_is_checked() {
    let ascending = vec![click(1, 0, 0), click(1, 0, 0), click(5, 0, 0)];
    assert!(clicks_are_sorted(&ascending));
    let descending = vec![click(5, 0, 0), click(1, 0, 0)];
    assert!(!clicks_are_sorted(&descending));
}

#[test]
fn alignment_prefers_strictly_closer_predecessor() {
    // Event at nominal time 100 against remaining clicks [90, 115]:
    // distances 10 vs 15, so it snaps to the click at 90, and the click at
    // 90 leaves the pool.
    let mut events = vec![event(100, 0, 0), event(114, 0, 0)];
    let clicks = vec![click(90, 7, 8), click(115, 9, 10)];
    align_events(&mut events, &clicks);
    assert_eq!(events[0], event(90, 7, 8));
    // The pool became [115]: the next event aligns against it.
    assert_eq!(events[1], event(115, 9, 10));
}

#[test]
fn alignment_tie_goes_to_later_click() {
    // Distances 10 vs 10: not strictly closer, so the later click wins.
    let mut events = vec![event(100, 0, 0)];
    let clicks = vec![click(90, 1, 1), click(110, 2, 2)];
    align_events(&mut events, &clicks);
    assert_eq!(events[0], event(110, 2, 2));
}

#[test]
fn alignment_exhaustion_stops_processing() {
    // Every click is before the first event's time: the search index equals
    // the pool length and every event stays byte-identical.
    let mut events = vec![event(200, 3, 4), event(50, 5, 6)];
    let clicks = vec![click(90, 1, 1)];
    align_events(&mut events, &clicks);
    assert_eq!(events[0], event(200, 3, 4));
    assert_eq!(events[1], event(50, 5, 6));
}

#[test]
fn alignment_exhaustion_mid_run_keeps_tail() {
    // The first event consumes the whole pool; the second is left alone.
    let mut events = vec![event(80, 0, 0), event(300, 5, 6)];
    let clicks = vec![click(90, 1, 2)];
    align_events(&mut events, &clicks);
    assert_eq!(events[0], event(90, 1, 2));
    assert_eq!(events[1], event(300, 5, 6));
}

#[test]
fn alignment_skipped_clicks_are_discarded() {
    // The first event's search lands on the click at 180, but the one at 99
    // is strictly closer and wins; the skipped clicks at 10 and 20 are
    // discarded with it, never to be revisited.
    let mut events = vec![event(100, 0, 0), event(10, 0, 0)];
    let clicks = vec![click(10, 1, 1), click(20, 2, 2), click(99, 3, 3), click(180, 4, 4)];
    align_events(&mut events, &clicks);
    assert_eq!(events[0], event(99, 3, 3));
    // Only the click at 180 remains, so the second event snaps to it even
    // though a click at its exact time once existed.
    assert_eq!(events[1], event(180, 4, 4));
}

#[test]
fn extraction_feeds_alignment_end_to_end() {
    // A monotone trace: two clicks at 10 and 45, then two events snapped to
    // them in one pass.
    let actions = vec![
        action(0, 0, 0, 0),
        action(10, 1, 50, 60),
        action(30, 0, 0, 0),
        action(5, 2, 70, 80),
    ];
    let clicks = extract_clicks(&actions);
    assert_eq!(clicks.len(), 2);
    assert!(clicks_are_sorted(&clicks));
    let mut events = vec![event(12, 0, 0), event(44, 0, 0)];
    align_events(&mut events, &clicks);
    assert_eq!(events[0], event(10, 50, 60));
    assert_eq!(events[1], event(45, 70, 80));
}

#[test]
fn alignment_empty_pool_changes_nothing() {
    let mut events = vec![event(1, 2, 3)];
    let clicks: Vec<Click> = Vec::new();
    align_events(&mut events, &clicks);
    assert_eq!(events[0], event(1, 2, 3));
}
