use priomux::event::Event;
use priomux::mux::Multiplexer;
use priomux::worker::worker_events;

fn feed(m: &mut Multiplexer, evs: &[Event]) -> Vec<(usize, usize)> {
    let mut all: Vec<(usize, usize)> = Vec::new();
    for ev in evs {
        assert!(!m.is_done());
        assert!(!m.is_disconnected());
        let w = ev.worker_id();
        assert!(w < m.worker_count());
        assert!(!m.has_finished(w));
        let out = m.on_event(*ev);
        for p in out {
            all.push(p);
        }
    }
    all
}

#[test]
fn empty_priority_order_is_done_at_once() {
    let m = Multiplexer::new(0);
    assert!(m.is_done());
    assert!(!m.is_disconnected());
}

#[test]
fn focused_worker_passes_through_live() {
    let mut m = Multiplexer::new(1);
    let out = m.on_event(Event::Progress(0, 0));
    assert_eq!(out, vec![(0, 0)]);
    let out = m.on_event(Event::Progress(0, 1));
    assert_eq!(out, vec![(0, 1)]);
    assert!(!m.is_done());
    let out = m.on_event(Event::End(0));
    assert_eq!(out, vec![]);
    assert!(m.is_done());
}

#[test]
fn later_worker_is_buffered_until_focus() {
    let mut m = Multiplexer::new(2);
    // the lower-priority worker finishes all its sends first
    assert_eq!(m.on_event(Event::Progress(1, 0)), vec![]);
    assert_eq!(m.on_event(Event::Progress(1, 1)), vec![]);
    assert_eq!(m.on_event(Event::End(1)), vec![]);
    assert!(m.has_finished(1));
    assert!(!m.has_finished(0));
    // the head worker's events still come out first
    assert_eq!(m.on_event(Event::Progress(0, 0)), vec![(0, 0)]);
    assert_eq!(m.on_event(Event::Progress(0, 1)), vec![(0, 1)]);
    assert_eq!(m.on_event(Event::Progress(0, 2)), vec![(0, 2)]);
    // the head's end marker flushes the finished worker and ends the run
    assert_eq!(m.on_event(Event::End(0)), vec![(1, 0), (1, 1)]);
    assert!(m.is_done());
}

#[test]
fn two_workers_full_run_output() {
    // priority order [A(3 events), B(2 events)]; B's data all arrives first
    let mut m = Multiplexer::new(2);
    let out = feed(
        &mut m,
        &[
            Event::Progress(1, 0),
            Event::Progress(1, 1),
            Event::End(1),
            Event::Progress(0, 0),
            Event::Progress(0, 1),
            Event::Progress(0, 2),
            Event::End(0),
        ],
    );
    assert_eq!(out, vec![(0, 0), (0, 1), (0, 2), (1, 0), (1, 1)]);
    assert!(m.is_done());
}

#[test]
fn early_finishers_hand_focus_on_without_rebuffering() {
    let mut m = Multiplexer::new(3);
    // worker 0 completes before worker 1 sends anything
    assert_eq!(m.on_event(Event::Progress(0, 0)), vec![(0, 0)]);
    assert_eq!(m.on_event(Event::End(0)), vec![]);
    // a still-later worker's event is buffered
    assert_eq!(m.on_event(Event::Progress(2, 0)), vec![]);
    // worker 1 now holds focus: its first event is emitted at once
    assert_eq!(m.on_event(Event::Progress(1, 0)), vec![(1, 0)]);
    // its end marker flushes worker 2's buffer and moves focus there
    assert_eq!(m.on_event(Event::End(1)), vec![(2, 0)]);
    assert_eq!(m.on_event(Event::Progress(2, 1)), vec![(2, 1)]);
    assert_eq!(m.on_event(Event::End(2)), vec![]);
    assert!(m.is_done());
}

#[test]
fn fully_finished_workers_are_absorbed_in_one_step() {
    let mut m = Multiplexer::new(3);
    // workers 1 and 2 finish entirely while worker 0 still runs
    assert_eq!(m.on_event(Event::Progress(1, 0)), vec![]);
    assert_eq!(m.on_event(Event::End(1)), vec![]);
    assert_eq!(m.on_event(Event::Progress(2, 0)), vec![]);
    assert_eq!(m.on_event(Event::Progress(2, 1)), vec![]);
    assert_eq!(m.on_event(Event::End(2)), vec![]);
    assert_eq!(m.on_event(Event::Progress(0, 0)), vec![(0, 0)]);
    // one end marker drains everything and finishes the run
    assert_eq!(m.on_event(Event::End(0)), vec![(1, 0), (2, 0), (2, 1)]);
    assert!(m.is_done());
}

#[test]
fn interleaved_arrival_keeps_per_worker_and_global_order() {
    let mut m = Multiplexer::new(3);
    let out = feed(
        &mut m,
        &[
            Event::Progress(2, 0),
            Event::Progress(0, 0),
            Event::Progress(1, 0),
            Event::Progress(2, 1),
            Event::Progress(0, 1),
            Event::End(2),
            Event::Progress(1, 1),
            Event::End(0),
            Event::Progress(1, 2),
            Event::End(1),
        ],
    );
    assert_eq!(
        out,
        vec![(0, 0), (0, 1), (1, 0), (1, 1), (1, 2), (2, 0), (2, 1)]
    );
    assert!(m.is_done());
    // global order: entries sorted by worker; per worker: sequence order kept
    for i in 1..out.len() {
        assert!(out[i - 1].0 <= out[i].0);
        if out[i - 1].0 == out[i].0 {
            assert!(out[i - 1].1 < out[i].1);
        }
    }
}

#[test]
fn scrambled_worker_streams_come_out_complete_and_ordered() {
    // four workers with different workloads; their streams arrive
    // round-robin, one event from each in turn
    let n: usize = 4;
    let mut streams: Vec<Vec<Event>> = (0..n).map(|w| worker_events(w, w + 1)).collect();
    let mut arrivals: Vec<Event> = Vec::new();
    while streams.iter().any(|s| !s.is_empty()) {
        for s in streams.iter_mut() {
            if !s.is_empty() {
                arrivals.push(s.remove(0));
            }
        }
    }
    let mut m = Multiplexer::new(n);
    let out = feed(&mut m, &arrivals);
    assert!(m.is_done());
    // exactly one entry per progress event sent, in priority order
    let mut expected: Vec<(usize, usize)> = Vec::new();
    for w in 0..n {
        for x in 0..w + 1 {
            expected.push((w, x));
        }
    }
    assert_eq!(out, expected);
}

#[test]
fn disconnect_midway_is_abnormal_not_done() {
    let mut m = Multiplexer::new(4);
    // half the priority order is exhausted, then the channel dies
    assert_eq!(m.on_event(Event::Progress(0, 0)), vec![(0, 0)]);
    assert_eq!(m.on_event(Event::End(0)), vec![]);
    assert_eq!(m.on_event(Event::Progress(1, 0)), vec![(1, 0)]);
    assert_eq!(m.on_event(Event::End(1)), vec![]);
    assert_eq!(m.on_event(Event::Progress(3, 0)), vec![]);
    assert!(!m.is_done());
    m.on_disconnect();
    assert!(m.is_disconnected());
    assert!(!m.is_done());
}
