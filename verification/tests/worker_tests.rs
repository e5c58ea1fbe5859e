use priomux::event::Event;
use priomux::worker::worker_events;

#[test]
fn worker_stream_counts_up_then_ends() {
    let evs = worker_events(3, 4);
    assert_eq!(
        evs,
        vec![
            Event::Progress(3, 0),
            Event::Progress(3, 1),
            Event::Progress(3, 2),
            Event::Progress(3, 3),
            Event::End(3),
        ]
    );
}

#[test]
fn worker_stream_with_no_progress_is_just_the_end_marker() {
    let evs = worker_events(0, 0);
    assert_eq!(evs, vec![Event::End(0)]);
}

#[test]
fn worker_stream_events_name_their_worker() {
    let evs = worker_events(7, 5);
    for ev in &evs {
        assert_eq!(ev.worker_id(), 7);
    }
    assert_eq!(evs.len(), 6);
}
