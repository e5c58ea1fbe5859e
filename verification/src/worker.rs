//! The stream a single worker sends: numbered progress events in
//! strictly increasing order starting at 0, then exactly one end marker.

use vstd::prelude::*;

use crate::event::Event;
use crate::event::WorkerId;
use crate::event::ended;
use crate::event::stream_ok;

verus! {

/// The stream worker `w` sends when its workload has `count` progress
/// events: the sequence numbers `0, …, count - 1` in order, then the
/// end marker.
pub open spec fn worker_stream(w: WorkerId, count: usize) -> Seq<Event> {
    Seq::new(
        count as nat + 1,
        |i: int| if i < count { Event::Progress(w, i as usize) } else { Event::End(w) },
    )
}

/// Builds the full event stream of worker `w` with `count` progress
/// events: `Progress(w, 0), …, Progress(w, count - 1), End(w)`.
pub fn worker_events(w: WorkerId, count: usize) -> (evs: Vec<Event>)
    requires
        count < usize::MAX,
    ensures
        evs@ == worker_stream(w, count),
        evs@.len() == count + 1,
        stream_ok(evs@, w as int),
        ended(evs@),
{
    let mut evs: Vec<Event> = Vec::new();
    let mut i: usize = 0;
    while i < count
        invariant
            i <= count,
            count < usize::MAX,
            evs@.len() == i,
            forall|k: int| 0 <= k < i ==> evs@[k] == Event::Progress(w, k as usize),
        decreases count - i,
    {
        evs.push(Event::Progress(w, i));
        i = i + 1;
    }
    evs.push(Event::End(w));
    proof {
        assert(evs@ =~= worker_stream(w, count));
    }
    evs
}

} // verus!
