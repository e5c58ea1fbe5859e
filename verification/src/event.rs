//! Events sent from workers to the multiplexer, and the mathematical
//! model of worker streams and of the globally ordered output.

use vstd::prelude::*;

verus! {

/// Identifies a worker by its position in the fixed priority order:
/// index 0 is emitted first in the global output stream.
pub type WorkerId = usize;

/// One message from a worker: a numbered progress report, or the
/// end-of-stream marker that each worker sends exactly once, last.
#[derive(Clone, Copy, PartialEq, Eq, Structural, Debug)]
pub enum Event {
    Progress(WorkerId, usize),
    End(WorkerId),
}

impl Event {
    /// The worker this event originates from.
    pub open spec fn worker(self) -> WorkerId {
        match self {
            Event::Progress(w, _) => w,
            Event::End(w) => w,
        }
    }

    /// The sequence number of a progress event; end markers carry none.
    pub open spec fn seq_no(self) -> usize {
        match self {
            Event::Progress(_, x) => x,
            Event::End(_) => 0,
        }
    }

    /// Executable accessor for the originating worker.
    pub fn worker_id(&self) -> (w: WorkerId)
        ensures
            w == self.worker(),
    {
        match self {
            Event::Progress(w, _) => *w,
            Event::End(w) => *w,
        }
    }
}

/// A stream from worker `w` is well tagged when every event names `w`
/// and an end marker can only stand last.
pub open spec fn stream_ok(h: Seq<Event>, w: int) -> bool {
    forall|k: int|
        0 <= k < h.len() ==> (#[trigger] h[k]).worker() == w && (h[k] is End ==> k == h.len() - 1)
}

/// The stream has received its end marker.
pub open spec fn ended(h: Seq<Event>) -> bool {
    h.len() > 0 && h.last() is End
}

/// Some end marker occurs somewhere in the stream.
pub open spec fn contains_end(h: Seq<Event>) -> bool {
    exists|k: int| 0 <= k < h.len() && h[k] is End
}

/// The observer-visible part of one stream: its progress events, in
/// order, each as a `(worker, sequence number)` pair; end markers
/// produce no output.
pub open spec fn output_of(h: Seq<Event>) -> Seq<(usize, usize)>
    decreases h.len(),
{
    if h.len() == 0 {
        Seq::empty()
    } else {
        match h.last() {
            Event::Progress(w, x) => output_of(h.drop_last()).push((w, x)),
            Event::End(_) => output_of(h.drop_last()),
        }
    }
}

/// The globally ordered output of the first `k` workers' streams,
/// concatenated in priority order.
pub open spec fn output_upto(hs: Seq<Seq<Event>>, k: int) -> Seq<(usize, usize)>
    decreases k,
{
    if k <= 0 {
        Seq::empty()
    } else {
        output_upto(hs, k - 1) + output_of(hs[k - 1])
    }
}

/// Appending one event extends the output by the event's pair when it is
/// a progress event and leaves the output unchanged when it is an end
/// marker.
pub proof fn lemma_output_of_push(h: Seq<Event>, e: Event)
    ensures
        output_of(h.push(e)) == (match e {
            Event::Progress(w, x) => output_of(h).push((w, x)),
            Event::End(_) => output_of(h),
        }),
{
    assert(h.push(e).drop_last() =~= h);
    assert(h.push(e).last() == e);
}

/// Unfolds the output of a prefix by one event.
pub proof fn lemma_output_of_take_succ(h: Seq<Event>, k: int)
    requires
        0 <= k < h.len(),
    ensures
        output_of(h.take(k + 1)) == (match h[k] {
            Event::Progress(w, x) => output_of(h.take(k)).push((w, x)),
            Event::End(_) => output_of(h.take(k)),
        }),
{
    assert(h.take(k + 1).drop_last() =~= h.take(k));
    assert(h.take(k + 1).last() == h[k]);
}

/// Every output pair of a well-tagged stream names that stream's worker.
pub proof fn lemma_output_of_tagged(h: Seq<Event>, w: int)
    requires
        stream_ok(h, w),
    ensures
        forall|j: int| 0 <= j < output_of(h).len() ==> (#[trigger] output_of(h)[j]).0 == w,
    decreases h.len(),
{
    if h.len() > 0 {
        assert(stream_ok(h.drop_last(), w)) by {
            assert(forall|k: int|
                0 <= k < h.drop_last().len() ==> h.drop_last()[k] == h[k]);
        }
        lemma_output_of_tagged(h.drop_last(), w);
        let rest = output_of(h.drop_last());
        assert(h[h.len() - 1].worker() == w);
        match h.last() {
            Event::Progress(pw, x) => {
                assert(output_of(h) == rest.push((pw, x)));
                assert(forall|j: int|
                    0 <= j < output_of(h).len() ==> (#[trigger] output_of(h)[j]).0 == w) by {
                    assert(forall|j: int| 0 <= j < rest.len() ==> rest.push((pw, x))[j] == rest[j]);
                    assert(rest.push((pw, x))[rest.len() as int] == (pw, x));
                }
            }
            Event::End(_) => {
                assert(output_of(h) == rest);
            }
        }
    }
}

/// An event pushed on a stream that has not ended keeps the stream well
/// tagged, and the stream has then ended exactly when the event is an
/// end marker.
pub proof fn lemma_stream_ok_push(h: Seq<Event>, w: int, e: Event)
    requires
        stream_ok(h, w),
        !ended(h),
        e.worker() == w,
    ensures
        stream_ok(h.push(e), w),
        ended(h.push(e)) == (e is End),
        !contains_end(h),
{
    assert(forall|k: int| 0 <= k < h.len() ==> !((#[trigger] h[k]) is End)) by {
        assert(forall|k: int|
            0 <= k < h.len() && (#[trigger] h[k]) is End ==> k == h.len() - 1 && h.last() is End);
    }
    assert(forall|k: int| 0 <= k < h.push(e).len() ==> #[trigger] h.push(e)[k]
        == (if k < h.len() { h[k] } else { e }));
}

/// In a well-tagged stream, holding an end marker anywhere is the same
/// as having ended.
pub proof fn lemma_contains_end_is_ended(h: Seq<Event>, w: int)
    requires
        stream_ok(h, w),
    ensures
        contains_end(h) == ended(h),
{
    if ended(h) {
        assert(h[h.len() - 1] is End);
    }
}

/// The ordered output of the first `k` workers depends only on those
/// `k` streams.
pub proof fn lemma_output_upto_congruence(hs1: Seq<Seq<Event>>, hs2: Seq<Seq<Event>>, k: int)
    requires
        forall|i: int| 0 <= i < k ==> hs1[i] == hs2[i],
    ensures
        output_upto(hs1, k) == output_upto(hs2, k),
    decreases k,
{
    if k > 0 {
        lemma_output_upto_congruence(hs1, hs2, k - 1);
    }
}

/// In the concatenated output of well-tagged streams, every pair names a
/// worker below the bound, and the pairs are sorted by worker.
pub proof fn lemma_output_upto_sorted(hs: Seq<Seq<Event>>, k: int)
    requires
        0 <= k <= hs.len(),
        forall|i: int| 0 <= i < hs.len() ==> stream_ok(#[trigger] hs[i], i),
    ensures
        forall|j: int|
            0 <= j < output_upto(hs, k).len() ==> (#[trigger] output_upto(hs, k)[j]).0 < k,
        forall|p: int, q: int|
            0 <= p <= q < output_upto(hs, k).len()
                ==> (#[trigger] output_upto(hs, k)[p]).0 <= (#[trigger] output_upto(hs, k)[q]).0,
    decreases k,
{
    if k > 0 {
        lemma_output_upto_sorted(hs, k - 1);
        lemma_output_of_tagged(hs[k - 1], k - 1);
        let prev = output_upto(hs, k - 1);
        let cur = output_of(hs[k - 1]);
        assert(output_upto(hs, k) == prev + cur);
        assert forall|j: int| 0 <= j < (prev + cur).len() implies ((prev + cur)[j]).0 < k by {
            if j < prev.len() {
                assert((prev + cur)[j] == prev[j]);
            } else {
                assert((prev + cur)[j] == cur[j - prev.len()]);
            }
        }
        assert forall|p: int, q: int| 0 <= p <= q < (prev + cur).len()
            implies ((prev + cur)[p]).0 <= ((prev + cur)[q]).0 by {
            if q < prev.len() {
                assert((prev + cur)[p] == prev[p]);
                assert((prev + cur)[q] == prev[q]);
            } else if p < prev.len() {
                assert((prev + cur)[p] == prev[p]);
                assert((prev + cur)[q] == cur[q - prev.len()]);
                assert((prev[p]).0 < k - 1 + 1);
                assert((cur[q - prev.len()]).0 == k - 1);
            } else {
                assert((prev + cur)[p] == cur[p - prev.len()]);
                assert((prev + cur)[q] == cur[q - prev.len()]);
            }
        }
    }
}

} // verus!
