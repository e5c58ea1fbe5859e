//! The ordered multiplexer: a state machine that consumes the
//! interleaved event streams of all workers and re-emits the progress
//! events in the global order given by the fixed priority order, while
//! preserving each worker's own order.
//!
//! The caller drives it one event at a time through
//! [`Multiplexer::on_event`]; each call returns the pairs that become
//! visible to the observer at that moment. Ghost state records the full
//! per-worker histories and the cumulative output, so the ordering laws
//! can be stated and proved over entire runs.

use vstd::prelude::*;

use crate::event::Event;
use crate::event::WorkerId;
use crate::event::contains_end;
use crate::event::ended;
use crate::event::lemma_contains_end_is_ended;
use crate::event::lemma_output_of_push;
use crate::event::lemma_output_of_tagged;
use crate::event::lemma_output_of_take_succ;
use crate::event::lemma_output_upto_congruence;
use crate::event::lemma_output_upto_sorted;
use crate::event::lemma_stream_ok_push;
use crate::event::output_of;
use crate::event::output_upto;
use crate::event::stream_ok;

verus! {

/// The multiplexer's state.
///
/// `focus` is the worker whose events pass straight through to the
/// observer; workers after it in the priority order have their events
/// buffered in `pending` until they gain focus. `focus == workers`
/// means the priority order is exhausted and the run is done.
///
/// `history` records, per worker, every event received so far, in
/// arrival order; `emitted` records every pair handed to the observer
/// so far. Both are ghost: the laws below are stated over them.
pub struct Multiplexer {
    pub workers: usize,
    pub focus: usize,
    pub pending: Vec<Vec<Event>>,
    pub finished: Vec<bool>,
    pub disconnected: bool,
    pub history: Ghost<Seq<Seq<Event>>>,
    pub emitted: Ghost<Seq<(usize, usize)>>,
}

impl Multiplexer {
    /// The run has emitted every worker's stream and terminated normally.
    pub open spec fn done(self) -> bool {
        self.focus == self.workers
    }

    /// How many workers' streams the output covers so far: all workers
    /// before the focus entirely, plus the focused worker's stream as
    /// far as it has arrived.
    pub open spec fn emit_bound(self) -> int {
        if self.focus < self.workers {
            self.focus + 1
        } else {
            self.workers as int
        }
    }

    /// Well-formedness: the invariant every reachable state satisfies.
    ///
    /// Workers before the focus have ended and are fully flushed; the
    /// focused worker has not ended; workers after the focus have all
    /// their events buffered; and the output so far is exactly the
    /// priority-ordered concatenation up to `emit_bound`.
    pub open spec fn wf(self) -> bool {
        &&& self.pending@.len() == self.workers
        &&& self.finished@.len() == self.workers
        &&& self.history@.len() == self.workers
        &&& self.focus <= self.workers
        &&& (forall|i: int| 0 <= i < self.workers ==> stream_ok(#[trigger] self.history@[i], i))
        &&& (forall|i: int|
            0 <= i < self.workers ==> self.finished@[i] == ended(#[trigger] self.history@[i]))
        &&& (forall|i: int| 0 <= i < self.focus ==> ended(#[trigger] self.history@[i]))
        &&& (self.focus < self.workers ==> !ended(self.history@[self.focus as int]))
        &&& (forall|i: int|
            0 <= i <= self.focus && i < self.workers ==> (#[trigger] self.pending@[i])@.len() == 0)
        &&& (forall|i: int|
            self.focus < i < self.workers ==> (#[trigger] self.pending@[i])@ == self.history@[i])
        &&& self.emitted@ == output_upto(self.history@, self.emit_bound())
    }

    /// Creates a multiplexer for `workers` streams. Focus starts at the
    /// head of the priority order; nothing is buffered or emitted yet.
    pub fn new(workers: usize) -> (m: Multiplexer)
        ensures
            m.wf(),
            m.workers == workers,
            m.focus == 0,
            !m.disconnected,
            m.history@ == Seq::new(workers as nat, |i: int| Seq::<Event>::empty()),
            m.emitted@ == Seq::<(usize, usize)>::empty(),
    {
        let mut pending: Vec<Vec<Event>> = Vec::new();
        let mut finished: Vec<bool> = Vec::new();
        let mut i: usize = 0;
        while i < workers
            invariant
                i <= workers,
                pending@.len() == i,
                finished@.len() == i,
                forall|k: int| 0 <= k < i ==> (#[trigger] pending@[k])@.len() == 0,
                forall|k: int| 0 <= k < i ==> finished@[k] == false,
            decreases workers - i,
        {
            pending.push(Vec::new());
            finished.push(false);
            i = i + 1;
        }
        let m = Multiplexer {
            workers,
            focus: 0,
            pending,
            finished,
            disconnected: false,
            history: Ghost(Seq::new(workers as nat, |i: int| Seq::empty())),
            emitted: Ghost(Seq::empty()),
        };
        proof {
            if workers > 0 {
                assert(output_upto(m.history@, 1) == output_upto(m.history@, 0)
                    + output_of(m.history@[0]));
                assert(m.emitted@ =~= output_upto(m.history@, m.emit_bound()));
            }
            assert forall|k: int| 0 < k < workers implies (#[trigger] m.pending@[k])@
                == m.history@[k] by {
                assert(m.pending@[k]@ =~= m.history@[k]);
            }
        }
        m
    }

    /// Whether the priority order is exhausted (normal termination).
    pub fn is_done(&self) -> (b: bool)
        ensures
            b == self.done(),
    {
        self.focus == self.workers
    }

    /// Whether the inbound stream was cut off before the run was done
    /// (abnormal termination, distinguishable from `is_done`).
    pub fn is_disconnected(&self) -> (b: bool)
        ensures
            b == self.disconnected,
    {
        self.disconnected
    }

    /// The number of workers in the priority order.
    pub fn worker_count(&self) -> (n: usize)
        ensures
            n == self.workers,
    {
        self.workers
    }

    /// Whether worker `w`'s end marker has been received. A caller must
    /// check this before handing over another event for `w`.
    pub fn has_finished(&self, w: WorkerId) -> (b: bool)
        requires
            self.wf(),
            w < self.workers,
        ensures
            b == ended(self.history@[w as int]),
    {
        self.finished[w]
    }

    /// Records that the inbound stream was cut off before the run was
    /// done. Buffered events stay unflushed and nothing more is emitted.
    pub fn on_disconnect(&mut self)
        requires
            old(self).wf(),
            !old(self).done(),
            !old(self).disconnected,
        ensures
            final(self).wf(),
            final(self).disconnected,
            final(self).workers == old(self).workers,
            final(self).focus == old(self).focus,
            final(self).history@ == old(self).history@,
            final(self).emitted@ == old(self).emitted@,
    {
        self.disconnected = true;
    }

    /// Consumes one inbound event and returns the pairs that become
    /// visible to the observer, in order.
    ///
    /// The full effect is pinned down by three clauses: the event is
    /// appended to its worker's history, the output grows by exactly
    /// `out`, and the state is well formed again — well-formedness
    /// determines the new focus (the first unfinished worker) and
    /// therewith the output.
    ///
    /// A progress event of the focused worker passes through at once,
    /// unbuffered; any event of a later worker is buffered and nothing
    /// is emitted; the focused worker's end marker flushes the buffers
    /// of the following workers until one is found that has not ended.
    pub fn on_event(&mut self, ev: Event) -> (out: Vec<(usize, usize)>)
        requires
            old(self).wf(),
            !old(self).done(),
            !old(self).disconnected,
            ev.worker() < old(self).workers,
            !ended(old(self).history@[ev.worker() as int]),
        ensures
            final(self).wf(),
            final(self).workers == old(self).workers,
            !final(self).disconnected,
            final(self).history@ == old(self).history@.update(
                ev.worker() as int,
                old(self).history@[ev.worker() as int].push(ev),
            ),
            final(self).emitted@ == old(self).emitted@ + out@,
            old(self).focus <= final(self).focus,
            (ev is Progress && ev.worker() == old(self).focus ==> final(self).focus == old(
                self,
            ).focus && out@ == seq![(ev.worker(), ev.seq_no())]),
            (ev.worker() != old(self).focus ==> final(self).focus == old(self).focus
                && out@.len() == 0),
    {
        let ghost old_hist = self.history@;
        let ghost w_int = ev.worker() as int;
        let ghost new_hist = old_hist.update(w_int, old_hist[w_int].push(ev));
        proof {
            lemma_stream_ok_push(old_hist[w_int], w_int, ev);
            // the event's worker cannot be before the focus: those have ended
            if ev.worker() < self.focus {
                assert(ended(old_hist[w_int]));
            }
        }
        let mut out: Vec<(usize, usize)> = Vec::new();
        match ev {
            Event::Progress(pw, x) => {
                self.history = Ghost(new_hist);
                if pw == self.focus {
                    out.push((pw, x));
                    proof {
                        lemma_output_upto_congruence(old_hist, new_hist, self.focus as int);
                        lemma_output_of_push(old_hist[w_int], ev);
                        assert(self.emitted@ + out@ =~= output_upto(new_hist, self.focus + 1));
                    }
                } else {
                    let mut row = self.pending.remove(pw);
                    row.push(ev);
                    self.pending.insert(pw, row);
                    proof {
                        assert(self.pending@ =~= old(self).pending@.update(
                            w_int,
                            self.pending@[w_int],
                        ));
                        lemma_output_upto_congruence(old_hist, new_hist, self.emit_bound());
                    }
                }
                self.emitted = Ghost(self.emitted@ + out@);
            }
            Event::End(ew) => {
                self.history = Ghost(new_hist);
                let _was = self.finished.remove(ew);
                self.finished.insert(ew, true);
                proof {
                    assert(self.finished@ =~= old(self).finished@.update(w_int, true));
                }
                if ew != self.focus {
                    let mut row = self.pending.remove(ew);
                    row.push(ev);
                    self.pending.insert(ew, row);
                    proof {
                        assert(self.pending@ =~= old(self).pending@.update(
                            w_int,
                            self.pending@[w_int],
                        ));
                        lemma_output_upto_congruence(old_hist, new_hist, self.emit_bound());
                    }
                    self.emitted = Ghost(self.emitted@ + out@);
                } else {
                    // advance: flush buffered streams until a worker is
                    // found that has not yet ended, or the order runs out
                    let ghost base_emit = old(self).emitted@;
                    proof {
                        lemma_output_upto_congruence(old_hist, new_hist, self.focus as int);
                        lemma_output_of_push(old_hist[w_int], ev);
                        assert(base_emit == output_upto(new_hist, self.focus + 1));
                    }
                    self.focus = self.focus + 1;
                    loop
                        invariant_except_break
                            forall|i: int|
                                0 <= i < self.focus ==> (#[trigger] self.pending@[i])@.len() == 0,
                            forall|i: int|
                                self.focus <= i < self.workers ==> (#[trigger] self.pending@[i])@
                                    == new_hist[i],
                            base_emit + out@ == output_upto(new_hist, self.focus as int),
                        invariant
                            self.workers == old(self).workers,
                            self.disconnected == old(self).disconnected,
                            self.history@ == new_hist,
                            new_hist.len() == self.workers,
                            self.finished@.len() == self.workers,
                            self.pending@.len() == self.workers,
                            old(self).focus < self.focus <= self.workers,
                            forall|i: int|
                                0 <= i < self.workers ==> stream_ok(#[trigger] new_hist[i], i),
                            forall|i: int|
                                0 <= i < self.workers ==> self.finished@[i] == ended(
                                    #[trigger] new_hist[i],
                                ),
                            forall|i: int| 0 <= i < self.focus ==> ended(#[trigger] new_hist[i]),
                        ensures
                            old(self).focus < self.focus <= self.workers,
                            self.focus < self.workers ==> !ended(new_hist[self.focus as int]),
                            forall|i: int|
                                0 <= i < self.workers && i <= self.focus ==> (
                                #[trigger] self.pending@[i])@.len() == 0,
                            forall|i: int|
                                self.focus < i < self.workers ==> (#[trigger] self.pending@[i])@
                                    == new_hist[i],
                            base_emit + out@ == output_upto(
                                new_hist,
                                if self.focus < self.workers {
                                    self.focus as int + 1
                                } else {
                                    self.workers as int
                                },
                            ),
                        decreases self.workers - self.focus,
                    {
                        if self.focus == self.workers {
                            break;
                        }
                        let cur = self.focus;
                        let mut row = self.pending.remove(cur);
                        self.pending.insert(cur, Vec::new());
                        proof {
                            assert(self.pending@[cur as int]@ =~= Seq::<Event>::empty());
                            assert(row@ == new_hist[cur as int]);
                        }
                        let ghost out_base = out@;
                        let mut k: usize = 0;
                        let mut saw_end = false;
                        while k < row.len()
                            invariant
                                k <= row@.len(),
                                out@ == out_base + output_of(row@.take(k as int)),
                                saw_end == contains_end(row@.take(k as int)),
                            decreases row@.len() - k,
                        {
                            let e = row[k];
                            match e {
                                Event::Progress(rw, rx) => {
                                    out.push((rw, rx));
                                }
                                Event::End(_) => {
                                    saw_end = true;
                                }
                            }
                            proof {
                                lemma_output_of_take_succ(row@, k as int);
                                assert(out@ =~= out_base + output_of(row@.take(k as int + 1)));
                                let t0 = row@.take(k as int);
                                let t1 = row@.take(k as int + 1);
                                if e is End {
                                    assert(t1[k as int] is End);
                                    assert(contains_end(t1));
                                } else if contains_end(t0) {
                                    let j = choose|j: int| 0 <= j < t0.len() && t0[j] is End;
                                    assert(t1[j] is End);
                                    assert(contains_end(t1));
                                } else {
                                    assert(!contains_end(t1)) by {
                                        if contains_end(t1) {
                                            let j = choose|j: int|
                                                0 <= j < t1.len() && t1[j] is End;
                                            if j < k {
                                                assert(t0[j] is End);
                                            } else {
                                                assert(t1[j] == row@[k as int]);
                                            }
                                        }
                                    }
                                }
                            }
                            k = k + 1;
                        }
                        proof {
                            assert(row@.take(row@.len() as int) =~= row@);
                            lemma_contains_end_is_ended(row@, cur as int);
                            assert(base_emit + out@ == output_upto(new_hist, cur as int)
                                + output_of(new_hist[cur as int]));
                            assert(output_upto(new_hist, cur + 1) == output_upto(
                                new_hist,
                                cur as int,
                            ) + output_of(new_hist[cur as int]));
                        }
                        if saw_end {
                            self.focus = cur + 1;
                        } else {
                            break;
                        }
                    }
                    self.emitted = Ghost(base_emit + out@);
                }
            }
        }
        out
    }
}

/// The predicate selecting the output pairs of worker `w`.
pub open spec fn from_worker(w: int) -> spec_fn((usize, usize)) -> bool {
    |e: (usize, usize)| e.0 as int == w
}

/// Law: global priority ordering. In any reachable state, the output
/// stream is sorted by priority: an entry of a higher-priority worker
/// never appears after an entry of a lower-priority one.
pub proof fn lemma_global_priority_order(m: Multiplexer, p: int, q: int)
    requires
        m.wf(),
        0 <= p <= q < m.emitted@.len(),
    ensures
        m.emitted@[p].0 <= m.emitted@[q].0,
{
    lemma_output_upto_sorted(m.history@, m.emit_bound());
}

/// Law: per-worker order preservation. In any reachable state, the
/// output entries of worker `w` are exactly that worker's progress
/// events in arrival order — in full for workers at or before the
/// focus, and none at all for workers still waiting for focus.
pub proof fn lemma_order_preservation(m: Multiplexer, w: int)
    requires
        m.wf(),
        0 <= w < m.workers,
    ensures
        m.emitted@.filter(from_worker(w)) == (if w < m.emit_bound() {
            output_of(m.history@[w])
        } else {
            Seq::<(usize, usize)>::empty()
        }),
{
    lemma_output_upto_filter(m.history@, m.emit_bound(), w);
}

/// Law: completeness. When the run is done, every worker has ended and
/// the output is exactly the concatenation, in priority order, of every
/// worker's progress events in arrival order — one output entry per
/// progress event sent, no duplicates, no omissions.
pub proof fn lemma_done_completeness(m: Multiplexer)
    requires
        m.wf(),
        m.done(),
    ensures
        m.emitted@ == output_upto(m.history@, m.workers as int),
        forall|w: int| 0 <= w < m.workers ==> ended(#[trigger] m.history@[w]),
        forall|w: int|
            0 <= w < m.workers ==> m.emitted@.filter(from_worker(w)) == output_of(
                #[trigger] m.history@[w],
            ),
{
    assert forall|w: int|
        0 <= w < m.workers implies m.emitted@.filter(from_worker(w)) == output_of(
        #[trigger] m.history@[w],
    ) by {
        lemma_order_preservation(m, w);
    }
}

/// Law: early-finisher absorption. The focus always stands on the first
/// worker in the priority order that has not ended; in particular, when
/// every worker before `w` has fully completed, `w` holds focus and its
/// events pass through live, never buffered (see `on_event`'s contract).
pub proof fn lemma_focus_least_unfinished(m: Multiplexer, w: int)
    requires
        m.wf(),
        0 <= w < m.workers,
        forall|i: int| 0 <= i < w ==> ended(#[trigger] m.history@[i]),
        !ended(m.history@[w]),
    ensures
        m.focus == w,
{
    if m.focus < w {
        assert(ended(m.history@[m.focus as int]));
    }
    if m.focus > w {
        assert(ended(m.history@[w]));
    }
}

/// Filtering the concatenated output down to one worker yields exactly
/// that worker's own output when it is below the bound, and nothing
/// otherwise.
proof fn lemma_output_upto_filter(hs: Seq<Seq<Event>>, k: int, w: int)
    requires
        0 <= k <= hs.len(),
        0 <= w,
        forall|i: int| 0 <= i < hs.len() ==> stream_ok(#[trigger] hs[i], i),
    ensures
        output_upto(hs, k).filter(from_worker(w)) == (if w < k {
            output_of(hs[w])
        } else {
            Seq::<(usize, usize)>::empty()
        }),
    decreases k,
{
    let pred = from_worker(w);
    if k == 0 {
        assert(output_upto(hs, 0).filter(pred) =~= Seq::<(usize, usize)>::empty());
    } else {
        lemma_output_upto_filter(hs, k - 1, w);
        lemma_output_of_tagged(hs[k - 1], k - 1);
        let prev = output_upto(hs, k - 1);
        let cur = output_of(hs[k - 1]);
        assert(output_upto(hs, k) == prev + cur);
        Seq::filter_distributes_over_add(prev, cur, pred);
        if w == k - 1 {
            lemma_filter_all(cur, pred);
            assert(prev.filter(pred) =~= Seq::<(usize, usize)>::empty());
            assert((prev + cur).filter(pred) =~= cur);
        } else {
            lemma_filter_none(cur, pred);
            assert((prev + cur).filter(pred) =~= prev.filter(pred));
        }
    }
}

/// Filtering keeps a sequence whole when every element satisfies the
/// predicate.
proof fn lemma_filter_all(s: Seq<(usize, usize)>, pred: spec_fn((usize, usize)) -> bool)
    requires
        forall|j: int| 0 <= j < s.len() ==> pred(#[trigger] s[j]),
    ensures
        s.filter(pred) == s,
    decreases s.len(),
{
    reveal(Seq::filter);
    if s.len() > 0 {
        lemma_filter_all(s.drop_last(), pred);
        assert(s.drop_last().push(s.last()) =~= s);
    }
}

/// Filtering empties a sequence when no element satisfies the predicate.
proof fn lemma_filter_none(s: Seq<(usize, usize)>, pred: spec_fn((usize, usize)) -> bool)
    requires
        forall|j: int| 0 <= j < s.len() ==> !pred(#[trigger] s[j]),
    ensures
        s.filter(pred) == Seq::<(usize, usize)>::empty(),
    decreases s.len(),
{
    reveal(Seq::filter);
    if s.len() > 0 {
        lemma_filter_none(s.drop_last(), pred);
    }
}

} // verus!
