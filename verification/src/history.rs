//! The metric history table: one bounded FIFO buffer per tracked metric.
//!
//! Every buffer shares one capacity, fixed at construction. A push appends
//! at the back; once a buffer is full, the single oldest entry leaves
//! first. Buffers are independent: a push touches exactly one of them.

use std::collections::VecDeque;
use vstd::prelude::*;

verus! {

/// One FIFO step: append `v`, evicting the oldest entry when `s` is
/// already at capacity.
pub open spec fn evict_push(s: Seq<i64>, v: i64, cap: int) -> Seq<i64> {
    if s.len() >= cap {
        s.drop_first().push(v)
    } else {
        s.push(v)
    }
}

/// The window a bounded FIFO retains of `pushes`: the most recent `cap`
/// of them (all of them while fewer have arrived).
pub open spec fn recent_window(pushes: Seq<i64>, cap: int) -> Seq<i64> {
    if pushes.len() <= cap {
        pushes
    } else {
        pushes.skip(pushes.len() - cap)
    }
}

/// The FIFO law: a buffer that holds the most recent pushes still does
/// after one more `evict_push`, and it never exceeds the capacity.
pub proof fn lemma_fifo_window(buf: Seq<i64>, pushes: Seq<i64>, v: i64, cap: int)
    requires
        cap >= 1,
        buf == recent_window(pushes, cap),
    ensures
        evict_push(buf, v, cap) == recent_window(pushes.push(v), cap),
        evict_push(buf, v, cap).len() <= cap,
        recent_window(pushes, cap).len() <= cap || pushes.len() <= cap,
{
    if pushes.len() < cap {
        assert(evict_push(buf, v, cap) =~= recent_window(pushes.push(v), cap));
    } else if pushes.len() == cap {
        assert(evict_push(buf, v, cap) =~= pushes.skip(1).push(v));
        assert(recent_window(pushes.push(v), cap) =~= pushes.skip(1).push(v));
    } else {
        assert(buf.len() == cap);
        assert(evict_push(buf, v, cap) =~= pushes.push(v).skip(pushes.len() + 1 - cap));
    }
}

/// The buffer contents after a whole sequence of pushes into an
/// initially empty buffer.
pub open spec fn history_after(pushes: Seq<i64>, cap: int) -> Seq<i64>
    decreases pushes.len(),
{
    if pushes.len() == 0 {
        Seq::<i64>::empty()
    } else {
        evict_push(history_after(pushes.drop_last(), cap), pushes.last(), cap)
    }
}

/// The FIFO law over any number of pushes: a buffer fed every push in
/// order holds exactly the most recent `cap` of them — each push past
/// capacity evicts the single oldest entry — so it never exceeds its
/// configured capacity.
pub proof fn lemma_fifo_law(pushes: Seq<i64>, cap: int)
    requires
        cap >= 1,
    ensures
        history_after(pushes, cap) == recent_window(pushes, cap),
        history_after(pushes, cap).len() <= cap,
    decreases pushes.len(),
{
    if pushes.len() > 0 {
        lemma_fifo_law(pushes.drop_last(), cap);
        lemma_fifo_window(
            history_after(pushes.drop_last(), cap),
            pushes.drop_last(),
            pushes.last(),
            cap,
        );
        assert(pushes.drop_last().push(pushes.last()) =~= pushes);
    }
}

/// The history table: `metric_count()` independent buffers of capacity
/// `capacity()`, each holding its metric's most recent values in arrival
/// order, oldest first.
pub struct HistoryTable {
    cap: usize,
    bufs: Vec<VecDeque<i64>>,
}

impl HistoryTable {
    /// The shared capacity of every buffer.
    pub closed spec fn capacity(self) -> int {
        self.cap as int
    }

    /// How many metrics are tracked.
    pub closed spec fn metric_count(self) -> int {
        self.bufs@.len() as int
    }

    /// The contents of metric `i`'s buffer, oldest first.
    pub closed spec fn buf(self, i: int) -> Seq<i64> {
        self.bufs@[i]@
    }

    /// Every buffer stays within the shared capacity.
    pub open spec fn wf(self) -> bool {
        &&& self.capacity() >= 1
        &&& forall|i: int| 0 <= i < self.metric_count() ==> self.buf(i).len() <= self.capacity()
    }

    /// Builds a table of `n` empty buffers of capacity `cap`.
    pub fn new(n: usize, cap: usize) -> (r: Self)
        requires
            cap >= 1,
        ensures
            r.wf(),
            r.metric_count() == n as int,
            r.capacity() == cap as int,
            forall|i: int| 0 <= i < n as int ==> r.buf(i) == Seq::<i64>::empty(),
    {
        let mut bufs: Vec<VecDeque<i64>> = Vec::new();
        let mut k: usize = 0;
        while k < n
            invariant
                k <= n,
                bufs@.len() == k as int,
                forall|i: int| 0 <= i < k as int ==> bufs@[i]@ == Seq::<i64>::empty(),
            decreases n - k,
        {
            bufs.push(VecDeque::new());
            k += 1;
        }
        HistoryTable { cap, bufs }
    }

    /// Appends `v` to metric `idx`'s buffer, evicting that buffer's
    /// oldest entry first when it is full. No other buffer changes.
    pub fn push(&mut self, idx: usize, v: i64)
        requires
            old(self).wf(),
            (idx as int) < old(self).metric_count(),
        ensures
            final(self).wf(),
            final(self).metric_count() == old(self).metric_count(),
            final(self).capacity() == old(self).capacity(),
            final(self).buf(idx as int) == evict_push(
                old(self).buf(idx as int),
                v,
                old(self).capacity(),
            ),
            forall|i: int|
                0 <= i < old(self).metric_count() && i != idx as int ==> final(self).buf(i)
                    == old(self).buf(i),
    {
        let buf = &mut self.bufs[idx];
        if buf.len() >= self.cap {
            buf.pop_front();
        }
        buf.push_back(v);
        proof {
            assert(old(self).buf(idx as int).len() <= old(self).capacity());
            assert(self.buf(idx as int) == evict_push(
                old(self).buf(idx as int),
                v,
                old(self).capacity(),
            ));
            assert(self.buf(idx as int).len() <= self.capacity());
            assert(forall|i: int|
                0 <= i < self.metric_count() && i != idx as int ==> self.buf(i) == old(
                    self,
                ).buf(i));
        }
    }

    /// Copies out metric `idx`'s current contents, oldest first.
    pub fn snapshot(&self, idx: usize) -> (r: Vec<i64>)
        requires
            (idx as int) < self.metric_count(),
        ensures
            r@ == self.buf(idx as int),
    {
        let buf = &self.bufs[idx];
        let mut out: Vec<i64> = Vec::new();
        let mut k: usize = 0;
        while k < buf.len()
            invariant
                k <= buf@.len(),
                buf@ == self.buf(idx as int),
                out@ == self.buf(idx as int).take(k as int),
            decreases buf@.len() - k,
        {
            out.push(buf[k]);
            proof {
                assert(out@ =~= self.buf(idx as int).take(k + 1));
            }
            k += 1;
        }
        proof {
            assert(self.buf(idx as int).take(buf@.len() as int) =~= self.buf(idx as int));
        }
        out
    }

    /// The current length of metric `idx`'s buffer.
    pub fn len_of(&self, idx: usize) -> (r: usize)
        requires
            (idx as int) < self.metric_count(),
        ensures
            r as int == self.buf(idx as int).len(),
    {
        self.bufs[idx].len()
    }
}

} // verus!
