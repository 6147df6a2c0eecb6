//! The order in which the scanlines of an image are rendered.
//!
//! An image is rendered top to bottom, a batch of consecutive scanlines at a time (one scanline
//! per worker thread), until every scanline has been rendered.

use vstd::prelude::*;

verus! {

/// The scanlines of an image that remain to be rendered, handed out in batches.
#[derive(Debug, Clone, Copy)]
pub struct Scanlines {
    next: u32,
    height: u32,
    batch: u32,
}

impl Scanlines {
    /// The first scanline not handed out yet.
    pub closed spec fn next_line(self) -> nat {
        self.next as nat
    }

    /// The number of scanlines of the image.
    pub closed spec fn rows(self) -> nat {
        self.height as nat
    }

    /// The number of scanlines handed out at once.
    pub closed spec fn batch_len(self) -> nat {
        self.batch as nat
    }

    /// Batches hand out at least one scanline, and never past the end of the image.
    pub closed spec fn wf(self) -> bool {
        &&& self.batch > 0
        &&& self.next <= self.height
    }

    /// Starts rendering an image of `height` scanlines, `batch` scanlines at a time.
    pub fn new(height: u32, batch: u32) -> (s: Self)
        requires
            batch > 0,
        ensures
            s.wf(),
            s.next_line() == 0,
            s.rows() == height,
            s.batch_len() == batch,
    {
        Scanlines { next: 0, height, batch }
    }

    /// Returns the first scanline not handed out yet.
    pub fn current_line(&self) -> (y: u32)
        ensures
            y == self.next_line(),
    {
        self.next
    }

    /// Returns whether some scanlines have not been handed out yet.
    pub fn has_remaining(&self) -> (more: bool)
        ensures
            more == (self.next_line() < self.rows()),
    {
        self.next < self.height
    }

    /// Hands out the next batch of scanlines `[start, end)`, or `None` once every scanline has
    /// been handed out.
    ///
    /// A batch starts right after the previous one and holds `batch` scanlines, or the remaining
    /// ones when fewer are left.
    pub fn advance(&mut self) -> (lines: Option<(u32, u32)>)
        requires
            old(self).wf(),
        ensures
            final(self).wf(),
            batch_step(*old(self), *final(self)),
            match lines {
                Some((start, end)) => {
                    &&& old(self).next_line() < old(self).rows()
                    &&& start == old(self).next_line()
                    &&& end == if start + old(self).batch_len() < old(self).rows() {
                        start + old(self).batch_len()
                    } else {
                        old(self).rows() as int
                    }
                    &&& start < end
                    &&& final(self).next_line() == end
                },
                None => {
                    &&& old(self).next_line() == old(self).rows()
                    &&& *final(self) == *old(self)
                },
            },
    {
        if self.next >= self.height {
            return None;
        }
        let start = self.next;
        let end = if self.height - start > self.batch {
            start + self.batch
        } else {
            self.height
        };
        self.next = end;
        Some((start, end))
    }
}

/// The first scanline not handed out after one more batch, starting from `next`.
pub open spec fn next_after_batch(next: nat, rows: nat, batch: nat) -> nat {
    if next + batch < rows {
        next + batch
    } else {
        rows
    }
}

/// `t` is `s` after one call of [`Scanlines::advance`]: the same image and batch size, and the
/// first scanline not handed out moved past one more batch (or stayed at the end).
pub open spec fn batch_step(s: Scanlines, t: Scanlines) -> bool {
    &&& t.rows() == s.rows()
    &&& t.batch_len() == s.batch_len()
    &&& t.next_line() == next_after_batch(s.next_line(), s.rows(), s.batch_len())
}

/// The scanlines before `min(k * batch, rows)`: those handed out after `k` batches.
pub open spec fn handed_out(rows: nat, batch: nat, k: nat) -> nat {
    if k * batch < rows {
        k * batch
    } else {
        rows
    }
}

proof fn lemma_handed_out_step(rows: nat, batch: nat, k: nat)
    ensures
        handed_out(rows, batch, k + 1) == next_after_batch(handed_out(rows, batch, k), rows, batch),
{
    assert((k + 1) * batch == k * batch + batch) by (nonlinear_arith);
}

/// Rendering hands out every scanline once, in order, a batch at a time: after `new` and `k`
/// calls of `advance`, the scanlines before `min(k * batch, rows)` have been handed out, so
/// the next call hands out `[k * batch, min((k + 1) * batch, rows))` when `k * batch < rows`
/// and nothing otherwise, and scanlines remain exactly when `k * batch < rows`.
///
/// `states` holds the scanlines after `0, 1, 2, ...` calls of `advance`.
pub proof fn lemma_batches_in_order(states: Seq<Scanlines>)
    requires
        states.len() >= 1,
        states[0].next_line() == 0,
        forall|i: int| 0 <= i < states.len() - 1 ==> #[trigger] batch_step(states[i], states[i + 1]),
    ensures
        forall|k: int|
            0 <= k < states.len() ==> {
                &&& (#[trigger] states[k]).rows() == states[0].rows()
                &&& states[k].batch_len() == states[0].batch_len()
                &&& states[k].next_line() == handed_out(states[0].rows(), states[0].batch_len(), k as nat)
                &&& states[k].next_line() < states[k].rows() <==> k * states[0].batch_len() < states[0].rows()
            },
{
    let rows = states[0].rows();
    let batch = states[0].batch_len();
    assert forall|k: int| 0 <= k < states.len() implies {
        &&& (#[trigger] states[k]).rows() == rows
        &&& states[k].batch_len() == batch
        &&& states[k].next_line() == handed_out(rows, batch, k as nat)
    } by {
        lemma_prefix_in_order(states, k as nat);
    }
}

proof fn lemma_prefix_in_order(states: Seq<Scanlines>, k: nat)
    requires
        k < states.len(),
        states[0].next_line() == 0,
        forall|i: int| 0 <= i < states.len() - 1 ==> #[trigger] batch_step(states[i], states[i + 1]),
    ensures
        states[k as int].rows() == states[0].rows(),
        states[k as int].batch_len() == states[0].batch_len(),
        states[k as int].next_line() == handed_out(states[0].rows(), states[0].batch_len(), k),
    decreases k,
{
    if k > 0 {
        lemma_prefix_in_order(states, (k - 1) as nat);
        assert(batch_step(states[k - 1], states[k - 1 + 1]));
        lemma_handed_out_step(states[0].rows(), states[0].batch_len(), (k - 1) as nat);
    } else {
        assert(0 * states[0].batch_len() == 0) by (nonlinear_arith);
    }
}

} // verus!
