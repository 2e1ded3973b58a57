use std::collections::VecDeque;

use vstd::prelude::*;

verus! {

/// The last samples of the three rates a viewer charts: what the server
/// reports, what arrives and what is drawn.
pub struct PerformanceTracker<T> {
    pub server_history: VecDeque<T>,
    pub received_history: VecDeque<T>,
    pub render_history: VecDeque<T>,
    pub max_samples: usize,
}

/// A history after one new sample `v`: its oldest sample dropped first where
/// `full` (and it has one), then `v` appended.
pub open spec fn after_sample<T>(s: Seq<T>, full: bool, v: T) -> Seq<T> {
    if full && s.len() > 0 {
        s.drop_first().push(v)
    } else {
        s.push(v)
    }
}

impl<T> PerformanceTracker<T> {
    /// Empty histories that keep `max_samples` samples each.
    pub fn new(max_samples: usize) -> (t: Self)
        ensures
            t.server_history@ == Seq::<T>::empty(),
            t.received_history@ == Seq::<T>::empty(),
            t.render_history@ == Seq::<T>::empty(),
            t.max_samples == max_samples,
    {
        PerformanceTracker {
            server_history: VecDeque::with_capacity(max_samples),
            received_history: VecDeque::with_capacity(max_samples),
            render_history: VecDeque::with_capacity(max_samples),
            max_samples,
        }
    }

    /// Adds one sample to each history; where the server history already
    /// holds `max_samples` samples, the oldest of each is dropped first.
    pub fn add_samples(&mut self, server: T, received: T, render: T)
        ensures
            final(self).max_samples == old(self).max_samples,
            final(self).server_history@ == after_sample(
                old(self).server_history@,
                old(self).server_history@.len() >= old(self).max_samples,
                server,
            ),
            final(self).received_history@ == after_sample(
                old(self).received_history@,
                old(self).server_history@.len() >= old(self).max_samples,
                received,
            ),
            final(self).render_history@ == after_sample(
                old(self).render_history@,
                old(self).server_history@.len() >= old(self).max_samples,
                render,
            ),
    {
        if self.server_history.len() >= self.max_samples {
            let _ = self.server_history.pop_front();
            let _ = self.received_history.pop_front();
            let _ = self.render_history.pop_front();
        }
        self.server_history.push_back(server);
        self.received_history.push_back(received);
        self.render_history.push_back(render);
    }
}

/// A history of at most `max` samples (`max > 0`) given a sample keeps the
/// last `max` of its samples and the new one, in order.
pub proof fn law_history_keeps_last<T>(s: Seq<T>, max: nat, v: T)
    requires
        max > 0,
        s.len() <= max,
    ensures
        ({
            let t = after_sample(s, s.len() >= max, v);
            &&& t.len() == (if s.len() + 1 <= max { s.len() + 1 } else { max })
            &&& t == s.push(v).skip(s.len() + 1 - t.len())
        }),
{
    let t = after_sample(s, s.len() >= max, v);
    if s.len() >= max {
        assert(t =~= s.push(v).skip(1));
    } else {
        assert(t =~= s.push(v).skip(0));
    }
}

} // verus!
