//! Lightweight stage timer: named durations and named counters, in the
//! order they were recorded.

use vstd::prelude::*;
use std::time::Duration;

verus! {

broadcast use vstd::string::to_string_from_display_ensures_for_str;

/// Recorded stage durations and counters.
#[derive(Clone, Debug, Default)]
pub struct StageTimer {
    pub durations: Vec<(String, Duration)>,
    pub counters: Vec<(String, usize)>,
}

impl StageTimer {
    /// No durations and no counters.
    pub fn new() -> (t: Self)
        ensures
            t.durations@.len() == 0,
            t.counters@.len() == 0,
    {
        StageTimer { durations: Vec::new(), counters: Vec::new() }
    }

    /// Append the duration `d` of stage `name`.
    pub fn record(&mut self, name: &str, d: Duration)
        ensures
            final(self).durations@.len() == old(self).durations@.len() + 1,
            final(self).durations@.drop_last() == old(self).durations@,
            final(self).durations@.last().0@ == name@,
            final(self).durations@.last().1 == d,
            final(self).counters@ == old(self).counters@,
    {
        let s = name.to_string();
        self.durations.push((s, d));
        assert(self.durations@.drop_last() =~= old(self).durations@);
    }

    /// Append the counter `n` named `name`.
    pub fn count(&mut self, name: &str, n: usize)
        ensures
            final(self).counters@.len() == old(self).counters@.len() + 1,
            final(self).counters@.drop_last() == old(self).counters@,
            final(self).counters@.last().0@ == name@,
            final(self).counters@.last().1 == n,
            final(self).durations@ == old(self).durations@,
    {
        let s = name.to_string();
        self.counters.push((s, n));
        assert(self.counters@.drop_last() =~= old(self).counters@);
    }

    /// Forget all durations and counters.
    pub fn clear(&mut self)
        ensures
            final(self).durations@.len() == 0,
            final(self).counters@.len() == 0,
    {
        self.durations.clear();
        self.counters.clear();
    }
}

} // verus!
