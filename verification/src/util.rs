//! Small utilities.

use vstd::prelude::*;

verus! {

/// Epoch-stamped set over `0..n` indices: O(1) clear by bumping the epoch.
/// Index `i` is a member when its stamp equals the current epoch; before the
/// first [`EpochSet::begin`] (epoch 0) every index is a member.
#[derive(Debug)]
pub struct EpochSet {
    stamp: Vec<u32>,
    epoch: u32,
}

impl View for EpochSet {
    type V = Seq<bool>;

    /// Membership of each index `0..capacity`.
    closed spec fn view(&self) -> Seq<bool> {
        self.stamp@.map_values(|s: u32| s == self.epoch)
    }
}

impl Clone for EpochSet {
    /// A copy with the same members and epoch.
    fn clone(&self) -> (c: Self)
        ensures
            c@ == self@,
            c.wf() == self.wf(),
            c.epoch_of() == self.epoch_of(),
    {
        let stamp = self.stamp.clone();
        assert(stamp@ =~= self.stamp@);
        let c = EpochSet { stamp, epoch: self.epoch };
        assert(c@ =~= self@);
        c
    }
}

impl Default for EpochSet {
    /// An empty set (over no index), before its first epoch.
    fn default() -> (s: Self)
        ensures
            s.wf(),
            s.epoch_of() == 0,
            s@ == Seq::<bool>::empty(),
    {
        let s = EpochSet { stamp: Vec::new(), epoch: 0 };
        assert(s@ =~= Seq::<bool>::empty());
        s
    }
}

impl EpochSet {
    /// No stamp is ahead of the epoch.
    pub closed spec fn wf(&self) -> bool {
        forall|i: int| 0 <= i < self.stamp@.len() ==> #[trigger] self.stamp@[i] <= self.epoch
    }

    /// The current epoch (0 before the first `begin`).
    pub closed spec fn epoch_of(&self) -> u32 {
        self.epoch
    }

    /// A set over `0..n`, before its first epoch.
    pub fn new(n: usize) -> (s: Self)
        ensures
            s.wf(),
            s.epoch_of() == 0,
            s@ == Seq::new(n as nat, |i: int| true),
    {
        let s = EpochSet { stamp: crate::image::vec_filled(n, 0u32), epoch: 0 };
        assert(s@ =~= Seq::new(n as nat, |i: int| true));
        s
    }

    /// Make sure the set covers `n` items and start a fresh, empty epoch.
    pub fn begin(&mut self, n: usize)
        requires
            old(self).wf(),
        ensures
            final(self).wf(),
            final(self).epoch_of() != 0,
            final(self)@.len() == if old(self)@.len() < n {
                n as nat
            } else {
                old(self)@.len()
            },
            forall|i: int| 0 <= i < final(self)@.len() ==> !#[trigger] final(self)@[i],
    {
        if self.stamp.len() < n {
            self.stamp = crate::image::vec_filled(n, 0u32);
            self.epoch = 0;
        }
        let e = self.epoch.wrapping_add(1);
        if e == 0 {
            let len = self.stamp.len();
            let mut i: usize = 0;
            while i < len
                invariant
                    i <= len,
                    len == self.stamp@.len(),
                    forall|k: int| 0 <= k < i ==> self.stamp@[k] == 0,
                decreases len - i,
            {
                self.stamp.set(i, 0);
                i = i + 1;
            }
            self.epoch = 1;
        } else {
            self.epoch = e;
        }
    }

    /// Add index `i`.
    pub fn insert(&mut self, i: usize)
        requires
            old(self).wf(),
            i < old(self)@.len(),
        ensures
            final(self).wf(),
            final(self).epoch_of() == old(self).epoch_of(),
            final(self)@ == old(self)@.update(i as int, true),
    {
        self.stamp.set(i, self.epoch);
        assert(self@ =~= old(self)@.update(i as int, true));
    }

    /// Remove index `i` (a no-op before the first epoch, when every index is
    /// a member).
    pub fn remove(&mut self, i: usize)
        requires
            old(self).wf(),
            i < old(self)@.len(),
        ensures
            final(self).wf(),
            final(self).epoch_of() == old(self).epoch_of(),
            final(self)@ == old(self)@.update(i as int, old(self).epoch_of() == 0),
    {
        self.stamp.set(i, 0);
        assert(self@ =~= old(self)@.update(i as int, old(self).epoch_of() == 0));
    }

    /// Whether index `i` is a member.
    pub fn contains(&self, i: usize) -> (b: bool)
        requires
            i < self@.len(),
        ensures
            b == self@[i as int],
    {
        self.stamp[i] == self.epoch
    }
}


/// A membership read after an insertion gives true for the inserted index
/// and the earlier answer for every other index.
pub proof fn lemma_insert_then_contains(before: Seq<bool>, after: Seq<bool>, i: int, j: int)
    requires
        0 <= i < before.len(),
        0 <= j < before.len(),
        after == before.update(i, true),
    ensures
        after[i],
        j != i ==> after[j] == before[j],
{
}

/// Once an epoch has begun, a removed index is no longer a member.
pub proof fn lemma_remove_then_not_contains(s: EpochSet, after: Seq<bool>, i: int)
    requires
        0 <= i < s@.len(),
        s.epoch_of() != 0,
        after == s@.update(i, s.epoch_of() == 0),
    ensures
        !after[i],
{
}

} // verus!
