//! Identifier allocation.

use vstd::prelude::*;

verus! {

/// Hands out identifiers: fresh ones in strictly increasing order, and
/// released ones again for reuse.
pub struct IdPool {
    next: u64,
    released: Vec<u64>,
    live: Ghost<Set<u64>>,
}

impl IdPool {
    /// The next fresh identifier.
    pub closed spec fn next_fresh(&self) -> nat {
        self.next as nat
    }

    /// Identifiers handed out and not released.
    pub closed spec fn live(&self) -> Set<u64> {
        self.live@
    }

    pub closed spec fn wf(&self) -> bool {
        &&& forall|k: u64| #[trigger] self.live@.contains(k) ==> k < self.next
        &&& forall|i: int|
            0 <= i < self.released@.len() ==> #[trigger] self.released@[i] < self.next
                && !self.live@.contains(self.released@[i])
        &&& self.released@.no_duplicates()
    }

    pub proof fn lemma_fresh_bound(&self)
        ensures
            self.next_fresh() <= u64::MAX,
    {
    }

    pub fn new() -> (r: IdPool)
        ensures
            r.wf(),
            r.next_fresh() == 0,
            r.live() == Set::<u64>::empty(),
    {
        IdPool { next: 0, released: Vec::new(), live: Ghost(Set::empty()) }
    }

    /// A never-used identifier, above every one handed out before; `None`
    /// once all 2^64 are used.
    pub fn fresh(&mut self) -> (r: Option<u64>)
        requires
            old(self).wf(),
        ensures
            final(self).wf(),
            match r {
                Some(k) => k == old(self).next_fresh() && k < u64::MAX && final(self).next_fresh() == k + 1
                    && final(self).live() == old(self).live().insert(k),
                None => old(self).next_fresh() == u64::MAX && *final(self) == *old(self),
            },
    {
        if self.next == u64::MAX {
            None
        } else {
            let k = self.next;
            self.next = self.next + 1;
            self.live = Ghost(self.live@.insert(k));
            Some(k)
        }
    }

    /// An identifier that is not live: a released one where there is one,
    /// else a fresh one.
    pub fn acquire(&mut self) -> (r: Option<u64>)
        requires
            old(self).wf(),
        ensures
            final(self).wf(),
            match r {
                Some(k) => !old(self).live().contains(k) && final(self).live() == old(
                    self,
                ).live().insert(k),
                None => old(self).next_fresh() == u64::MAX && final(self).live() == old(self).live(),
            },
    {
        match self.released.pop() {
            Some(k) => {
                self.live = Ghost(self.live@.insert(k));
                assert(old(self).released@.last() == k);
                assert(forall|i: int|
                    0 <= i < self.released@.len() ==> old(self).released@[i] == self.released@[i]);
                Some(k)
            },
            None => self.fresh(),
        }
    }

    /// Gives a live identifier back for reuse.
    pub fn release(&mut self, k: u64)
        requires
            old(self).wf(),
            old(self).live().contains(k),
        ensures
            final(self).wf(),
            final(self).live() == old(self).live().remove(k),
            final(self).next_fresh() == old(self).next_fresh(),
    {
        self.released.push(k);
        self.live = Ghost(self.live@.remove(k));
    }
}

} // verus!
