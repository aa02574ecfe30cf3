//! Interning pool for leaf values.
//!
//! Two observably-equal leaves must become the same interned handle, so that
//! node identity inside the graph is a pure function of handle comparisons.
//! Entries are never evicted: a handle stays valid for the pool's lifetime.

use vstd::prelude::*;

verus! {

pub struct Interner {
    pub vals: Vec<i64>,
}

impl Interner {
    pub open spec fn n(self) -> int {
        self.vals@.len() as int
    }

    /// No value is stored twice.
    pub open spec fn wf(self) -> bool {
        forall|j: int, k: int| 0 <= j < k < self.n() ==> self.vals@[j] != self.vals@[k]
    }

    /// The handle a value would resolve to, if it is interned at all.
    pub open spec fn handle_of(self, v: i64) -> Option<int> {
        if exists|h: int| 0 <= h < self.n() && self.vals@[h] == v {
            Some(choose|h: int| 0 <= h < self.n() && self.vals@[h] == v)
        } else {
            None
        }
    }

    pub fn new() -> (r: Interner)
        ensures
            r.wf(),
            r.n() == 0,
    {
        Interner { vals: Vec::new() }
    }

    /// Intern a value: return its stable handle, creating one on first sight.
    pub fn intern(&mut self, v: i64) -> (h: usize)
        requires
            old(self).wf(),
        ensures
            final(self).wf(),
            (h as int) < final(self).n(),
            final(self).vals@[h as int] == v,
            final(self).handle_of(v) == Some(h as int),
            // the pool only grows, and existing handles keep their values
            old(self).n() <= final(self).n() <= old(self).n() + 1,
            forall|j: int| 0 <= j < old(self).n() ==> final(self).vals@[j] == old(self).vals@[j],
            old(self).handle_of(v) is Some ==> *final(self) == *old(self),
    {
        let n = self.vals.len();
        let mut i: usize = 0;
        while i < n
            invariant
                self.wf(),
                n as int == self.n(),
                i <= n,
                forall|j: int| 0 <= j < i ==> self.vals@[j] != v,
            decreases n - i,
        {
            if self.vals[i] == v {
                return i;
            }
            i = i + 1;
        }
        self.vals.push(v);
        proof {
            assert(self.handle_of(v) == Some(n as int)) by {
                assert(self.vals@[n as int] == v);
            }
            assert(old(self).handle_of(v) is None);
        }
        n
    }

    /// The value behind a handle.
    pub fn value(&self, h: usize) -> (v: i64)
        requires
            (h as int) < self.n(),
        ensures
            v == self.vals@[h as int],
    {
        self.vals[h]
    }
}

} // verus!
