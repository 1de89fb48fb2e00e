use vstd::prelude::*;
use crate::fixture::Proxy;
use crate::matrix::duplicate_vec;

verus! {

/// A store of proxy lists keyed by provider.
///
/// One registry lives for the whole run and one for each test.
pub struct FixtureRegistry {
    slots: Vec<Option<Vec<Proxy>>>,
}

impl FixtureRegistry {
    /// The proxies stored for provider `p`, if any.
    pub closed spec fn lookup(&self, p: int) -> Option<Seq<Proxy>> {
        if 0 <= p < self.slots@.len() {
            match self.slots@[p] {
                Some(v) => Some(v@),
                None => None,
            }
        } else {
            None
        }
    }

    pub fn new() -> (r: Self)
        ensures
            forall|p: int| r.lookup(p) is None,
    {
        FixtureRegistry { slots: Vec::new() }
    }

    /// Stores `value` under provider `p`, replacing what was there.
    pub fn add(&mut self, p: usize, value: Vec<Proxy>)
        ensures
            final(self).lookup(p as int) == Some(value@),
            forall|q: int| q != p ==> final(self).lookup(q) == old(self).lookup(q),
    {
        let ghost start = self.slots@;
        while self.slots.len() <= p
            invariant
                self.slots@.len() >= start.len(),
                forall|q: int| 0 <= q < start.len() ==> self.slots@[q] == start[q],
                forall|q: int| start.len() <= q < self.slots@.len() ==> self.slots@[q] is None,
            decreases p + 1 - self.slots@.len(),
        {
            self.slots.push(None);
        }
        self.slots.set(p, Some(value));
    }

    /// A duplicate of the proxies stored under `p`.
    pub fn get(&self, p: usize) -> (r: Option<Vec<Proxy>>)
        ensures
            match r {
                Some(v) => self.lookup(p as int) == Some(v@),
                None => self.lookup(p as int) is None,
            },
    {
        if p < self.slots.len() {
            match &self.slots[p] {
                Some(v) => Some(duplicate_vec(v)),
                None => None,
            }
        } else {
            None
        }
    }
}

} // verus!
