//! The per-instance states of a node, keyed by instance id, in a std
//! `HashMap`.
use std::collections::HashMap;
use vstd::prelude::*;

verus! {

broadcast use vstd::std_specs::hash::group_hash_axioms;

pub struct Table<S> {
    pub map: HashMap<usize, S>,
}

impl<S> Table<S> {
    pub open spec fn wf(self) -> bool {
        true
    }

    /// The state held for `id`, if any.
    pub open spec fn get(self, id: usize) -> Option<S> {
        if self.map@.contains_key(id) {
            Some(self.map@[id])
        } else {
            None
        }
    }

    pub fn new() -> (r: Table<S>)
        ensures
            r.wf(),
            forall|id: usize| #[trigger] r.get(id) is None,
    {
        Table { map: HashMap::new() }
    }

    /// A reference to the state held for `id`, if any.
    pub fn lookup(&self, id: usize) -> (r: Option<&S>)
        requires
            self.wf(),
        ensures
            r matches Some(s) ==> self.get(id) == Some(*s),
            r is None ==> self.get(id) is None,
    {
        self.map.get(&id)
    }

    /// Removes and returns the state held for `id`.
    pub fn take(&mut self, id: usize) -> (r: Option<S>)
        requires
            old(self).wf(),
        ensures
            final(self).wf(),
            r == old(self).get(id),
            final(self).get(id) is None,
            forall|j: usize| j != id ==> #[trigger] final(self).get(j) == old(self).get(j),
    {
        let r = self.map.remove(&id);
        proof {
            assert forall|j: usize| j != id implies #[trigger] self.get(j) == old(self).get(j) by {}
        }
        r
    }

    /// Holds `s` for `id`, which holds nothing yet.
    pub fn put(&mut self, id: usize, s: S)
        requires
            old(self).wf(),
            old(self).get(id) is None,
        ensures
            final(self).wf(),
            final(self).get(id) == Some(s),
            forall|j: usize| j != id ==> #[trigger] final(self).get(j) == old(self).get(j),
    {
        let _ = self.map.insert(id, s);
    }
}

} // verus!
