//! The page-table context of a memory space: for each virtual page that is present, the
//! physical frame behind it and the access it allows.
use vstd::prelude::*;
use std::collections::BTreeMap;

verus! {

broadcast use vstd::std_specs::btree::group_btree_axioms;

/// A page-table entry.
#[derive(Clone, Copy, Debug, PartialEq, Eq, Structural)]
pub struct Pte {
    /// The physical frame.
    pub frame: usize,
    /// The page can be written to.
    pub write: bool,
    /// The page can be accessed from userspace.
    pub user: bool,
}

/// A page-table context, by virtual page.
pub struct VMem {
    entries: BTreeMap<usize, Pte>,
}

impl View for VMem {
    type V = Map<usize, Pte>;

    closed spec fn view(&self) -> Map<usize, Pte> {
        self.entries@
    }
}

impl VMem {
    /// An empty context.
    pub fn new() -> (r: Self)
        ensures
            r@ == Map::<usize, Pte>::empty(),
    {
        VMem { entries: BTreeMap::new() }
    }

    /// Returns the entry of page `p`.
    pub fn get(&self, p: usize) -> (r: Option<Pte>)
        ensures
            match r {
                Some(e) => self@.contains_key(p) && self@[p] == e,
                None => !self@.contains_key(p),
            },
    {
        match self.entries.get(&p) {
            Some(e) => Some(*e),
            None => None,
        }
    }

    /// Installs the entry of page `p`.
    pub fn map(&mut self, p: usize, e: Pte)
        ensures
            final(self)@ == old(self)@.insert(p, e),
    {
        self.entries.insert(p, e);
    }

    /// Removes the entry of page `p`.
    pub fn unmap(&mut self, p: usize) -> (r: Option<Pte>)
        ensures
            final(self)@ == old(self)@.remove(p),
            match r {
                Some(e) => old(self)@.contains_key(p) && old(self)@[p] == e,
                None => !old(self)@.contains_key(p),
            },
    {
        self.entries.remove(&p)
    }
}

} // verus!
