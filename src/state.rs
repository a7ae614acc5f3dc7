//! The indexed store of gaps and mappings of a memory space, and the transaction that
//! stages changes to it.
use vstd::prelude::*;
use std::collections::BTreeMap;
use crate::errno::Errno;
use crate::layout::{covers, pages_of};
use crate::residence::{MapResidence, ResidenceView, fits};

verus! {

broadcast use vstd::std_specs::btree::group_btree_axioms, vstd::laws_cmp::group_laws_cmp;

/// A used range of virtual memory. Its first page is the key under which it is stored.
#[derive(Clone, Debug)]
pub struct MemMapping {
    /// The size of the mapping in pages.
    pub size: usize,
    /// The mapping's flags.
    pub flags: u8,
    /// What backs the mapping's memory.
    pub residence: MapResidence,
}

/// The mathematical value of a mapping.
pub struct MappingView {
    pub size: usize,
    pub flags: u8,
    pub residence: ResidenceView,
}

impl View for MemMapping {
    type V = MappingView;

    open spec fn view(&self) -> MappingView {
        MappingView { size: self.size, flags: self.flags, residence: self.residence@ }
    }
}

impl MemMapping {
    /// The mapping is non-empty and its residence offsets stay representable over it.
    pub open spec fn wf(&self) -> bool {
        0 < self.size && fits(self.residence@, self.size as int)
    }
}

/// The number of index allocations that may still succeed (`None`: unbounded).
///
/// Every insertion into an index of the state takes one allocation; once none is left the
/// insertion fails with `ENOMEM`.
pub struct AllocBudget {
    pub left: Option<usize>,
}

impl AllocBudget {
    /// Takes one allocation from the budget.
    pub fn reserve(&mut self) -> (r: Result<(), Errno>)
        ensures
            match old(self).left {
                None => r is Ok && final(self).left is None,
                Some(n) => if n == 0 {
                    r == Err::<(), Errno>(Errno::ENOMEM) && final(self).left == Some(0usize)
                } else {
                    r is Ok && final(self).left == Some((n - 1) as usize)
                },
            },
    {
        match self.left {
            None => Ok(()),
            Some(n) => {
                if n == 0 {
                    Err(Errno::ENOMEM)
                } else {
                    self.left = Some(n - 1);
                    Ok(())
                }
            },
        }
    }
}

/// The set of mapped regions and free gaps of a memory space.
pub struct MemSpaceState {
    /// The gaps, by first page, with their size in pages.
    pub gaps: BTreeMap<usize, usize>,
    /// The gaps as `(size, first page)`, ordered by size then address.
    pub gaps_size: BTreeMap<(usize, usize), ()>,
    /// The mappings, by first page.
    pub mappings: BTreeMap<usize, MemMapping>,
}

/// The values of the mappings of `m`, by first page.
pub open spec fn views(m: Map<usize, MemMapping>) -> Map<usize, MappingView> {
    m.map_values(|x: MemMapping| x@)
}

/// `b` is the first page of the smallest gap of `g` holding at least `n` pages, the lowest
/// such gap among those of that size.
pub open spec fn is_best_fit(g: Map<usize, usize>, n: int, b: usize) -> bool {
    &&& g.contains_key(b)
    &&& g[b] >= n
    &&& forall|c: usize|
        #[trigger] g.contains_key(c) && g[c] >= n ==> g[b] < g[c] || (g[b] == g[c] && b <= c)
}

/// The gap `t = (size, first page)` is no better a fit for `n` pages than `best`.
pub open spec fn fit_no_better(best: Option<(usize, usize)>, t: (usize, usize), n: int) -> bool {
    t.0 >= n ==> match best {
        Some((s, b)) => s < t.0 || (s == t.0 && b <= t.1),
        None => false,
    }
}

impl MemSpaceState {
    /// The by-size index mirrors the gaps, and every mapping is well formed.
    pub open spec fn wf(&self) -> bool {
        &&& forall|s: usize, b: usize|
            #[trigger] self.gaps_size@.contains_key((s, b)) <==> self.gaps@.contains_key(b)
                && self.gaps@[b] == s
        &&& forall|k: usize| #[trigger] self.mappings@.contains_key(k) ==> self.mappings@[k].wf()
    }

    pub open spec fn gap_map(&self) -> Map<usize, usize> {
        self.gaps@
    }

    /// An empty state.
    pub fn new() -> (r: Self)
        ensures
            r.wf(),
            r.gaps@ == Map::<usize, usize>::empty(),
            r.mappings@ == Map::<usize, MemMapping>::empty(),
    {
        MemSpaceState { gaps: BTreeMap::new(), gaps_size: BTreeMap::new(), mappings: BTreeMap::new() }
    }

    /// A copy of the indices, for staging changes.
    pub fn snapshot(&self) -> (r: Self)
        ensures
            r.gaps@ == self.gaps@,
            r.gaps_size@ == self.gaps_size@,
            r.mappings@ == self.mappings@,
    {
        MemSpaceState {
            gaps: self.gaps.clone(),
            gaps_size: self.gaps_size.clone(),
            mappings: self.mappings.clone(),
        }
    }

    /// Inserts the gap of `size` pages beginning at page `begin` into both indices.
    ///
    /// If the second insertion fails, the first is rolled back and the state is unchanged.
    pub fn insert_gap(&mut self, begin: usize, size: usize, budget: &mut AllocBudget) -> (r: Result<(), Errno>)
        requires
            old(self).wf(),
            !old(self).gaps@.contains_key(begin),
        ensures
            final(self).wf(),
            final(self).mappings@ == old(self).mappings@,
            r is Ok ==> final(self).gaps@ == old(self).gaps@.insert(begin, size),
            r is Err ==> r == Err::<(), Errno>(Errno::ENOMEM) && final(self).gaps@ == old(self).gaps@
                && final(self).gaps_size@ == old(self).gaps_size@,
            old(budget).left is None ==> r is Ok && final(budget).left is None,
            old(budget).left matches Some(k) ==> if k < 2 {
                r is Err && final(budget).left == Some(0usize)
            } else {
                r is Ok && final(budget).left == Some((k - 2) as usize)
            },
    {
        budget.reserve()?;
        self.gaps.insert(begin, size);
        if let Err(e) = budget.reserve() {
            self.gaps.remove(&begin);
            assert(self.gaps@ =~= old(self).gaps@);
            return Err(e);
        }
        assert(!self.gaps_size@.contains_key((size, begin)));
        self.gaps_size.insert((size, begin), ());
        Ok(())
    }

    /// Removes the gap beginning at page `begin` from both indices, returning its size.
    pub fn remove_gap(&mut self, begin: usize) -> (r: Option<usize>)
        requires
            old(self).wf(),
        ensures
            final(self).wf(),
            final(self).mappings@ == old(self).mappings@,
            final(self).gaps@ == old(self).gaps@.remove(begin),
            match r {
                Some(s) => old(self).gaps@.contains_key(begin) && old(self).gaps@[begin] == s,
                None => !old(self).gaps@.contains_key(begin),
            },
    {
        let s = self.gaps.remove(&begin)?;
        self.gaps_size.remove(&(s, begin));
        Some(s)
    }

    /// Inserts a mapping beginning at page `begin`.
    pub fn insert_mapping(&mut self, begin: usize, m: MemMapping, budget: &mut AllocBudget) -> (r: Result<(), Errno>)
        requires
            old(self).wf(),
            m.wf(),
        ensures
            final(self).wf(),
            final(self).gaps@ == old(self).gaps@,
            final(self).gaps_size@ == old(self).gaps_size@,
            r is Ok ==> final(self).mappings@ == old(self).mappings@.insert(begin, m),
            r is Err ==> r == Err::<(), Errno>(Errno::ENOMEM) && final(self).mappings@ == old(self).mappings@,
            old(budget).left is None ==> r is Ok && final(budget).left is None,
            old(budget).left matches Some(k) ==> if k < 1 {
                r is Err && final(budget).left == Some(0usize)
            } else {
                r is Ok && final(budget).left == Some((k - 1) as usize)
            },
    {
        budget.reserve()?;
        self.mappings.insert(begin, m);
        Ok(())
    }

    /// Removes the mapping beginning at page `begin`.
    pub fn remove_mapping(&mut self, begin: usize) -> (r: Option<MemMapping>)
        requires
            old(self).wf(),
        ensures
            final(self).wf(),
            final(self).gaps@ == old(self).gaps@,
            final(self).gaps_size@ == old(self).gaps_size@,
            final(self).mappings@ == old(self).mappings@.remove(begin),
            match r {
                Some(m) => old(self).mappings@.contains_key(begin) && old(self).mappings@[begin] == m,
                None => !old(self).mappings@.contains_key(begin),
            },
    {
        self.mappings.remove(&begin)
    }

    /// Returns the smallest gap of at least `size` pages, the lowest one among gaps of that
    /// size, as `(first page, size)`: the first fit in the order of the by-size index, found by
    /// comparing every gap in that order.
    pub fn get_gap(&self, size: usize) -> (r: Option<(usize, usize)>)
        requires
            self.wf(),
        ensures
            match r {
                Some((b, s)) => is_best_fit(self.gaps@, size as int, b) && self.gaps@[b] == s,
                None => forall|c: usize| #[trigger] self.gaps@.contains_key(c) ==> self.gaps@[c] < size,
            },
    {
        proof {
            assert(vstd::laws_cmp::obeys_cmp::<(usize, usize)>());
            assert(vstd::std_specs::btree::key_obeys_cmp_spec::<(usize, usize)>());
        }
        let mut best: Option<(usize, usize)> = None;
        for kv in it: self.gaps_size.iter()
            invariant
                self.wf(),
                forall|j: int| 0 <= j < it.index() ==> fit_no_better(best, *it.seq()[j].0, size as int),
                best matches Some((s, b)) ==> self.gaps@.contains_key(b) && self.gaps@[b] == s && s >= size,
        {
            let (key, _) = kv;
            let (s, b) = *key;
            assert(self.gaps_size@.contains_key((s, b)));
            if s >= size {
                match best {
                    None => { best = Some((s, b)); },
                    Some((bs, bb)) => {
                        if s < bs || (s == bs && b < bb) {
                            best = Some((s, b));
                        }
                    },
                }
            }
        }
        assert(forall|c: usize| #[trigger] self.gaps@.contains_key(c) ==>
            self.gaps_size@.contains_key((self.gaps@[c], c)));
        match best {
            Some((s, b)) => Some((b, s)),
            None => None,
        }
    }

    /// Returns the gap holding page `p`, as `(first page, size)`.
    pub fn get_gap_for_ptr(&self, p: usize) -> (r: Option<(usize, usize)>)
        ensures
            match r {
                Some((b, s)) => covers(self.gaps@, b, p as int) && self.gaps@[b] == s,
                None => !pages_of(self.gaps@).contains(p as int),
            },
    {
        for kv in it: self.gaps.iter()
            invariant
                forall|j: int| 0 <= j < it.index() ==> !covers(self.gaps@, *it.seq()[j].0, p as int),
        {
            let (k, v) = kv;
            if *k <= p && p - *k < *v {
                return Some((*k, *v));
            }
        }
        None
    }

    /// Returns the first page of the mapping holding page `p`.
    pub fn get_mapping_for_ptr(&self, p: usize) -> (r: Option<usize>)
        ensures
            match r {
                Some(b) => covers(crate::model::msz(views(self.mappings@)), b, p as int),
                None => !pages_of(crate::model::msz(views(self.mappings@))).contains(p as int),
            },
    {
        for kv in it: self.mappings.iter()
            invariant
                forall|j: int| 0 <= j < it.index() ==> !covers(crate::model::msz(views(self.mappings@)), *it.seq()[j].0, p as int),
        {
            let (k, v) = kv;
            if *k <= p && p - *k < v.size {
                return Some(*k);
            }
        }
        None
    }
}

} // verus!

verus! {

/// A transaction on a memory space's state: every change that may fail is staged on a buffer
/// copy of the state, which `commit` then moves into place without any allocation.
pub struct MemSpaceTransaction {
    /// The staged state.
    pub buffer_state: MemSpaceState,
}

impl MemSpaceTransaction {
    /// Begins a transaction on `on`.
    pub fn begin(on: &MemSpaceState) -> (r: Self)
        ensures
            r.buffer_state.gaps@ == on.gaps@,
            r.buffer_state.gaps_size@ == on.gaps_size@,
            r.buffer_state.mappings@ == on.mappings@,
    {
        MemSpaceTransaction { buffer_state: on.snapshot() }
    }

    /// Commits the transaction on `on`. This cannot fail.
    pub fn commit(self, on: &mut MemSpaceState)
        ensures
            *final(on) == self.buffer_state,
    {
        *on = self.buffer_state;
    }
}

} // verus!
