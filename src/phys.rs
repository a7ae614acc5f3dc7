//! Physical frames: a simple frame allocator and the per-frame reference counter.
use vstd::prelude::*;
use std::collections::BTreeMap;
use crate::errno::Errno;
use crate::residence::{MapResidence, ResidenceView};

verus! {

broadcast use vstd::std_specs::btree::group_btree_axioms;

/// Per-frame reference counts. A frame absent from the counter has no outstanding reference.
pub struct PhysRefCounter {
    refs: BTreeMap<usize, usize>,
}

impl PhysRefCounter {
    /// The counts, by frame.
    pub closed spec fn counts(&self) -> Map<usize, usize> {
        self.refs@
    }

    /// Every count held is positive.
    pub closed spec fn wf(&self) -> bool {
        forall|f: usize| #[trigger] self.refs@.contains_key(f) ==> self.refs@[f] > 0
    }

    /// The number of references to frame `f`.
    pub open spec fn count(&self, f: usize) -> nat {
        if self.counts().contains_key(f) { self.counts()[f] as nat } else { 0 }
    }

    /// An empty counter.
    pub fn new() -> (r: Self)
        ensures
            r.wf(),
            r.counts() == Map::<usize, usize>::empty(),
    {
        PhysRefCounter { refs: BTreeMap::new() }
    }

    /// Adds a reference to frame `f`.
    pub fn increment(&mut self, f: usize)
        requires
            old(self).wf(),
            old(self).count(f) < usize::MAX,
        ensures
            final(self).wf(),
            final(self).counts() == old(self).counts().insert(f, (old(self).count(f) + 1) as usize),
    {
        let c: usize = match self.refs.get(&f) {
            Some(c) => *c,
            None => 0,
        };
        self.refs.insert(f, c + 1);
    }

    /// Drops a reference to frame `f`; no effect when it has none.
    pub fn decrement(&mut self, f: usize)
        requires
            old(self).wf(),
        ensures
            final(self).wf(),
            old(self).count(f) <= 1 ==> final(self).counts() == old(self).counts().remove(f),
            old(self).count(f) > 1 ==> final(self).counts() == old(self).counts().insert(f, (old(self).count(f) - 1) as usize),
    {
        match self.refs.get(&f) {
            Some(c) => {
                let c = *c;
                if c <= 1 {
                    self.refs.remove(&f);
                } else {
                    self.refs.insert(f, c - 1);
                }
            },
            None => {
                assert(self.refs@.remove(f) =~= self.refs@);
            },
        }
    }

    /// Tells whether frame `f` has no outstanding reference.
    pub fn can_free(&self, f: usize) -> (r: bool)
        ensures
            r == (self.count(f) == 0),
    {
        match self.refs.get(&f) {
            Some(c) => *c == 0,
            None => true,
        }
    }

    /// Returns the number of references to frame `f`.
    pub fn get(&self, f: usize) -> (r: usize)
        ensures
            r == self.count(f),
    {
        match self.refs.get(&f) {
            Some(c) => *c,
            None => 0,
        }
    }
}

/// The physical memory of the machine: a range of frames, the frames given back, and their
/// reference counts. A frame whose last reference is dropped goes back to the free frames and
/// is handed out again.
pub struct PhysMem {
    /// The reference counter.
    refs: PhysRefCounter,
    /// The next frame never handed out.
    next: usize,
    /// The end of the range of frames (exclusive).
    limit: usize,
    /// Frames given back, handed out again first.
    free: Vec<usize>,
}

impl PhysMem {
    /// The reference counts, by frame.
    pub closed spec fn ref_counts(&self) -> Map<usize, usize> {
        self.refs.counts()
    }

    /// The number of references to frame `f`.
    pub open spec fn count(&self, f: usize) -> nat {
        if self.ref_counts().contains_key(f) { self.ref_counts()[f] as nat } else { 0 }
    }

    /// The number of frames that can still be handed out.
    pub closed spec fn available(&self) -> nat {
        (self.limit - self.next + self.free@.len()) as nat
    }

    pub closed spec fn wf(&self) -> bool {
        &&& self.refs.wf()
        &&& self.next <= self.limit
        &&& forall|f: usize| #[trigger] self.refs.counts().contains_key(f) ==> f < self.next
        &&& forall|i: int| 0 <= i < self.free@.len() ==> !self.refs.counts().contains_key(#[trigger] self.free@[i])
            && self.free@[i] < self.next
        &&& self.free@.no_duplicates()
    }

    /// Every count held is positive.
    pub proof fn lemma_counts_positive(&self)
        requires
            self.wf(),
        ensures
            forall|f: usize| #[trigger] self.ref_counts().contains_key(f) ==> self.ref_counts()[f] > 0,
    {
    }

    /// Physical memory made of the frames `first .. first + count`.
    pub fn new(first: usize, count: usize) -> (r: Self)
        requires
            first + count <= usize::MAX,
        ensures
            r.wf(),
            r.ref_counts() == Map::<usize, usize>::empty(),
            r.available() == count,
    {
        PhysMem { refs: PhysRefCounter::new(), next: first, limit: first + count, free: Vec::new() }
    }

    /// Allocates a frame holding one reference, or fails with `ENOMEM` when none is left.
    pub fn alloc_referenced(&mut self) -> (r: Result<usize, Errno>)
        requires
            old(self).wf(),
        ensures
            final(self).wf(),
            r is Err <==> old(self).available() == 0,
            r is Err ==> r == Err::<usize, Errno>(Errno::ENOMEM) && final(self).ref_counts() == old(self).ref_counts()
                && final(self).available() == old(self).available(),
            r matches Ok(f) ==> old(self).count(f) == 0
                && final(self).ref_counts() == old(self).ref_counts().insert(f, 1)
                && final(self).available() + 1 == old(self).available(),
    {
        if let Some(f) = self.free.pop() {
            let ghost old_free = old(self).free@;
            assert(self.free@ =~= old_free.drop_last());
            assert(old_free[old_free.len() - 1] == f);
            assert(!self.refs.counts().contains_key(f));
            assert forall|i: int| 0 <= i < self.free@.len() implies self.free@[i] != f by {
                assert(old_free[i] != old_free[old_free.len() - 1]);
            }
            self.refs.increment(f);
            return Ok(f);
        }
        if self.next >= self.limit {
            return Err(Errno::ENOMEM);
        }
        let f = self.next;
        assert(!self.refs.counts().contains_key(f));
        self.next = self.next + 1;
        self.refs.increment(f);
        Ok(f)
    }

    /// Adds a reference to frame `f`.
    pub fn share(&mut self, f: usize)
        requires
            old(self).wf(),
            old(self).count(f) > 0,
            old(self).count(f) < usize::MAX,
        ensures
            final(self).wf(),
            final(self).available() == old(self).available(),
            final(self).ref_counts() == old(self).ref_counts().insert(f, (old(self).count(f) + 1) as usize),
    {
        self.refs.increment(f);
    }

    /// Returns the number of frames that can still be handed out, at most `usize::MAX`.
    pub fn available_frames(&self) -> (r: usize)
        requires
            self.wf(),
        ensures
            r == if self.available() > usize::MAX { usize::MAX as nat } else { self.available() },
    {
        let n = self.limit - self.next;
        if self.free.len() > usize::MAX - n {
            usize::MAX
        } else {
            n + self.free.len()
        }
    }

    /// Returns the number of references to frame `f`.
    pub fn ref_count(&self, f: usize) -> (r: usize)
        ensures
            r == self.count(f),
    {
        self.refs.get(f)
    }

    /// Drops a reference to frame `f`; once none is left the frame can be handed out again.
    pub fn release(&mut self, f: usize)
        requires
            old(self).wf(),
        ensures
            final(self).wf(),
            old(self).count(f) <= 1 ==> final(self).ref_counts() == old(self).ref_counts().remove(f),
            old(self).count(f) > 1 ==> final(self).ref_counts() == old(self).ref_counts().insert(f, (old(self).count(f) - 1) as usize),
            final(self).available() == old(self).available() + if old(self).count(f) == 1 { 1nat } else { 0nat },
    {
        let held = self.refs.get(f) > 0;
        self.refs.decrement(f);
        if held && self.refs.can_free(f) {
            assert(!self.free@.contains(f));
            let ghost f0 = self.free@;
            self.free.push(f);
            assert forall|i: int, j: int| 0 <= i < self.free@.len() && 0 <= j < self.free@.len() && i != j
                implies self.free@[i] != self.free@[j] by {
                if i == f0.len() as int {
                    assert(f0[j] != f);
                } else if j == f0.len() as int {
                    assert(f0[i] != f);
                }
            }
            assert forall|i: int| 0 <= i < self.free@.len() implies !self.refs.counts().contains_key(#[trigger] self.free@[i])
                && self.free@[i] < self.next by {
                if i < self.free@.len() - 1 {
                    assert(self.free@[i] == old(self).free@[i]);
                }
            }
        }
    }
}

/// A page of a static residence past the end of its frame list behaves as anonymous memory.
pub open spec fn static_frame(r: ResidenceView, off: int) -> Option<usize> {
    match r {
        ResidenceView::Static(s) => if 0 <= off < s.len() { Some(s[off]) } else { None },
        _ => None,
    }
}

/// The frame of page 0 of a residence shifted by `k` pages is that of page `k`.
pub proof fn lemma_static_frame_shift(r: ResidenceView, k: int)
    requires
        0 <= k,
    ensures
        static_frame(crate::residence::shift(r, k), 0) == static_frame(r, k),
{
}

impl MapResidence {
    /// Allocates a physical page for the page at offset `off` of the residence.
    ///
    /// A static frame is returned as it is, without touching its count; every other page gets
    /// a fresh frame holding one reference. Filling the page from a file or swap slot is left to
    /// the layers that own them.
    pub fn alloc_page(&self, off: usize, phys: &mut PhysMem) -> (r: Result<usize, Errno>)
        requires
            old(phys).wf(),
        ensures
            final(phys).wf(),
            static_frame(self@, off as int) matches Some(f) ==> r == Ok::<usize, Errno>(f)
                && final(phys).ref_counts() == old(phys).ref_counts(),
            old(phys).available() > 0 ==> r is Ok,
            final(phys).available() + 1 >= old(phys).available(),
            r is Err ==> old(phys).available() == 0 && final(phys).available() == old(phys).available()
                && final(phys).ref_counts() == old(phys).ref_counts(),
            static_frame(self@, off as int) is None ==> match r {
                Ok(f) => old(phys).count(f) == 0 && final(phys).ref_counts() == old(phys).ref_counts().insert(f, 1),
                Err(e) => e == Errno::ENOMEM && final(phys).ref_counts() == old(phys).ref_counts(),
            },
    {
        if let MapResidence::Static { pages } = self {
            if off < pages.len() {
                return Ok(pages[off]);
            }
        }
        phys.alloc_referenced()
    }

    /// Tells whether the page at offset `off` is backed by a static frame.
    pub fn is_static_page(&self, off: usize) -> (r: bool)
        ensures
            r == static_frame(self@, off as int) is Some,
    {
        match self {
            MapResidence::Static { pages } => off < pages.len(),
            _ => false,
        }
    }

    /// Frees the page allocated with `alloc_page` for offset `off`.
    pub fn free_page(&self, off: usize, f: usize, phys: &mut PhysMem)
        requires
            old(phys).wf(),
        ensures
            final(phys).wf(),
            static_frame(self@, off as int) is Some ==> final(phys).ref_counts() == old(phys).ref_counts()
                && final(phys).available() == old(phys).available(),
            static_frame(self@, off as int) is None ==> final(phys).available() == old(phys).available()
                + if old(phys).count(f) == 1 { 1nat } else { 0nat },
            static_frame(self@, off as int) is None && old(phys).count(f) <= 1
                ==> final(phys).ref_counts() == old(phys).ref_counts().remove(f),
            static_frame(self@, off as int) is None && old(phys).count(f) > 1
                ==> final(phys).ref_counts() == old(phys).ref_counts().insert(f, (old(phys).count(f) - 1) as usize),
    {
        if let MapResidence::Static { pages } = self {
            if off < pages.len() {
                return;
            }
        }
        phys.release(f);
    }
}

} // verus!
