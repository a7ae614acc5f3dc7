//! A virtual memory space: the gaps and mappings of one process and their bookkeeping.
use vstd::prelude::*;
use crate::errno::Errno;
use crate::layout::{covers, pages_of, layout_ok, span, lemma_layout_add_mapping};
use crate::memory::{PAGE_SIZE, PROCESS_END, FIRST_PAGE, END_PAGE};
use crate::model::{msz, records_ok, page_view, lemma_page_view_insert};
use crate::residence::{MapResidence, ResidenceView, FileLocation, fits, shift, lemma_shift_shift, lemma_fits_shift};
use crate::state::{AllocBudget, MemMapping, MappingView, MemSpaceState, MemSpaceTransaction, views, is_best_fit};
use crate::phys::{PhysMem, static_frame};
use crate::vmem::{VMem, Pte};
use crate::memory::{MAPPING_FLAG_WRITE, MAPPING_FLAG_USER, MAPPING_FLAG_NOLAZY, MAPPING_FLAG_SHARED, PAGE_FAULT_WRITE, PAGE_FAULT_USER};
use crate::unmap::{Release, unmap_impl, unmapped_upto, lemma_unmapped_nothing, mapped_pages, outside, lemma_len_minus, lemma_pages_finite};
use crate::ops::{trim_gap, cut_mapping};

verus! {

broadcast use vstd::std_specs::btree::group_btree_axioms;

/// Constraints on the selection of the virtual address of a new mapping.
#[derive(Clone, Copy, Debug, PartialEq, Eq, Structural)]
pub enum MapConstraint {
    /// The mapping is done at this fixed address; what was mapped there before is unmapped.
    Fixed(usize),
    /// The mapping is done at this address if it is free, elsewhere otherwise.
    Hint(usize),
    /// No constraint.
    Any,
}

/// The address is aligned on a page.
pub open spec fn aligned(addr: usize) -> bool {
    addr % PAGE_SIZE == 0
}

impl MapConstraint {
    /// The constraint's address, if any, is page-aligned, and a fixed address lies in userspace.
    pub open spec fn valid(&self) -> bool {
        match *self {
            MapConstraint::Fixed(a) => a <= PROCESS_END && aligned(a),
            MapConstraint::Hint(a) => aligned(a),
            MapConstraint::Any => true,
        }
    }

    /// Tells whether the constraint is valid.
    pub fn is_valid(&self) -> (r: bool)
        ensures
            r == self.valid(),
    {
        match *self {
            MapConstraint::Fixed(a) => a <= PROCESS_END && a % PAGE_SIZE == 0,
            MapConstraint::Hint(a) => a % PAGE_SIZE == 0,
            MapConstraint::Any => true,
        }
    }
}

/// The page holding address `addr`.
pub open spec fn page_of(addr: usize) -> int {
    addr as int / PAGE_SIZE as int
}

/// The address of page `p`, with its page and alignment.
pub fn page_addr(p: usize) -> (r: usize)
    requires
        p <= END_PAGE,
    ensures
        r == p * PAGE_SIZE,
        page_of(r) == p,
        aligned(r),
{
    assert((p * 4096) / 4096 == p && (p * 4096) % 4096 == 0) by (nonlinear_arith);
    p * PAGE_SIZE
}

/// Some gap holds at least `n` pages.
pub open spec fn has_fit(g: Map<usize, usize>, n: int) -> bool {
    exists|b: usize| #[trigger] g.contains_key(b) && g[b] >= n
}

/// The pages `h .. h + n` lie in one gap.
pub open spec fn hint_fits(g: Map<usize, usize>, h: int, n: int) -> bool {
    exists|b: usize| #[trigger] covers(g, b, h) && h + n <= b + g[b]
}

/// The arguments of `map` are acceptable.
pub open spec fn map_args_ok(c: MapConstraint, n: usize, r: ResidenceView) -> bool {
    &&& 0 < n
    &&& c.valid()
    &&& fits(r, n as int)
    &&& c matches MapConstraint::Fixed(a) ==> FIRST_PAGE <= page_of(a) && page_of(a) + n <= END_PAGE
}

/// The pages that `unmap(ptr, size, _)` takes out: those of the range that lie in the
/// process-reachable range, as `(first, end)`.
pub open spec fn unmap_bounds(ptr: usize, size: usize) -> (int, int) {
    let a = page_of(ptr);
    let lo = if a < FIRST_PAGE { FIRST_PAGE as int } else { a };
    let hi = if a + size > END_PAGE { END_PAGE as int } else { a + size };
    (lo, hi)
}

/// Whether a residence's offsets stay representable over `n` pages.
fn residence_fits(r: &MapResidence, n: usize) -> (b: bool)
    ensures
        b == fits(r@, n as int),
{
    match r {
        MapResidence::File { off, .. } => {
            let lim: u64 = (u64::MAX - *off) / 4096;
            let ok = (n as u64) <= lim;
            assert(ok == (*off as int + n as int * 4096 <= u64::MAX)) by (nonlinear_arith)
                requires
                    lim == (u64::MAX - *off) / 4096,
                    ok == (n as u64 <= lim),
                    n as u64 == n,
            ;
            ok
        },
        MapResidence::Swap { page_off, .. } => n <= usize::MAX - *page_off,
        _ => true,
    }
}


/// `new` is `old` once `map(c, n, flags, res)` has returned `addr`.
pub open spec fn map_done(
    old: MemSpace, new: MemSpace, c: MapConstraint, n: usize, flags: u8, res: ResidenceView, addr: usize,
) -> bool {
    map_result(old.gaps(), old.mappings(), old.holes(), new.gaps(), new.mappings(), new.holes(), c, n, flags, res, addr)
}

/// The gaps `ng`, mappings `nm` and holes `nh` are those `og`, `om` and `oh` once
/// `map(c, n, flags, res)` has returned `addr`.
pub open spec fn map_result(
    og: Map<usize, usize>, om: Map<usize, MappingView>, oh: Set<int>,
    ng: Map<usize, usize>, nm: Map<usize, MappingView>, nh: Set<int>,
    c: MapConstraint, n: usize, flags: u8, res: ResidenceView, addr: usize,
) -> bool {
    let a = page_of(addr);
    let w = span(a, n as int);
    let m = MappingView { size: n, flags, residence: res };
    &&& aligned(addr)
    &&& match c {
        MapConstraint::Fixed(x) => addr == x,
        MapConstraint::Hint(x) => if hint_fits(og, page_of(x), n as int) {
            addr == x
        } else {
            is_best_fit(og, n as int, a as usize)
        },
        MapConstraint::Any => is_best_fit(og, n as int, a as usize),
    }
    &&& pages_of(ng) == pages_of(og) - w
    &&& nh == oh - w
    &&& nm.contains_key(a as usize) && nm[a as usize] == m
    &&& forall|y: int| #[trigger] page_view(nm, y) == if w.contains(y) {
        Some((flags, shift(res, y - a)))
    } else {
        page_view(om, y)
    }
    &&& forall|k: usize| #[trigger] om.contains_key(k) && outside(om, k, a, a + n)
        ==> nm.contains_key(k) && nm[k] == om[k]
    &&& forall|k: usize| #[trigger] nm.contains_key(k) ==> om.contains_key(k) || k == a
        || k == a + n
    &&& !(c is Fixed) ==> w <= pages_of(og)
    &&& w <= pages_of(og) ==> nm == om.insert(a as usize, m)
}

/// `new` is `old` once `unmap(ptr, size, brk)` has succeeded.
pub open spec fn unmap_done(old: MemSpace, new: MemSpace, ptr: usize, size: usize, brk: bool) -> bool {
    &&& unmap_result(old.gaps(), old.mappings(), old.holes(), new.gaps(), new.mappings(), new.holes(), ptr, size, brk)
    &&& unmap_bounds(ptr, size).0 >= unmap_bounds(ptr, size).1 ==> new.gaps_by_size() == old.gaps_by_size()
        && new.usage() == old.usage()
}

/// The gaps `ng`, mappings `nm` and holes `nh` are those `og`, `om` and `oh` once
/// `unmap(ptr, size, brk)` has succeeded.
pub open spec fn unmap_result(
    og: Map<usize, usize>, om: Map<usize, MappingView>, oh: Set<int>,
    ng: Map<usize, usize>, nm: Map<usize, MappingView>, nh: Set<int>,
    ptr: usize, size: usize, brk: bool,
) -> bool {
    let (lo, hi) = unmap_bounds(ptr, size);
    let w = span(lo, hi - lo);
    let mp0 = pages_of(msz(om));
    &&& lo >= hi ==> ng == og && nm == om && nh == oh
    &&& lo < hi ==> {
        &&& pages_of(msz(nm)) == mp0 - w
        &&& forall|y: int| #[trigger] page_view(nm, y) == if w.contains(y) {
            None
        } else {
            page_view(om, y)
        }
        &&& forall|k: usize| #[trigger] om.contains_key(k) && outside(om, k, lo, hi)
            ==> nm.contains_key(k) && nm[k] == om[k]
        &&& forall|k: usize| #[trigger] nm.contains_key(k) ==> om.contains_key(k) || k == hi
        &&& brk ==> ng == og && nh == oh + mp0.intersect(w)
        &&& !brk ==> pages_of(ng) == pages_of(og) + mp0.intersect(w) && nh == oh
    }
}

/// Every present page lies in a mapping and allows no access that the mapping's flags forbid.
pub open spec fn vmem_ok(vm: Map<usize, Pte>, mv: Map<usize, MappingView>) -> bool {
    forall|p: usize| #[trigger] vm.contains_key(p) ==> match page_view(mv, p as int) {
        Some((f, _)) => (vm[p].write ==> f & MAPPING_FLAG_WRITE != 0) && (vm[p].user ==> f & MAPPING_FLAG_USER != 0),
        None => false,
    }
}

/// Page `q` is mapped, writable if `write` is set and accessible from userspace if `user`
/// is set.
pub open spec fn page_allows(mv: Map<usize, MappingView>, q: int, user: bool, write: bool) -> bool {
    match page_view(mv, q) {
        Some((f, _)) => (write ==> f & MAPPING_FLAG_WRITE != 0) && (user ==> f & MAPPING_FLAG_USER != 0),
        None => false,
    }
}

/// The pages `lo .. hi`.
pub open spec fn page_range(lo: int, hi: int) -> Set<usize> {
    Set::new(|p: usize| lo <= p < hi)
}

/// Removes the page-table entries of the pages `lo .. hi`, releasing their frames through the
/// residences of the mappings of `st` that hold them.
fn drop_pages(vmem: &mut VMem, st: &MemSpaceState, lo: usize, hi: usize, phys: &mut PhysMem)
    requires
        old(phys).wf(),
        lo <= hi,
    ensures
        final(phys).wf(),
        final(vmem)@ == old(vmem)@.remove_keys(page_range(lo as int, hi as int)),
        final(phys).available() >= old(phys).available(),
{
    let mut p = lo;
    while p < hi
        invariant
            lo <= p <= hi,
            phys.wf(),
            vmem@ == old(vmem)@.remove_keys(page_range(lo as int, p as int)),
            phys.available() >= old(phys).available(),
        decreases hi - p,
    {
        if let Some(pte) = vmem.unmap(p) {
            if let Some(k) = st.get_mapping_for_ptr(p) {
                if let Some(m) = st.mappings.get(&k) {
                    m.residence.free_page(p - k, pte.frame, phys);
                }
            }
        }
        assert(vmem@ =~= old(vmem)@.remove_keys(page_range(lo as int, p + 1)));
        p = p + 1;
    }
}


/// The flags of page `y` once `set_prot` has given `prot` to the pages `w`.
pub open spec fn prot_view(mv: Map<usize, MappingView>, w: Set<int>, prot: u8, y: int) -> Option<(u8, ResidenceView)> {
    match page_view(mv, y) {
        Some((f, res)) => if w.contains(y) { Some((prot, res)) } else { Some((f, res)) },
        None => None,
    }
}

/// The mapping is shared with a file that may not be written.
pub open spec fn write_denied(m: MappingView, writable: Seq<FileLocation>) -> bool {
    &&& m.flags & MAPPING_FLAG_SHARED != 0
    &&& m.residence matches ResidenceView::File(loc, _)
    &&& !writable.contains(loc)
}

/// The mapping beginning at page `k` holds pages of `lo .. hi` and is shared with a file that
/// may not be written.
pub open spec fn denied_at(mv: Map<usize, MappingView>, k: usize, lo: int, hi: int, writable: Seq<FileLocation>) -> bool {
    mv.contains_key(k) && !outside(mv, k, lo, hi) && write_denied(mv[k], writable)
}

/// Every page of `k .. k + n` present in `vm` is present in `cv`.
pub open spec fn copied(vm: Map<usize, Pte>, cv: Map<usize, Pte>, k: usize, n: usize) -> bool {
    forall|q: usize| k <= q < k + n && #[trigger] vm.contains_key(q) ==> cv.contains_key(q)
}

/// Page `q` is the only present page whose frame is `f`.
pub open spec fn sole_page(vm: Map<usize, Pte>, q: usize, f: usize) -> bool {
    &&& vm.contains_key(q)
    &&& vm[q].frame == f
    &&& forall|q2: usize| #[trigger] vm.contains_key(q2) && q2 != q ==> vm[q2].frame != f
}

/// No present page has frame `f`.
pub open spec fn unused_frame(vm: Map<usize, Pte>, f: usize) -> bool {
    forall|q: usize| #[trigger] vm.contains_key(q) ==> vm[q].frame != f
}

/// The count of frame `f` is `c0(f)`, plus one when its only page `q` has been copied to `cv`.
pub open spec fn fork_count(vm: Map<usize, Pte>, cv: Map<usize, Pte>, c0: Map<usize, usize>, c: Map<usize, usize>) -> bool {
    &&& forall|q: usize, f: usize| #![trigger sole_page(vm, q, f)] sole_page(vm, q, f) && c0.contains_key(f) && c0[f] < usize::MAX
        ==> c.contains_key(f) && c[f] == c0[f] + if cv.contains_key(q) { 1int } else { 0int }
    &&& forall|f: usize| #![trigger unused_frame(vm, f)] unused_frame(vm, f) ==> (c.contains_key(f) <==> c0.contains_key(f))
        && (c0.contains_key(f) ==> c[f] == c0[f])
}

/// Page `q` belongs to a shared mapping, whose frames are not copied on write.
pub open spec fn shared_page(mv: Map<usize, MappingView>, q: usize) -> bool {
    page_view(mv, q as int) matches Some((f, _)) && f & MAPPING_FLAG_SHARED != 0
}

/// The first page-aligned address at or above `addr`.
pub open spec fn align_up(addr: usize) -> int {
    (addr + PAGE_SIZE - 1) / PAGE_SIZE as int * PAGE_SIZE
}

/// A virtual memory space.
pub struct MemSpace {
    /// The state of the memory space's mapped regions and free gaps.
    state: MemSpaceState,
    /// The number of used virtual memory pages.
    vmem_usage: usize,
    /// The initial pointer of the `brk` system call.
    brk_init: usize,
    /// The current pointer of the `brk` system call.
    brk_ptr: usize,
    /// The index allocations that may still succeed.
    budget: AllocBudget,
    /// The pages that are neither free nor mapped: those given back by the heap.
    holes: Ghost<Set<int>>,
    /// The page-table context.
    vmem: VMem,
}

impl MemSpace {
    /// The gaps, by first page, with their size in pages.
    pub closed spec fn gaps(&self) -> Map<usize, usize> {
        self.state.gaps@
    }

    /// The by-size gap index, as `(size, first page)` pairs.
    pub closed spec fn gaps_by_size(&self) -> Set<(usize, usize)> {
        self.state.gaps_size@.dom()
    }

    /// The mappings, by first page.
    pub closed spec fn mappings(&self) -> Map<usize, MappingView> {
        views(self.state.mappings@)
    }

    /// The pages of the process-reachable range that are neither free nor mapped.
    pub closed spec fn holes(&self) -> Set<int> {
        self.holes@
    }

    /// The number of used virtual memory pages.
    pub closed spec fn usage(&self) -> nat {
        self.vmem_usage as nat
    }

    /// The initial pointer of the `brk` system call.
    pub closed spec fn brk_init(&self) -> usize {
        self.brk_init
    }

    /// The current pointer of the `brk` system call.
    pub closed spec fn brk_ptr(&self) -> usize {
        self.brk_ptr
    }

    /// The page-table entries, by virtual page.
    pub closed spec fn ptes(&self) -> Map<usize, Pte> {
        self.vmem@
    }

    /// The index allocations that may still succeed.
    pub closed spec fn alloc_limit(&self) -> Option<usize> {
        self.budget.left
    }

    /// The invariant of a memory space.
    pub closed spec fn wf(&self) -> bool {
        &&& self.state.wf()
        &&& layout_ok(self.state.gaps@, msz(self.mappings()), self.holes@)
        &&& records_ok(self.mappings())
        &&& self.vmem_usage == pages_of(msz(self.mappings())).len()
        &&& self.brk_init <= self.brk_ptr <= PROCESS_END
        &&& vmem_ok(self.vmem@, self.mappings())
    }

    /// The two memory spaces hold the same gaps, mappings and counters.
    pub open spec fn same_as(&self, o: &MemSpace) -> bool {
        &&& self.gaps() == o.gaps()
        &&& self.gaps_by_size() == o.gaps_by_size()
        &&& self.mappings() == o.mappings()
        &&& self.holes() == o.holes()
        &&& self.usage() == o.usage()
        &&& self.brk_init() == o.brk_init()
        &&& self.brk_ptr() == o.brk_ptr()
    }

    /// The invariant unfolded: gaps and mappings lie in the process-reachable range, share no
    /// page, cover it together with the holes, no two gaps touch, the by-size index mirrors the
    /// gaps and the usage counts the mapped pages.
    pub proof fn lemma_wf(&self)
        requires
            self.wf(),
        ensures
            layout_ok(self.gaps(), msz(self.mappings()), self.holes()),
            records_ok(self.mappings()),
            self.usage() == pages_of(msz(self.mappings())).len(),
            pages_of(msz(self.mappings())).finite(),
            forall|s: usize, b: usize| #[trigger] self.gaps_by_size().contains((s, b))
                <==> self.gaps().contains_key(b) && self.gaps()[b] == s,
            self.brk_init() <= self.brk_ptr() <= PROCESS_END,
            vmem_ok(self.ptes(), self.mappings()),
    {
        lemma_pages_finite(msz(self.mappings()), self.gaps(), self.holes());
    }

    /// Creates a new memory space, with one gap over the whole process-reachable range.
    pub fn new() -> (r: Self)
        ensures
            r.wf(),
            r.gaps() == Map::<usize, usize>::empty().insert(FIRST_PAGE, (END_PAGE - FIRST_PAGE) as usize),
            r.mappings() == Map::<usize, MappingView>::empty(),
            r.holes() == Set::<int>::empty(),
            r.usage() == 0,
            r.brk_init() == 0 && r.brk_ptr() == 0,
            r.alloc_limit() is None,
            r.ptes() == Map::<usize, Pte>::empty(),
    {
        let mut state = MemSpaceState::new();
        let mut budget = AllocBudget { left: None };
        let res = state.insert_gap(FIRST_PAGE, END_PAGE - FIRST_PAGE, &mut budget);
        assert(res is Ok);
        let ghost g = state.gaps@;
        proof {
            let e = Map::<usize, usize>::empty();
            assert(pages_of(e) =~= Set::<int>::empty());
            crate::layout::lemma_pages_insert(e, FIRST_PAGE, (END_PAGE - FIRST_PAGE) as usize);
            assert(pages_of(msz(views(state.mappings@))) =~= Set::<int>::empty());
            assert(pages_of(g) + Set::<int>::empty() + Set::<int>::empty() =~= crate::layout::region());
            assert(Set::<int>::empty().len() == 0);
        }
        MemSpace { state, vmem_usage: 0, brk_init: 0, brk_ptr: 0, budget, holes: Ghost(Set::empty()), vmem: VMem::new() }
    }

    /// Limits the index allocations that may still succeed (`None`: no limit).
    pub fn set_alloc_limit(&mut self, limit: Option<usize>)
        ensures
            final(self).same_as(old(self)),
            final(self).wf() == old(self).wf(),
            final(self).alloc_limit() == limit,
    {
        self.budget.left = limit;
    }


    /// Maps `size` pages with the given flags and residence, at an address chosen as the
    /// constraint says, and returns that address.
    ///
    /// Nothing is changed on failure: `EINVAL` for a size of zero, an invalid constraint, a fixed
    /// range outside the process-reachable range or a residence whose offsets would overflow;
    /// `ENOMEM` when no gap is large enough (but for a fixed address, which makes room by
    /// unmapping what lies there) or an index allocation fails.
    #[verifier::rlimit(60)]
    pub fn map(
        &mut self, map_constraint: MapConstraint, size: usize, flags: u8, residence: MapResidence, phys: &mut PhysMem,
    ) -> (r: Result<usize, Errno>)
        requires
            old(self).wf(),
            old(phys).wf(),
        ensures
            final(self).wf(),
            final(phys).wf(),
            r is Err ==> final(self).ptes() == old(self).ptes(),
            r matches Ok(addr) ==> forall|p: usize| #[trigger] final(self).ptes().contains_key(p)
                && !(page_of(addr) <= p < page_of(addr) + size) ==> old(self).ptes().contains_key(p)
                && final(self).ptes()[p] == old(self).ptes()[p],
            r matches Ok(addr) ==> forall|p: usize| #[trigger] old(self).ptes().contains_key(p)
                && !(page_of(addr) <= p < page_of(addr) + size) ==> final(self).ptes().contains_key(p),
            r matches Ok(addr) ==> (flags & MAPPING_FLAG_NOLAZY == 0 ==> forall|p: usize|
                page_of(addr) <= p < page_of(addr) + size ==> !#[trigger] final(self).ptes().contains_key(p)),
            !map_args_ok(map_constraint, size, residence@) <==> r == Err::<usize, Errno>(Errno::EINVAL),
            r is Err ==> final(self).same_as(old(self)),
            r is Err ==> r == Err::<usize, Errno>(Errno::EINVAL) || r == Err::<usize, Errno>(Errno::ENOMEM),
            map_args_ok(map_constraint, size, residence@) && !(map_constraint is Fixed) && !has_fit(old(self).gaps(), size as int)
                ==> r == Err::<usize, Errno>(Errno::ENOMEM),
            map_args_ok(map_constraint, size, residence@) && old(self).alloc_limit() is None
                && (map_constraint is Fixed || has_fit(old(self).gaps(), size as int))
                && (flags & MAPPING_FLAG_NOLAZY != 0 ==> old(phys).available() >= size) ==> r is Ok,
            r matches Ok(addr) ==> map_done(*old(self), *final(self), map_constraint, size, flags, residence@, addr),
            final(self).brk_init() == old(self).brk_init() && final(self).brk_ptr() == old(self).brk_ptr(),
            old(self).alloc_limit() is None ==> final(self).alloc_limit() is None,
            map_args_ok(map_constraint, size, residence@) && old(self).alloc_limit() == Some(0usize)
                ==> r == Err::<usize, Errno>(Errno::ENOMEM),
            map_args_ok(map_constraint, size, residence@) && map_constraint is Any
                && (old(self).alloc_limit() matches Some(k) && k < 3)
                && (forall|b: usize| is_best_fit(old(self).gaps(), size as int, b) ==> #[trigger] old(self).gaps()[b] > size)
                ==> r == Err::<usize, Errno>(Errno::ENOMEM),
            map_args_ok(map_constraint, size, residence@) && flags & MAPPING_FLAG_NOLAZY != 0 && old(phys).available() < size
                ==> r == Err::<usize, Errno>(Errno::ENOMEM),
            r is Err ==> *final(phys) == *old(phys),
            !(map_constraint is Fixed) && flags & MAPPING_FLAG_NOLAZY == 0 ==> *final(phys) == *old(phys),
            r matches Ok(addr) ==> (flags & MAPPING_FLAG_NOLAZY != 0 ==> forall|p: usize|
                page_of(addr) <= p < page_of(addr) + size ==> #[trigger] final(self).ptes().contains_key(p)),
    {
        if size == 0 || !map_constraint.is_valid() || !residence_fits(&residence, size) {
            return Err(Errno::EINVAL);
        }
        if let MapConstraint::Fixed(addr) = map_constraint {
            if addr / PAGE_SIZE < FIRST_PAGE || size > END_PAGE - addr / PAGE_SIZE {
                return Err(Errno::EINVAL);
            }
        }
        if flags & MAPPING_FLAG_NOLAZY != 0 && phys.available_frames() < size {
            return Err(Errno::ENOMEM);
        }
        let ghost old_self = *old(self);
        let ghost x0 = self.holes@;
        let ghost mv0 = self.mappings();
        let ghost g0 = self.state.gaps@;
        proof { self.lemma_wf(); }
        let mut transaction = MemSpaceTransaction::begin(&self.state);
        let a: usize;
        let mut usage: usize = self.vmem_usage;
        match map_constraint {
            MapConstraint::Fixed(addr) => {
                a = addr / PAGE_SIZE;
                if a < FIRST_PAGE || size > END_PAGE - a {
                    return Err(Errno::EINVAL);
                }
                let ghost st_b = transaction.buffer_state;
                usage = unmap_impl(&mut transaction.buffer_state, a, a + size, Release::Clear, usage, &mut self.budget, Ghost(x0))?;
                proof {
                    let w = span(a as int, size as int);
                    let mp0 = pages_of(msz(mv0));
                    let gp0 = pages_of(g0);
                    assert(w <= crate::layout::region());
                    assert(gp0 + mp0 + x0 == crate::layout::region());
                    assert(x0 + mp0.intersect(w) + gp0.intersect(w) =~= x0 + w);
                    if w <= gp0 {
                        assert(mapped_pages(st_b) =~= mp0);
                        lemma_unmapped_nothing(transaction.buffer_state, st_b, x0, a as int, a + size, Release::Clear);
                    }
                }
            },
            _ => {
                let mut target: Option<(usize, usize)> = None;
                if let MapConstraint::Hint(addr) = map_constraint {
                    let h = addr / PAGE_SIZE;
                    if let Some((gb, gs)) = self.state.get_gap_for_ptr(h) {
                        assert(g0.contains_key(gb));
                        if size <= gb + gs - h {
                            target = Some((gb, h));
                        }
                    }
                    proof {
                        if target is None && hint_fits(g0, h as int, size as int) {
                            let b = choose|b: usize| #[trigger] covers(g0, b, h as int) && h + size <= b + g0[b];
                            assert(pages_of(g0).contains(h as int));
                        }
                    }
                }
                if target.is_none() {
                    match self.state.get_gap(size) {
                        Some((gb, gs)) => { target = Some((gb, gb)); },
                        None => { return Err(Errno::ENOMEM); },
                    }
                }
                let (gb, b) = target.unwrap();
                assert(g0.contains_key(gb));
                trim_gap(&mut transaction.buffer_state, gb, b, b + size, &mut self.budget, Ghost(x0))?;
                a = b;
                proof {
                    let w = span(a as int, size as int);
                    assert forall|y: int| w.contains(y) implies pages_of(g0).contains(y) by {
                        assert(covers(g0, gb, y));
                    }
                    assert(!x0.contains(a as int)) by { assert(pages_of(g0).contains(a as int)); }
                }
            },
        }
        let ghost st1 = transaction.buffer_state;
        let ghost mv1 = views(st1.mappings@);
        let ghost w = span(a as int, size as int);
        let ghost m = MappingView { size, flags, residence: residence@ };
        proof {
            assert(w <= if map_constraint is Fixed { x0 + w } else { x0 + w });
            assert(!mv1.contains_key(a)) by {
                if mv1.contains_key(a) {
                    assert(covers(msz(mv1), a, a as int));
                    assert(pages_of(msz(mv1)).contains(a as int));
                }
            }
            lemma_layout_add_mapping(st1.gaps@, msz(mv1), x0 + w, a, size);
            lemma_pages_finite(msz(mv1), st1.gaps@, x0 + w);
            vstd::set_lib::lemma_int_range(a as int, a + size);
            vstd::set_lib::lemma_set_disjoint_lens(pages_of(msz(mv1)), w);
            vstd::set_lib::lemma_int_range(FIRST_PAGE as int, END_PAGE as int);
            vstd::set_lib::lemma_len_subset(pages_of(msz(mv1)) + w, crate::layout::region());
        }
        let mapping = MemMapping { size, flags, residence };
        transaction.buffer_state.insert_mapping(a, mapping, &mut self.budget)?;
        proof {
            let mv2 = views(transaction.buffer_state.mappings@);
            assert(mv2 =~= mv1.insert(a, m));
            assert(msz(mv2) =~= msz(mv1).insert(a, size));
            assert(x0 + w - w =~= x0 - w);
            assert forall|y: int| #[trigger] page_view(mv2, y) == if w.contains(y) {
                Some((flags, shift(residence@, y - a)))
            } else {
                page_view(mv0, y)
            } by {
                lemma_page_view_insert(mv1, a, m, y);
            }
            if !(map_constraint is Fixed) || w <= pages_of(g0) {
                assert(mv1 == mv0);
                assert(pages_of(msz(mv0)).disjoint(w));
                assert(x0 - w =~= x0);
            }
        }
        let ghost vm0 = self.vmem@;
        if let MapConstraint::Fixed(_) = map_constraint {
            drop_pages(&mut self.vmem, &self.state, a, a + size, phys);
        } else {
            proof {
                assert forall|q: usize| #[trigger] vm0.contains_key(q) implies !w.contains(q as int) by {
                    if w.contains(q as int) {
                        crate::model::lemma_page_view_none(mv0, q as int);
                    }
                }
            }
        }
        let ghost vm1 = self.vmem@;
        transaction.commit(&mut self.state);
        self.vmem_usage = usage + size;
        self.holes = Ghost(x0 - w);
        proof {
            assert forall|q: usize| #[trigger] vm1.contains_key(q) implies !w.contains(q as int) && vm0.contains_key(q)
                && vm1[q] == vm0[q] by {
                if !(map_constraint is Fixed) {
                    assert(!w.contains(q as int));
                }
            }
            assert(vmem_ok(self.vmem@, self.mappings()));
            assert forall|q: usize| #[trigger] vm0.contains_key(q) && !(a <= q < a + size) implies vm1.contains_key(q) by {
                if map_constraint is Fixed {
                    assert(!page_range(a as int, a + size).contains(q));
                }
            }
        }
        let ghost mid = *self;
        if flags & MAPPING_FLAG_NOLAZY != 0 {
            let res = self.materialize(a, size, phys);
            assert(res is Ok);
        }
        assert forall|q: usize| #[trigger] old(self).ptes().contains_key(q) && !(a <= q < a + size)
            implies self.ptes().contains_key(q) by {
            assert(vm0.contains_key(q));
            assert(vm1.contains_key(q));
            assert(mid.ptes().contains_key(q));
        }
        proof {
            assert(crate::residence::fits(residence@, size as int));
            assert(aligned((a * PAGE_SIZE) as usize)) by {
                assert((a * 4096) % 4096 == 0) by (nonlinear_arith);
            }
            assert(page_of((a * PAGE_SIZE) as usize) == a) by {
                assert((a * 4096) / 4096 == a) by (nonlinear_arith);
            }
        }
        let addr = page_addr(a);
        proof {
            if let MapConstraint::Fixed(x) = map_constraint {
                assert(x == (x / 4096) * 4096) by (nonlinear_arith) requires x % 4096 == 0;
            }
            if let MapConstraint::Hint(x) = map_constraint {
                assert(x % 4096 == 0 ==> x == (x / 4096) * 4096) by (nonlinear_arith);
            }
        }
        Ok(addr)
    }


    /// Unmaps the pages of `size` pages beginning at address `ptr` that lie in the
    /// process-reachable range. Freed pages become gaps merged with their neighbours, unless
    /// `brk` is set: the heap gives them back without creating gaps.
    ///
    /// Nothing is changed on failure: `EINVAL` for an unaligned address or a size of zero,
    /// `ENOMEM` when an index allocation fails.
    pub fn unmap(&mut self, ptr: usize, size: usize, brk: bool, phys: &mut PhysMem) -> (r: Result<(), Errno>)
        requires
            old(self).wf(),
            old(phys).wf(),
        ensures
            final(self).wf(),
            final(phys).wf(),
            r is Err ==> final(self).ptes() == old(self).ptes(),
            r is Ok ==> final(self).ptes() == old(self).ptes().remove_keys(
                page_range(unmap_bounds(ptr, size).0, unmap_bounds(ptr, size).1)),
            (!aligned(ptr) || size == 0) <==> r == Err::<(), Errno>(Errno::EINVAL),
            r is Err ==> final(self).same_as(old(self)),
            r is Err ==> r == Err::<(), Errno>(Errno::EINVAL) || r == Err::<(), Errno>(Errno::ENOMEM),
            aligned(ptr) && size > 0 && old(self).alloc_limit() is None ==> r is Ok,
            r is Ok ==> unmap_done(*old(self), *final(self), ptr, size, brk),
            final(self).brk_init() == old(self).brk_init() && final(self).brk_ptr() == old(self).brk_ptr(),
            old(self).alloc_limit() is None ==> final(self).alloc_limit() is None,
            aligned(ptr) && size > 0 && span(unmap_bounds(ptr, size).0, unmap_bounds(ptr, size).1 - unmap_bounds(ptr, size).0)
                .disjoint(pages_of(msz(old(self).mappings()))) ==> r is Ok && final(self).alloc_limit() == old(self).alloc_limit(),
            aligned(ptr) && size > 0 && !brk && old(self).alloc_limit() == Some(0usize)
                && !span(unmap_bounds(ptr, size).0, unmap_bounds(ptr, size).1 - unmap_bounds(ptr, size).0)
                .disjoint(pages_of(msz(old(self).mappings()))) ==> r == Err::<(), Errno>(Errno::ENOMEM),
    {
        if ptr % PAGE_SIZE != 0 || size == 0 {
            return Err(Errno::EINVAL);
        }
        let a = ptr / PAGE_SIZE;
        let lo = if a < FIRST_PAGE { FIRST_PAGE } else { a };
        let hi = if a >= END_PAGE || size > END_PAGE - a { END_PAGE } else { a + size };
        if lo >= hi {
            assert(self.vmem@.remove_keys(page_range(lo as int, hi as int)) =~= self.vmem@);
            assert(span(lo as int, hi - lo) =~= Set::<int>::empty());
            return Ok(());
        }
        let ghost x0 = self.holes@;
        let ghost mp0 = pages_of(msz(self.mappings()));
        proof { self.lemma_wf(); }
        let mode = if brk { Release::Brk } else { Release::Free };
        let mut transaction = MemSpaceTransaction::begin(&self.state);
        let usage = unmap_impl(&mut transaction.buffer_state, lo, hi, mode, self.vmem_usage, &mut self.budget, Ghost(x0))?;
        drop_pages(&mut self.vmem, &self.state, lo, hi, phys);
        transaction.commit(&mut self.state);
        self.vmem_usage = usage;
        self.holes = Ghost(if brk { x0 + mp0.intersect(span(lo as int, hi - lo)) } else { x0 });
        Ok(())
    }


    /// Same as `map` with no constraint and a normal residence, except that the function
    /// returns the address of the end of the new mapping.
    pub fn map_stack(&mut self, size: usize, flags: u8, phys: &mut PhysMem) -> (r: Result<usize, Errno>)
        requires
            old(self).wf(),
            old(phys).wf(),
        ensures
            final(self).wf(),
            final(phys).wf(),
            size == 0 <==> r == Err::<usize, Errno>(Errno::EINVAL),
            r is Err ==> final(self).same_as(old(self)),
            0 < size && !has_fit(old(self).gaps(), size as int) ==> r == Err::<usize, Errno>(Errno::ENOMEM),
            0 < size && old(self).alloc_limit() is None && has_fit(old(self).gaps(), size as int)
                && (flags & MAPPING_FLAG_NOLAZY != 0 ==> old(phys).available() >= size) ==> r is Ok,
            old(self).alloc_limit() is None ==> final(self).alloc_limit() is None,
            r matches Ok(end) ==> end >= size * PAGE_SIZE && map_done(*old(self), *final(self), MapConstraint::Any, size,
                flags, ResidenceView::Normal, (end - size * PAGE_SIZE) as usize),
    {
        let addr = self.map(MapConstraint::Any, size, flags, MapResidence::Normal, phys)?;
        proof {
            self.lemma_wf();
            assert(crate::layout::region().contains(page_of(addr) + size - 1));
            assert(addr == page_of(addr) * 4096) by (nonlinear_arith) requires aligned(addr), page_of(addr) == addr / 4096;
        }
        Ok(addr + size * PAGE_SIZE)
    }

    /// Same as `unmap`, except that the function takes the address of the end of the range.
    pub fn unmap_stack(&mut self, ptr: usize, size: usize, phys: &mut PhysMem) -> (r: Result<(), Errno>)
        requires
            old(self).wf(),
            old(phys).wf(),
        ensures
            final(self).wf(),
            final(phys).wf(),
            r is Err ==> final(self).same_as(old(self)),
            (size > END_PAGE || ptr < size * PAGE_SIZE) ==> r == Err::<(), Errno>(Errno::EINVAL),
            r is Ok ==> unmap_done(*old(self), *final(self), (ptr - size * PAGE_SIZE) as usize, size, false),
            old(self).alloc_limit() is None ==> final(self).alloc_limit() is None,
            0 < size <= END_PAGE && size * PAGE_SIZE <= ptr && aligned(ptr) && old(self).alloc_limit() is None ==> r is Ok,
    {
        if size > END_PAGE || ptr < size * PAGE_SIZE {
            return Err(Errno::EINVAL);
        }
        self.unmap(ptr - size * PAGE_SIZE, size, false, phys)
    }


    /// Whether one of the mappings holding pages of `lo .. hi` is shared with a file that is
    /// not in `writable`.
    fn denied_in(&self, lo: usize, hi: usize, writable: &Vec<FileLocation>) -> (r: bool)
        requires
            self.wf(),
        ensures
            r <==> exists|k: usize| denied_at(self.mappings(), k, lo as int, hi as int, writable@),
    {
        for kv in it: self.state.mappings.iter()
            invariant
                self.wf(),
                forall|j: int| 0 <= j < it.index() ==> !denied_at(self.mappings(), *it.seq()[j].0, lo as int, hi as int, writable@),
        {
            let (k, m) = kv;
            proof { self.lemma_wf(); }
            assert(self.state.mappings@.contains_key(*k) && self.state.mappings@[*k] == *m);
            assert(msz(self.mappings()).contains_key(*k));
            let touches = !(*k + m.size <= lo || *k >= hi);
            if touches && m.flags & MAPPING_FLAG_SHARED != 0 {
                if let MapResidence::File { location, .. } = &m.residence {
                    let mut found = false;
                    let mut i: usize = 0;
                    while i < writable.len()
                        invariant
                            i <= writable@.len(),
                            found <==> exists|j: int| 0 <= j < i && writable@[j] == *location,
                        decreases writable@.len() - i,
                    {
                        if writable[i] == *location {
                            found = true;
                        }
                        i += 1;
                    }
                    if !found {
                        assert(denied_at(self.mappings(), *k, lo as int, hi as int, writable@));
                        return true;
                    }
                }
            }
        }
        false
    }

    /// Sets the protection of the `len` bytes beginning at address `addr` to the mapping flags
    /// `prot`, splitting the mappings at the range's boundaries. `writable` lists the files that
    /// the caller's access profile may write.
    ///
    /// Nothing is changed on failure: `EINVAL` for an unaligned address, `EACCES` when `prot`
    /// asks for writing to a shared mapping of a file not in `writable`, `ENOMEM` when an index
    /// allocation fails. Page-table entries lose the access that `prot` no longer allows.
    #[verifier::rlimit(60)]
    pub fn set_prot(&mut self, addr: usize, len: usize, prot: u8, writable: &Vec<FileLocation>) -> (r: Result<(), Errno>)
        requires
            old(self).wf(),
        ensures
            final(self).wf(),
            !aligned(addr) <==> r == Err::<(), Errno>(Errno::EINVAL),
            r is Err ==> final(self).same_as(old(self)) && final(self).ptes() == old(self).ptes(),
            ({
                let (lo, hi) = unmap_bounds(addr, (len + PAGE_SIZE - 1) as usize / PAGE_SIZE);
                &&& aligned(addr) && len <= usize::MAX - PAGE_SIZE && prot & MAPPING_FLAG_WRITE != 0 && lo < hi
                    && (exists|k: usize| denied_at(old(self).mappings(), k, lo, hi, writable@))
                    ==> r == Err::<(), Errno>(Errno::EACCES)
                &&& r is Ok && lo < hi ==> {
                    &&& forall|y: int| #[trigger] page_view(final(self).mappings(), y)
                        == prot_view(old(self).mappings(), span(lo, hi - lo), prot, y)
                    &&& forall|k: usize| #[trigger] old(self).mappings().contains_key(k) && outside(old(self).mappings(), k, lo, hi)
                        ==> final(self).mappings().contains_key(k) && final(self).mappings()[k] == old(self).mappings()[k]
                    &&& final(self).gaps() == old(self).gaps() && final(self).holes() == old(self).holes()
                    &&& final(self).usage() == old(self).usage()
                }
            }),
            ({
                let (lo, hi) = unmap_bounds(addr, (len + PAGE_SIZE - 1) as usize / PAGE_SIZE);
                &&& aligned(addr) && len <= usize::MAX - PAGE_SIZE && old(self).alloc_limit() is None
                    && !(prot & MAPPING_FLAG_WRITE != 0 && lo < hi && exists|k: usize| denied_at(old(self).mappings(), k, lo, hi, writable@))
                    ==> r is Ok
                &&& r == Err::<(), Errno>(Errno::EACCES) ==> aligned(addr) && len <= usize::MAX - PAGE_SIZE
                    && prot & MAPPING_FLAG_WRITE != 0 && lo < hi && exists|k: usize| denied_at(old(self).mappings(), k, lo, hi, writable@)
            }),
            old(self).alloc_limit() is None ==> final(self).alloc_limit() is None,
            r is Ok && len <= usize::MAX - PAGE_SIZE && unmap_bounds(addr, (len + PAGE_SIZE - 1) as usize / PAGE_SIZE).0
                >= unmap_bounds(addr, (len + PAGE_SIZE - 1) as usize / PAGE_SIZE).1 ==> final(self).same_as(old(self)),
            final(self).brk_init() == old(self).brk_init() && final(self).brk_ptr() == old(self).brk_ptr(),
    {
        if addr % PAGE_SIZE != 0 {
            return Err(Errno::EINVAL);
        }
        if len > usize::MAX - PAGE_SIZE {
            return Err(Errno::ENOMEM);
        }
        let size = (len + (PAGE_SIZE - 1)) / PAGE_SIZE;
        let a = addr / PAGE_SIZE;
        let lo = if a < FIRST_PAGE { FIRST_PAGE } else { a };
        let hi = if a >= END_PAGE || size > END_PAGE - a { END_PAGE } else { a + size };
        if lo >= hi {
            return Ok(());
        }
        if prot & MAPPING_FLAG_WRITE != 0 && self.denied_in(lo, hi, writable) {
            return Err(Errno::EACCES);
        }
        proof { self.lemma_wf(); }
        let ghost x0 = self.holes@;
        let ghost mv0 = self.mappings();
        let ghost g0 = self.state.gaps@;
        assert((lo as int, hi as int) == unmap_bounds(addr, (len + PAGE_SIZE - 1) as usize / PAGE_SIZE));
        let mut transaction = MemSpaceTransaction::begin(&self.state);
        let mut p = lo;
        while p < hi
            invariant
                FIRST_PAGE <= lo <= p <= hi <= END_PAGE,
                addr % PAGE_SIZE == 0,
                len <= usize::MAX - PAGE_SIZE,
                (lo as int, hi as int) == unmap_bounds(addr, (len + PAGE_SIZE - 1) as usize / PAGE_SIZE),
                prot & MAPPING_FLAG_WRITE != 0 ==> !exists|k: usize| denied_at(mv0, k, lo as int, hi as int, writable@),
                old(self).alloc_limit() is None ==> self.budget.left is None,
                self.wf(),
                self.same_as(old(self)),
                self.vmem@ == old(self).vmem@,
                self.state == old(self).state,
                self.holes@ == x0,
                self.vmem_usage == old(self).vmem_usage,
                mv0 == old(self).mappings(),
                transaction.buffer_state.wf(),
                transaction.buffer_state.gaps@ == g0,
                layout_ok(g0, msz(views(transaction.buffer_state.mappings@)), x0),
                records_ok(views(transaction.buffer_state.mappings@)),
                pages_of(msz(views(transaction.buffer_state.mappings@))) == pages_of(msz(mv0)),
                forall|y: int| #[trigger] page_view(views(transaction.buffer_state.mappings@), y)
                    == prot_view(mv0, span(lo as int, p - lo), prot, y),
                forall|k: usize| #[trigger] mv0.contains_key(k) && outside(mv0, k, lo as int, hi as int)
                    ==> views(transaction.buffer_state.mappings@).contains_key(k)
                    && views(transaction.buffer_state.mappings@)[k] == mv0[k],
            decreases hi - p,
        {
            let ghost mv = views(transaction.buffer_state.mappings@);
            let ghost done = span(lo as int, p - lo);
            match transaction.buffer_state.get_mapping_for_ptr(p) {
                Some(k) => {
                    let m = transaction.buffer_state.mappings.get(&k).unwrap();
                    assert(msz(mv).contains_key(k));
                    let size_k = m.size;
                    let q: usize = if k + size_k < hi { k + size_k } else { hi };
                    proof {
                        lemma_fits_shift(m.residence@, (p - k) as int, (k + size_k - p) as int);
                        lemma_fits_shift(shift(m.residence@, (p - k) as int), (q - p) as int, (k + size_k - q) as int);
                    }
                    let piece = MemMapping { size: q - p, flags: prot, residence: m.residence.shifted(p - k) };
                    let ghost pv = piece@;
                    proof {
                        assert(!outside(mv0, k, lo as int, hi as int) || !mv0.contains_key(k) || mv[k] != mv0[k]) by {
                            if mv0.contains_key(k) && outside(mv0, k, lo as int, hi as int) && mv[k] == mv0[k] {
                                assert(crate::layout::covers(msz(mv), k, p as int));
                            }
                        }
                        crate::model::lemma_cut_one(mv, k, p as int, q as int);
                    }
                    if cut_mapping(&mut transaction.buffer_state, k, p, q, &mut self.budget).is_err() {
                        return Err(Errno::ENOMEM);
                    }
                    let ghost mv1 = views(transaction.buffer_state.mappings@);
                    let ghost w = span(p as int, q - p);
                    assert(crate::model::window(mv, k, p as int, q as int) == w);
                    proof {
                        assert(!mv1.contains_key(p)) by {
                            if mv1.contains_key(p) {
                                assert(crate::layout::covers(msz(mv1), p, p as int));
                                assert(pages_of(msz(mv1)).contains(p as int));
                            }
                        }
                        assert(pages_of(g0) + pages_of(msz(mv1)) + (x0 + w) =~= crate::layout::region());
                        lemma_layout_add_mapping(g0, msz(mv1), x0 + w, p, (q - p) as usize);
                        assert(x0 + w - w =~= x0) by {
                            assert forall|y: int| w.contains(y) implies !x0.contains(y) by {
                                assert(pages_of(msz(mv)).contains(y));
                            }
                        }
                    }
                    if transaction.buffer_state.insert_mapping(p, piece, &mut self.budget).is_err() {
                        return Err(Errno::ENOMEM);
                    }
                    proof {
                        let mv2 = views(transaction.buffer_state.mappings@);
                        assert(mv2 =~= mv1.insert(p, pv));
                        assert(msz(mv2) =~= msz(mv1).insert(p, (q - p) as usize));
                        assert(pages_of(msz(mv2)) =~= pages_of(msz(mv0)));
                        let done2 = span(lo as int, q - lo);
                        assert forall|y: int| #[trigger] page_view(mv2, y) == prot_view(mv0, done2, prot, y) by {
                            crate::model::lemma_page_view_insert(mv1, p, pv, y);
                            if w.contains(y) {
                                assert(crate::layout::covers(msz(mv), k, y));
                                crate::model::lemma_page_view_at(mv, k, y);
                                lemma_shift_shift(mv[k].residence, (p - k) as int, y - p);
                                assert(page_view(mv, y) == prot_view(mv0, done, prot, y));
                            }
                        }
                        assert forall|j: usize| #[trigger] mv0.contains_key(j) && outside(mv0, j, lo as int, hi as int)
                            implies mv2.contains_key(j) && mv2[j] == mv0[j] by {
                            assert(mv.contains_key(j) && mv[j] == mv0[j]);
                            assert(j != k);
                            if j == p {
                                assert(crate::layout::covers(msz(mv), j, j as int));
                            }
                        }
                    }
                    p = q;
                },
                None => {
                    proof {
                        crate::model::lemma_page_view_none(mv, p as int);
                        let done2 = span(lo as int, p + 1 - lo);
                        assert forall|y: int| #[trigger] page_view(mv, y) == prot_view(mv0, done2, prot, y) by {
                            if y == p {
                                assert(page_view(mv0, y) == prot_view(mv0, done, prot, y) || true);
                            }
                        }
                    }
                    p = p + 1;
                },
            }
        }
        transaction.commit(&mut self.state);
        // the page-table entries lose the access that the new flags forbid
        let mut p = lo;
        let ghost vm0 = self.vmem@;
        assert(vmem_ok(vm0, mv0));
        let ghost mv_new = self.mappings();
        let ghost st_new = self.state;
        let ghost bl = self.budget.left;
        assert(forall|y: int| #[trigger] page_view(mv_new, y) == prot_view(mv0, span(lo as int, hi - lo), prot, y));
        assert(layout_ok(self.state.gaps@, msz(mv_new), self.holes@));
        assert(pages_of(msz(mv_new)) =~= pages_of(msz(mv0)));
        while p < hi
            invariant
                self.state == st_new,
                self.budget.left == bl,
                self.holes@ == x0,
                self.vmem_usage == old(self).vmem_usage,
                self.brk_init == old(self).brk_init && self.brk_ptr == old(self).brk_ptr,
                self.state.wf(),
                lo <= p <= hi,
                forall|q: usize| #[trigger] vm0.contains_key(q) <==> self.vmem@.contains_key(q),
                forall|q: usize| #[trigger] self.vmem@.contains_key(q) && !(lo <= q < p) ==> self.vmem@[q] == vm0[q],
                forall|q: usize| #[trigger] self.vmem@.contains_key(q) && lo <= q < p ==> self.vmem@[q].frame == vm0[q].frame
                    && (self.vmem@[q].write ==> prot & MAPPING_FLAG_WRITE != 0)
                    && (self.vmem@[q].user ==> prot & MAPPING_FLAG_USER != 0),
            decreases hi - p,
        {
            if let Some(e) = self.vmem.get(p) {
                let write = e.write && prot & MAPPING_FLAG_WRITE != 0;
                let user = e.user && prot & MAPPING_FLAG_USER != 0;
                self.vmem.map(p, Pte { frame: e.frame, write, user });
            }
            p = p + 1;
        }
        proof {
            let w = span(lo as int, hi - lo);
            assert forall|q: usize| #[trigger] self.vmem@.contains_key(q) implies match page_view(mv_new, q as int) {
                Some((f, _)) => (self.vmem@[q].write ==> f & MAPPING_FLAG_WRITE != 0) && (self.vmem@[q].user ==> f & MAPPING_FLAG_USER != 0),
                None => false,
            } by {
                assert(vm0.contains_key(q));
                assert(page_view(mv_new, q as int) == prot_view(mv0, w, prot, q as int));
            }
            assert(vmem_ok(self.vmem@, mv_new));
            assert(self.mappings() == mv_new);
        }
        Ok(())
    }

    /// Returns the pointer for the `brk` system call.
    pub fn get_brk_ptr(&self) -> (r: usize)
        ensures
            r == self.brk_ptr(),
    {
        self.brk_ptr
    }

    /// Sets the initial pointer for the `brk` system call, before the program starts.
    pub fn set_brk_init(&mut self, ptr: usize)
        requires
            old(self).wf(),
            aligned(ptr),
            ptr <= PROCESS_END,
        ensures
            final(self).wf(),
            final(self).brk_init() == ptr && final(self).brk_ptr() == ptr,
            final(self).gaps() == old(self).gaps() && final(self).mappings() == old(self).mappings(),
            final(self).gaps_by_size() == old(self).gaps_by_size(),
            final(self).holes() == old(self).holes() && final(self).usage() == old(self).usage(),
            final(self).ptes() == old(self).ptes(),
            final(self).alloc_limit() == old(self).alloc_limit(),
    {
        self.brk_init = ptr;
        self.brk_ptr = ptr;
    }

    /// Sets the pointer for the `brk` system call. Growing maps anonymous, writable user pages
    /// from the page-aligned current top; shrinking unmaps the pages above the new aligned top,
    /// without creating gaps.
    ///
    /// Nothing is changed on failure: `ENOMEM` for a pointer past the end of the
    /// process-reachable range or below the initial pointer, and the errors of `map` and
    /// `unmap`.
    pub fn set_brk_ptr(&mut self, ptr: usize, phys: &mut PhysMem) -> (r: Result<(), Errno>)
        requires
            old(self).wf(),
            old(phys).wf(),
        ensures
            final(self).wf(),
            final(phys).wf(),
            old(self).alloc_limit() is None ==> final(self).alloc_limit() is None,
            r is Err ==> final(self).same_as(old(self)),
            ptr > PROCESS_END ==> r == Err::<(), Errno>(Errno::ENOMEM),
            ptr < old(self).brk_ptr() && ptr < old(self).brk_init() ==> r == Err::<(), Errno>(Errno::ENOMEM),
            r is Ok ==> final(self).brk_ptr() == ptr && final(self).brk_init() == old(self).brk_init(),
            r is Ok && ptr >= old(self).brk_ptr() ==> {
                let begin = align_up(old(self).brk_ptr());
                let pages = (ptr - begin + PAGE_SIZE - 1) / PAGE_SIZE as int;
                if ptr > begin {
                    map_done(*old(self), *final(self), MapConstraint::Fixed(begin as usize), pages as usize,
                        crate::memory::MAPPING_FLAG_WRITE | crate::memory::MAPPING_FLAG_USER,
                        ResidenceView::Normal, begin as usize)
                } else {
                    final(self).gaps() == old(self).gaps() && final(self).mappings() == old(self).mappings()
                        && final(self).holes() == old(self).holes()
                }
            },
            r is Ok && ptr < old(self).brk_ptr() ==> {
                let begin = align_up(ptr);
                let top = align_up(old(self).brk_ptr());
                if top > begin {
                    unmap_done(*old(self), *final(self), begin as usize, ((top - begin) / PAGE_SIZE as int) as usize, true)
                } else {
                    final(self).gaps() == old(self).gaps() && final(self).mappings() == old(self).mappings()
                        && final(self).holes() == old(self).holes()
                }
            },
            old(self).alloc_limit() is None && old(self).brk_init() <= ptr <= PROCESS_END
                && (ptr > align_up(old(self).brk_ptr()) ==> FIRST_PAGE * PAGE_SIZE <= align_up(old(self).brk_ptr()))
                ==> r is Ok,
    {
        proof { self.lemma_wf(); }
        let cur = self.brk_ptr;
        if ptr >= cur {
            if ptr > PROCESS_END {
                return Err(Errno::ENOMEM);
            }
            let begin = (cur + (PAGE_SIZE - 1)) / PAGE_SIZE * PAGE_SIZE;
            if ptr > begin {
                let pages = (ptr - begin + (PAGE_SIZE - 1)) / PAGE_SIZE;
                proof {
                    assert(begin % 4096 == 0 && begin <= PROCESS_END && begin / 4096 * 4096 == begin) by (nonlinear_arith)
                        requires begin == (cur + 4095) / 4096 * 4096, cur <= PROCESS_END;
                    assert(pages > 0 && begin / 4096 + pages <= END_PAGE) by (nonlinear_arith)
                        requires pages == (ptr - begin + 4095) / 4096, begin % 4096 == 0, ptr > begin, ptr <= PROCESS_END;
                }
                let flags = crate::memory::MAPPING_FLAG_WRITE | crate::memory::MAPPING_FLAG_USER;
                assert((1u8 | 4u8) & 8u8 == 0u8) by (bit_vector);
                self.map(MapConstraint::Fixed(begin), pages, flags, MapResidence::Normal, phys)?;
            }
        } else {
            if ptr < self.brk_init {
                return Err(Errno::ENOMEM);
            }
            let begin = (ptr + (PAGE_SIZE - 1)) / PAGE_SIZE * PAGE_SIZE;
            let top = (cur + (PAGE_SIZE - 1)) / PAGE_SIZE * PAGE_SIZE;
            proof {
                assert(begin % 4096 == 0 && top % 4096 == 0 && begin <= top) by (nonlinear_arith)
                    requires begin == (ptr + 4095) / 4096 * 4096, top == (cur + 4095) / 4096 * 4096, ptr < cur;
            }
            if top > begin {
                self.unmap(begin, (top - begin) / PAGE_SIZE, true, phys)?;
            }
        }
        self.brk_ptr = ptr;
        Ok(())
    }


    /// Resolves a page fault at `virt_addr` with the given fault code, and tells whether the
    /// process may continue.
    ///
    /// It may not (`Ok(false)`) when no mapping holds the page, when the fault is a write and the
    /// mapping is not writable, or when the fault comes from userspace and the mapping is not
    /// accessible from there. Otherwise the page gets a frame from its residence, and a write to
    /// a page whose frame is shared with another private mapping gets a copy of its own. When no
    /// frame can be had, nothing changes and `ENOMEM` tells the caller to retry once memory has
    /// been freed.
    pub fn handle_page_fault(&mut self, virt_addr: usize, code: u32, phys: &mut PhysMem) -> (r: Result<bool, Errno>)
        requires
            old(self).wf(),
            old(phys).wf(),
        ensures
            final(self).wf(),
            final(phys).wf(),
            final(self).same_as(old(self)),
            final(self).alloc_limit() == old(self).alloc_limit(),
            page_view(old(self).mappings(), page_of(virt_addr)) is None ==> r == Ok::<bool, Errno>(false),
            page_view(old(self).mappings(), page_of(virt_addr)) matches Some((f, _)) ==> {
                &&& code & PAGE_FAULT_WRITE != 0 && f & MAPPING_FLAG_WRITE == 0 ==> r == Ok::<bool, Errno>(false)
                &&& code & PAGE_FAULT_USER != 0 && f & MAPPING_FLAG_USER == 0 ==> r == Ok::<bool, Errno>(false)
                &&& !(code & PAGE_FAULT_WRITE != 0 && f & MAPPING_FLAG_WRITE == 0)
                    && !(code & PAGE_FAULT_USER != 0 && f & MAPPING_FLAG_USER == 0) ==> r is Err || r == Ok::<bool, Errno>(true)
            },
            old(phys).available() > 0 ==> r is Ok,
            r is Err ==> r == Err::<bool, Errno>(Errno::ENOMEM) && old(phys).available() == 0
                && final(phys).ref_counts() == old(phys).ref_counts() && final(phys).available() == old(phys).available(),
            r != Ok::<bool, Errno>(true) ==> final(self).ptes() == old(self).ptes(),
            r == Ok::<bool, Errno>(true) ==> final(self).ptes().contains_key(page_of(virt_addr) as usize),
            r == Ok::<bool, Errno>(true) && code & PAGE_FAULT_WRITE != 0 ==> final(self).ptes()[page_of(virt_addr) as usize].write,
            r == Ok::<bool, Errno>(true) ==> final(self).ptes().remove(page_of(virt_addr) as usize)
                == old(self).ptes().remove(page_of(virt_addr) as usize),
            ({
                let p = page_of(virt_addr) as usize;
                let res = page_view(old(self).mappings(), p as int).unwrap().1;
                let e = final(self).ptes()[p];
                r == Ok::<bool, Errno>(true) && !old(self).ptes().contains_key(p) ==> {
                    &&& (static_frame(res, 0) matches Some(sf) ==> (!(code & PAGE_FAULT_WRITE != 0 && !shared_page(old(self).mappings(), p))
                        ==> e.frame == sf && final(phys).ref_counts() == old(phys).ref_counts()))
                    &&& (static_frame(res, 0) is None || (code & PAGE_FAULT_WRITE != 0 && !shared_page(old(self).mappings(), p)))
                        ==> old(phys).count(e.frame) == 0 && final(phys).ref_counts() == old(phys).ref_counts().insert(e.frame, 1)
                }
            }),
            ({
                let p = page_of(virt_addr) as usize;
                let f0 = old(self).ptes()[p].frame;
                r == Ok::<bool, Errno>(true) && code & PAGE_FAULT_WRITE != 0 && old(self).ptes().contains_key(p) && !old(self).ptes()[p].write
                    && !shared_page(old(self).mappings(), p) && old(phys).count(f0) > 1 ==> {
                    let f1 = final(self).ptes()[p].frame;
                    &&& f1 != f0
                    &&& final(phys).count(f1) == 1
                    &&& final(phys).count(f0) == old(phys).count(f0) - 1
                }
            }),
    {
        let p = virt_addr / PAGE_SIZE;
        let k = match self.state.get_mapping_for_ptr(p) {
            Some(k) => k,
            None => {
                proof { crate::model::lemma_page_view_none(self.mappings(), p as int); }
                return Ok(false);
            },
        };
        proof {
            self.lemma_wf();
            crate::model::lemma_page_view_at(self.mappings(), k, p as int);
        }
        let ghost m0 = self.state.mappings@[k];
        proof {
            assert(msz(self.mappings()).contains_key(k));
            crate::phys::lemma_static_frame_shift(m0.residence@, (p - k) as int);
        }
        let m = self.state.mappings.get(&k).unwrap();
        let flags = m.flags;
        if code & PAGE_FAULT_WRITE != 0 && flags & MAPPING_FLAG_WRITE == 0 {
            return Ok(false);
        }
        if code & PAGE_FAULT_USER != 0 && flags & MAPPING_FLAG_USER == 0 {
            return Ok(false);
        }
        let writable = flags & MAPPING_FLAG_WRITE != 0;
        let user = flags & MAPPING_FLAG_USER != 0;
        let shared = flags & MAPPING_FLAG_SHARED != 0;
        let write_fault = code & PAGE_FAULT_WRITE != 0;
        let off = p - k;
        let is_static = m.residence.is_static_page(off);
        let ghost vm0 = self.vmem@;
        match self.vmem.get(p) {
            Some(pte) => {
                if write_fault && !pte.write {
                    if !shared && (is_static || phys.ref_count(pte.frame) > 1) {
                        // copy-on-write: the page gets a frame of its own
                        match phys.alloc_referenced() {
                            Ok(f) => {
                                // a static frame holds no reference to drop
                                if phys.ref_count(pte.frame) > 0 {
                                    phys.release(pte.frame);
                                }
                                self.vmem.map(p, Pte { frame: f, write: true, user });
                            },
                            Err(_) => {
                                return Err(Errno::ENOMEM);
                            },
                        }
                    } else {
                        self.vmem.map(p, Pte { frame: pte.frame, write: true, user });
                    }
                } else {
                    assert(self.vmem@.remove(p) =~= vm0.remove(p));
                }
            },
            None => {
                let copy = is_static && !shared && write_fault;
                let res = if copy { phys.alloc_referenced() } else { m.residence.alloc_page(off, phys) };
                match res {
                    Ok(frame) => {
                        let write = writable && (!is_static || shared || copy);
                        self.vmem.map(p, Pte { frame, write, user });
                    },
                    Err(_) => {
                        return Err(Errno::ENOMEM);
                    },
                }
            },
        }
        proof {
            assert(self.vmem@.remove(p) =~= vm0.remove(p));
            assert(vmem_ok(self.vmem@, self.mappings()));
        }
        Ok(true)
    }

    /// Clones the memory space for process forking. The child holds the same gaps and mappings;
    /// its pages share the parent's frames, and the pages of private mappings become
    /// write-protected on both sides so that the first write copies them.
    pub fn fork(&mut self, phys: &mut PhysMem) -> (r: Result<MemSpace, Errno>)
        requires
            old(self).wf(),
            old(phys).wf(),
        ensures
            final(self).wf(),
            final(phys).wf(),
            final(self).same_as(old(self)),
            final(self).alloc_limit() == old(self).alloc_limit(),
            r is Ok,
            r matches Ok(c) ==> {
                &&& c.wf()
                &&& c.same_as(old(self))
                &&& forall|q: usize| #[trigger] c.ptes().contains_key(q) <==> old(self).ptes().contains_key(q)
                &&& forall|q: usize| #[trigger] c.ptes().contains_key(q) ==> c.ptes()[q] == final(self).ptes()[q]
            },
            forall|q: usize| #[trigger] old(self).ptes().contains_key(q) <==> final(self).ptes().contains_key(q),
            forall|q: usize| #[trigger] final(self).ptes().contains_key(q) ==> final(self).ptes()[q].frame
                == old(self).ptes()[q].frame && (final(self).ptes()[q].write ==> old(self).ptes()[q].write)
                && final(self).ptes()[q].user == old(self).ptes()[q].user,
            forall|q: usize| #[trigger] final(self).ptes().contains_key(q) ==> (final(self).ptes()[q].write
                ==> shared_page(old(self).mappings(), q)),
            forall|q: usize, f: usize| #![trigger sole_page(old(self).ptes(), q, f)] sole_page(old(self).ptes(), q, f)
                && 0 < old(phys).count(f) < usize::MAX ==> final(phys).count(f) == old(phys).count(f) + 1,
            forall|f: usize| #![trigger unused_frame(old(self).ptes(), f)] unused_frame(old(self).ptes(), f)
                ==> final(phys).count(f) == old(phys).count(f),
            final(phys).available() == old(phys).available(),
    {
        let ghost c0 = phys.ref_counts();
        proof { self.lemma_wf(); }
        let ghost vm0 = self.vmem@;
        let ghost mv = self.mappings();
        let mut child_vmem = VMem::new();
        let snapshot = self.state.snapshot();
        let ghost ms0 = snapshot.mappings@;
        assert(views(ms0) == mv);
        for kv in it: snapshot.mappings.iter()
            invariant
                self.wf(),
                phys.wf(),
                self.mappings() == mv,
                views(ms0) == mv,
                ms0 == snapshot.mappings@,
                self.same_as(old(self)),
                self.alloc_limit() == old(self).alloc_limit(),
                forall|q: usize| #[trigger] vm0.contains_key(q) <==> self.vmem@.contains_key(q),
                forall|q: usize| #[trigger] self.vmem@.contains_key(q) ==> self.vmem@[q].frame == vm0[q].frame
                    && (self.vmem@[q].write ==> vm0[q].write) && self.vmem@[q].user == vm0[q].user,
                forall|q: usize| #[trigger] child_vmem@.contains_key(q) ==> self.vmem@.contains_key(q)
                    && child_vmem@[q] == self.vmem@[q],
                forall|q: usize| #[trigger] self.vmem@.contains_key(q) ==> (self.vmem@[q].write
                    ==> shared_page(mv, q) || !child_vmem@.contains_key(q)),
                forall|j: int| 0 <= j < it.index() ==> copied(vm0, child_vmem@, *it.seq()[j].0, ms0[*it.seq()[j].0].size),
                fork_count(vm0, child_vmem@, c0, phys.ref_counts()),
                phys.available() == old(phys).available(),
        {
            let (k, m) = kv;
            assert(ms0.contains_key(*k) && ms0[*k] == *m);
            assert(msz(mv).contains_key(*k));
            let shared = m.flags & MAPPING_FLAG_SHARED != 0;
            let end = *k + m.size;
            let mut p = *k;
            while p < end
                invariant
                    *k <= p <= end,
                    end == *k + ms0[*k].size,
                    ms0.contains_key(*k) && ms0[*k] == *m,
                    msz(mv).contains_key(*k),
                    shared == (m.flags & MAPPING_FLAG_SHARED != 0),
                    self.wf(),
                    phys.wf(),
                    self.mappings() == mv,
                    views(ms0) == mv,
                    self.same_as(old(self)),
                    self.alloc_limit() == old(self).alloc_limit(),
                    forall|q: usize| #[trigger] vm0.contains_key(q) <==> self.vmem@.contains_key(q),
                    forall|q: usize| #[trigger] self.vmem@.contains_key(q) ==> self.vmem@[q].frame == vm0[q].frame
                        && (self.vmem@[q].write ==> vm0[q].write) && self.vmem@[q].user == vm0[q].user,
                    forall|q: usize| #[trigger] child_vmem@.contains_key(q) ==> self.vmem@.contains_key(q)
                        && child_vmem@[q] == self.vmem@[q],
                    forall|q: usize| #[trigger] self.vmem@.contains_key(q) ==> (self.vmem@[q].write
                        ==> shared_page(mv, q) || !child_vmem@.contains_key(q)),
                    forall|j: int| 0 <= j < it.index() ==> copied(vm0, child_vmem@, *it.seq()[j].0, ms0[*it.seq()[j].0].size),
                    forall|q: usize| *k <= q < p && #[trigger] vm0.contains_key(q) ==> child_vmem@.contains_key(q),
                    fork_count(vm0, child_vmem@, c0, phys.ref_counts()),
                    phys.available() == old(phys).available(),
                decreases end - p,
            {
                let ghost cv0 = child_vmem@;
                let ghost cs0 = phys.ref_counts();
                let fresh = child_vmem.get(p).is_none();
                if let (Some(pte), true) = (self.vmem.get(p), fresh) {
                    proof { phys.lemma_counts_positive(); }
                    let c = phys.ref_count(pte.frame);
                    if c > 0 && c < usize::MAX {
                        phys.share(pte.frame);
                    }
                    proof {
                        assert(vm0.contains_key(p) && vm0[p].frame == pte.frame);
                    }
                    let e = Pte { frame: pte.frame, write: pte.write && shared, user: pte.user };
                    let ghost before = self.vmem@;
                    self.vmem.map(p, e);
                    child_vmem.map(p, e);
                    proof {
                        assert(crate::layout::covers(msz(mv), *k, p as int));
                        crate::model::lemma_page_view_at(mv, *k, p as int);
                        assert(e.write ==> shared_page(mv, p));
                        assert(vmem_ok(self.vmem@, self.mappings())) by {
                            assert forall|q: usize| #[trigger] self.vmem@.contains_key(q) implies match page_view(mv, q as int) {
                                Some((f, _)) => (self.vmem@[q].write ==> f & MAPPING_FLAG_WRITE != 0)
                                    && (self.vmem@[q].user ==> f & MAPPING_FLAG_USER != 0),
                                None => false,
                            } by {
                                assert(before.contains_key(q));
                            }
                        }
                        assert forall|j: int| 0 <= j < it.index() implies copied(vm0, child_vmem@, *it.seq()[j].0, ms0[*it.seq()[j].0].size) by {
                            assert(copied(vm0, cv0, *it.seq()[j].0, ms0[*it.seq()[j].0].size));
                        }
                        let fp = pte.frame;
                        assert forall|q: usize, g: usize| #![trigger sole_page(vm0, q, g)] sole_page(vm0, q, g) && c0.contains_key(g)
                            && c0[g] < usize::MAX implies phys.ref_counts().contains_key(g)
                            && phys.ref_counts()[g] == c0[g] + if child_vmem@.contains_key(q) { 1int } else { 0int } by {
                            if g == fp {
                                assert(q == p);
                            } else if q == p {
                                assert(vm0[p].frame == fp);
                            }
                        }
                        assert forall|g: usize| #![trigger unused_frame(vm0, g)] unused_frame(vm0, g) implies
                            (phys.ref_counts().contains_key(g) <==> c0.contains_key(g)) && (c0.contains_key(g) ==> phys.ref_counts()[g] == c0[g]) by {
                            assert(g != fp);
                        }
                    }
                }
                p = p + 1;
            }
        }
        proof {
            assert forall|q: usize| #[trigger] vm0.contains_key(q) implies child_vmem@.contains_key(q) by {
                assert(match page_view(mv, q as int) { Some(_) => true, None => false });
                assert(exists|b: usize| #[trigger] crate::layout::covers(msz(mv), b, q as int));
                let b = choose|b: usize| #[trigger] crate::layout::covers(msz(mv), b, q as int);
                assert(ms0.contains_key(b));
                assert(copied(vm0, child_vmem@, b, ms0[b].size));
            }
            assert forall|q: usize| #[trigger] self.vmem@.contains_key(q) implies (self.vmem@[q].write
                ==> shared_page(mv, q)) by {
                assert(vm0.contains_key(q));
                assert(child_vmem@.contains_key(q));
            }
        }
        let child = MemSpace {
            state: self.state.snapshot(),
            vmem_usage: self.vmem_usage,
            brk_init: self.brk_init,
            brk_ptr: self.brk_ptr,
            budget: AllocBudget { left: self.budget.left },
            holes: Ghost(self.holes@),
            vmem: child_vmem,
        };
        proof {
            assert(child.mappings() == self.mappings());
            assert(vmem_ok(child.vmem@, child.mappings())) by {
                assert forall|q: usize| #[trigger] child.vmem@.contains_key(q) implies match page_view(mv, q as int) {
                    Some((f, _)) => (child.vmem@[q].write ==> f & MAPPING_FLAG_WRITE != 0)
                        && (child.vmem@[q].user ==> f & MAPPING_FLAG_USER != 0),
                    None => false,
                } by {
                    assert(self.vmem@.contains_key(q));
                }
            }
        }
        Ok(child)
    }


    /// Tells whether the `size` bytes beginning at address `ptr` can be accessed: every page
    /// they touch is mapped, writable if `write` is set and accessible from userspace if `user`
    /// is set. A range that wraps around the address space cannot be accessed.
    pub fn can_access(&self, ptr: usize, size: usize, user: bool, write: bool) -> (r: bool)
        requires
            self.wf(),
        ensures
            size == 0 ==> r,
            size > usize::MAX - ptr ==> !r,
            0 < size <= usize::MAX - ptr ==> (r <==> forall|q: int| page_of(ptr) <= q <= page_of((ptr + size - 1) as usize)
                ==> #[trigger] page_allows(self.mappings(), q, user, write)),
    {
        if size == 0 {
            return true;
        }
        if size > usize::MAX - ptr {
            return false;
        }
        let first = ptr / PAGE_SIZE;
        let last = (ptr + size - 1) / PAGE_SIZE;
        let mut q = first;
        proof { self.lemma_wf(); }
        while q <= last
            invariant
                self.wf(),
                0 < size <= usize::MAX - ptr,
                first <= q,
                last < usize::MAX,
                first == page_of(ptr),
                last == page_of((ptr + size - 1) as usize),
                forall|y: int| first <= y < q ==> #[trigger] page_allows(self.mappings(), y, user, write),
            decreases last + 1 - q,
        {
            let k = match self.state.get_mapping_for_ptr(q) {
                Some(k) => k,
                None => {
                    proof { crate::model::lemma_page_view_none(self.mappings(), q as int); }
                    assert(!page_allows(self.mappings(), q as int, user, write));
                    return false;
                },
            };
            proof { self.lemma_wf(); }
            let m = self.state.mappings.get(&k).unwrap();
            let flags = m.flags;
            proof { crate::model::lemma_page_view_at(self.mappings(), k, q as int); }
            if write && flags & MAPPING_FLAG_WRITE == 0 {
                assert(!page_allows(self.mappings(), q as int, user, write));
                return false;
            }
            if user && flags & MAPPING_FLAG_USER == 0 {
                assert(!page_allows(self.mappings(), q as int, user, write));
                return false;
            }
            let end = k + m.size;
            proof {
                assert forall|y: int| q <= y < end implies #[trigger] page_allows(self.mappings(), y, user, write) by {
                    assert(crate::layout::covers(msz(self.mappings()), k, y));
                    crate::model::lemma_page_view_at(self.mappings(), k, y);
                }
            }
            if end > last {
                return true;
            }
            q = end;
        }
        true
    }



    /// The bytes from address `cur` to the end of its page, when that page can be accessed as
    /// asked: how much of a string may be read before the next page has to be checked.
    pub fn string_chunk(&self, cur: usize, user: bool, write: bool) -> (r: Option<usize>)
        requires
            self.wf(),
        ensures
            r is Some <==> page_allows(self.mappings(), page_of(cur), user, write),
            r matches Some(n) ==> n == PAGE_SIZE - cur % PAGE_SIZE,
    {
        let p = cur / PAGE_SIZE;
        let k = match self.state.get_mapping_for_ptr(p) {
            Some(k) => k,
            None => {
                proof { crate::model::lemma_page_view_none(self.mappings(), p as int); }
                return None;
            },
        };
        proof {
            self.lemma_wf();
            crate::model::lemma_page_view_at(self.mappings(), k, p as int);
        }
        let flags = self.state.mappings.get(&k).unwrap().flags;
        if (write && flags & MAPPING_FLAG_WRITE == 0) || (user && flags & MAPPING_FLAG_USER == 0) {
            return None;
        }
        Some(PAGE_SIZE - cur % PAGE_SIZE)
    }

    /// The gaps in address order, as `(first address, size in pages)`.
    pub fn gap_list(&self) -> (r: Vec<(usize, usize)>)
        requires
            self.wf(),
        ensures
            forall|i: int| 0 <= i < r@.len() ==> aligned((#[trigger] r@[i]).0)
                && self.gaps().contains_key(page_of(r@[i].0) as usize) && self.gaps()[page_of(r@[i].0) as usize] == r@[i].1,
    {
        proof { self.lemma_wf(); }
        let mut r: Vec<(usize, usize)> = Vec::new();
        for kv in it: self.state.gaps.iter()
            invariant
                self.wf(),
                forall|i: int| 0 <= i < r@.len() ==> aligned((#[trigger] r@[i]).0)
                    && self.gaps().contains_key(page_of(r@[i].0) as usize) && self.gaps()[page_of(r@[i].0) as usize] == r@[i].1,
        {
            let (b, n) = kv;
            proof { self.lemma_wf(); }
            assert(self.state.gaps@.contains_key(*b));
            r.push((page_addr(*b), *n));
        }
        r
    }

    /// The mappings in address order, as `(first address, size in pages, flags)`.
    pub fn mapping_list(&self) -> (r: Vec<(usize, usize, u8)>)
        requires
            self.wf(),
        ensures
            forall|i: int| 0 <= i < r@.len() ==> aligned((#[trigger] r@[i]).0)
                && self.mappings().contains_key(page_of(r@[i].0) as usize)
                && self.mappings()[page_of(r@[i].0) as usize].size == r@[i].1
                && self.mappings()[page_of(r@[i].0) as usize].flags == r@[i].2,
    {
        proof { self.lemma_wf(); }
        let mut r: Vec<(usize, usize, u8)> = Vec::new();
        for kv in it: self.state.mappings.iter()
            invariant
                self.wf(),
                forall|i: int| 0 <= i < r@.len() ==> aligned((#[trigger] r@[i]).0)
                    && self.mappings().contains_key(page_of(r@[i].0) as usize)
                    && self.mappings()[page_of(r@[i].0) as usize].size == r@[i].1
                    && self.mappings()[page_of(r@[i].0) as usize].flags == r@[i].2,
        {
            let (b, m) = kv;
            proof { self.lemma_wf(); }
            assert(self.state.mappings@.contains_key(*b));
            assert(msz(self.mappings()).contains_key(*b));
            r.push((page_addr(*b), m.size, m.flags));
        }
        r
    }

    /// The by-size gap index in its order, as `(size in pages, first address)`.
    pub fn gaps_by_size_list(&self) -> (r: Vec<(usize, usize)>)
        requires
            self.wf(),
        ensures
            forall|i: int| 0 <= i < r@.len() ==> aligned((#[trigger] r@[i]).1)
                && self.gaps_by_size().contains((r@[i].0, page_of(r@[i].1) as usize)),
    {
        proof {
            self.lemma_wf();
            assert(vstd::std_specs::btree::key_obeys_cmp_spec::<(usize, usize)>());
        }
        let mut r: Vec<(usize, usize)> = Vec::new();
        for kv in it: self.state.gaps_size.iter()
            invariant
                self.wf(),
                forall|i: int| 0 <= i < r@.len() ==> aligned((#[trigger] r@[i]).1)
                    && self.gaps_by_size().contains((r@[i].0, page_of(r@[i].1) as usize)),
        {
            let (key, _) = kv;
            let (n, b) = *key;
            proof { self.lemma_wf(); }
            assert(self.state.gaps_size@.contains_key((n, b)));
            assert(self.state.gaps@.contains_key(b));
            r.push((n, page_addr(b)));
        }
        r
    }

    /// Returns the page-table entry of the page holding address `addr`.
    pub fn pte(&self, addr: usize) -> (r: Option<Pte>)
        ensures
            match r {
                Some(e) => self.ptes().contains_key(page_of(addr) as usize) && self.ptes()[page_of(addr) as usize] == e,
                None => !self.ptes().contains_key(page_of(addr) as usize),
            },
    {
        self.vmem.get(addr / PAGE_SIZE)
    }

    /// Returns the page-table context.
    pub fn get_vmem(&self) -> (r: &VMem)
        ensures
            r@ == self.ptes(),
    {
        &self.vmem
    }

    /// Gives a frame to each mapped page of the `n` pages beginning at page `a` that has none.
    /// Fails with `ENOMEM`, keeping the frames already given, when no frame is left.
    fn materialize(&mut self, a: usize, n: usize, phys: &mut PhysMem) -> (r: Result<(), Errno>)
        requires
            old(self).wf(),
            old(phys).wf(),
            a + n <= usize::MAX,
        ensures
            final(self).wf(),
            final(phys).wf(),
            final(self).same_as(old(self)),
            final(self).alloc_limit() == old(self).alloc_limit(),
            forall|p: usize| #[trigger] final(self).ptes().contains_key(p) && !(a <= p < a + n)
                ==> old(self).ptes().contains_key(p) && final(self).ptes()[p] == old(self).ptes()[p],
            forall|p: usize| #[trigger] old(self).ptes().contains_key(p) ==> final(self).ptes().contains_key(p),
            r is Ok ==> forall|p: usize| a <= p < a + n && page_view(old(self).mappings(), p as int) is Some
                ==> #[trigger] final(self).ptes().contains_key(p),
            r is Err ==> r == Err::<(), Errno>(Errno::ENOMEM),
            old(phys).available() >= n ==> r is Ok,
    {
        let mut p = a;
        while p < a + n
            invariant
                a <= p <= a + n,
                a + n <= usize::MAX,
                self.wf(),
                phys.wf(),
                self.same_as(old(self)),
                self.alloc_limit() == old(self).alloc_limit(),
                phys.available() + (p - a) >= old(phys).available(),
                forall|q: usize| #[trigger] self.vmem@.contains_key(q) && !(a <= q < a + n)
                    ==> old(self).vmem@.contains_key(q) && self.vmem@[q] == old(self).vmem@[q],
                forall|q: usize| #[trigger] old(self).vmem@.contains_key(q) ==> self.vmem@.contains_key(q),
                forall|q: usize| a <= q < p && page_view(old(self).mappings(), q as int) is Some
                    ==> #[trigger] self.vmem@.contains_key(q),
            decreases a + n - p,
        {
            if self.vmem.get(p).is_none() {
                if let Some(k) = self.state.get_mapping_for_ptr(p) {
                    let m = self.state.mappings.get(&k).unwrap();
                    let is_static = m.residence.is_static_page(p - k);
                    match m.residence.alloc_page(p - k, phys) {
                        Ok(frame) => {
                            let write = m.flags & MAPPING_FLAG_WRITE != 0 && !is_static;
                            let user = m.flags & MAPPING_FLAG_USER != 0;
                            proof {
                                self.lemma_wf();
                                assert(crate::layout::covers(msz(self.mappings()), k, p as int));
                                crate::model::lemma_page_view_at(self.mappings(), k, p as int);
                            }
                            let ghost before = self.vmem@;
                            self.vmem.map(p, Pte { frame, write, user });
                            assert(self.vmem@ == before.insert(p, Pte { frame, write, user }));
                        },
                        Err(_) => {
                            return Err(Errno::ENOMEM);
                        },
                    }
                } else {
                    proof { crate::model::lemma_page_view_none(self.mappings(), p as int); }
                }
            }
            p = p + 1;
        }
        Ok(())
    }

    /// Gives physical frames to the mapped pages holding the `len` bytes beginning at address
    /// `ptr`; pages that no mapping holds are skipped. Fails with `ENOMEM` when no frame is left.
    pub fn alloc_pages(&mut self, ptr: usize, len: usize, phys: &mut PhysMem) -> (r: Result<(), Errno>)
        requires
            old(self).wf(),
            old(phys).wf(),
        ensures
            final(self).wf(),
            final(phys).wf(),
            final(self).same_as(old(self)),
            forall|p: usize| #[trigger] old(self).ptes().contains_key(p) ==> final(self).ptes().contains_key(p),
            len == 0 || len > usize::MAX - ptr ==> r is Ok,
            0 < len <= usize::MAX - ptr && old(phys).available() >= page_of((ptr + len - 1) as usize) - page_of(ptr) + 1
                ==> r is Ok,
            r is Ok && 0 < len <= usize::MAX - ptr ==> forall|p: usize| page_of(ptr) <= p <= page_of((ptr + len - 1) as usize)
                && page_view(old(self).mappings(), p as int) is Some ==> #[trigger] final(self).ptes().contains_key(p),
            r is Err ==> r == Err::<(), Errno>(Errno::ENOMEM),
    {
        if len == 0 || len > usize::MAX - ptr {
            return Ok(());
        }
        let first = ptr / PAGE_SIZE;
        let last = (ptr + len - 1) / PAGE_SIZE;
        self.materialize(first, last - first + 1, phys)
    }

    /// Returns the number of virtual memory pages in the memory space.
    pub fn get_vmem_usage(&self) -> (r: usize)
        ensures
            r == self.usage(),
    {
        self.vmem_usage
    }
}

} // verus!
