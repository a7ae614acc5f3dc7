//! Properties of memory spaces that relate several operations or hold of every state.
use vstd::prelude::*;
use crate::layout::{covers, pages_of, layout_ok, span, region, lemma_canonical};
use crate::mem_space::{vmem_ok, MemSpace, MapConstraint, map_done, unmap_done, unmap_bounds, page_of};
use crate::model::{msz, page_view, lemma_page_view_at, lemma_page_view_none};
use crate::residence::ResidenceView;
use crate::state::MappingView;
use crate::unmap::outside;

verus! {

/// Without pages given back by the heap, the gaps and the mappings together cover the whole
/// process-reachable range.
pub proof fn lemma_coverage(s: MemSpace)
    requires
        s.wf(),
        s.holes() == Set::<int>::empty(),
    ensures
        pages_of(s.gaps()) + pages_of(msz(s.mappings())) == region(),
{
    s.lemma_wf();
    assert(pages_of(s.gaps()) + pages_of(msz(s.mappings())) + Set::<int>::empty()
        =~= pages_of(s.gaps()) + pages_of(msz(s.mappings())));
}

/// A page of a mapping without the write flag is never writable in the page table.
pub proof fn lemma_readonly_pages(s: MemSpace, k: usize, p: usize)
    requires
        s.wf(),
        s.mappings().contains_key(k),
        k <= p < k + s.mappings()[k].size,
        s.mappings()[k].flags & crate::memory::MAPPING_FLAG_WRITE == 0,
        s.ptes().contains_key(p),
    ensures
        !s.ptes()[p].write,
{
    s.lemma_wf();
    assert(covers(msz(s.mappings()), k, p as int));
    lemma_page_view_at(s.mappings(), k, p as int);
}

/// Two well-formed memory spaces with the same gaps, mappings and mapped pages hold the same
/// by-size index and usage.
proof fn lemma_same_counters(s: MemSpace, t: MemSpace)
    requires
        s.wf(),
        t.wf(),
        s.gaps() == t.gaps(),
        s.mappings() == t.mappings(),
    ensures
        s.gaps_by_size() == t.gaps_by_size(),
        s.usage() == t.usage(),
{
    s.lemma_wf();
    t.lemma_wf();
    assert forall|x: (usize, usize)| s.gaps_by_size().contains(x) <==> t.gaps_by_size().contains(x) by {
        assert(s.gaps_by_size().contains((x.0, x.1)) <==> t.gaps_by_size().contains((x.0, x.1)));
    }
    assert(s.gaps_by_size() =~= t.gaps_by_size());
}

/// When `unmap` finds no mapped page in its range and every mapping of before is still there
/// afterwards, the mappings are unchanged.
proof fn lemma_unmap_keeps(s1: MemSpace, s2: MemSpace, ptr: usize, size: usize, m0: Map<usize, MappingView>)
    requires
        s1.wf(),
        s2.wf(),
        unmap_done(s1, s2, ptr, size, false),
        unmap_bounds(ptr, size).0 < unmap_bounds(ptr, size).1,
        forall|k: usize| #[trigger] m0.contains_key(k) ==> s2.mappings().contains_key(k) && s2.mappings()[k] == m0[k],
        pages_of(msz(s2.mappings())) == pages_of(msz(m0)),
        forall|k: usize| #[trigger] s2.mappings().contains_key(k) && !m0.contains_key(k) ==> s1.mappings().contains_key(k)
            || k == unmap_bounds(ptr, size).1,
        forall|k: usize| #[trigger] s1.mappings().contains_key(k) && !m0.contains_key(k)
            ==> span(k as int, s1.mappings()[k].size as int) <= span(unmap_bounds(ptr, size).0, unmap_bounds(ptr, size).1 - unmap_bounds(ptr, size).0),
    ensures
        s2.mappings() == m0,
{
    s2.lemma_wf();
    let m2 = s2.mappings();
    assert forall|k: usize| m2.contains_key(k) implies m0.contains_key(k) by {
        if !m0.contains_key(k) {
            assert(covers(msz(m2), k, k as int));
            assert(pages_of(msz(m0)).contains(k as int));
            let b = choose|b: usize| #[trigger] covers(msz(m0), b, k as int);
            assert(covers(msz(m2), b, k as int));
        }
    }
    assert(m2 =~= m0);
}

/// Mapping `n` pages and then unmapping them gives back the gaps, the by-size index, the
/// mappings, the holes and the usage of before, when the new mapping took free pages: always
/// without a fixed address, and with one when the range was free. (A fixed mapping over mapped
/// pages unmaps them, and unmapping it cannot bring them back.)
pub proof fn lemma_map_unmap_round_trip(
    s0: MemSpace, s1: MemSpace, s2: MemSpace, c: MapConstraint, n: usize, flags: u8, res: ResidenceView, addr: usize,
)
    requires
        s0.wf(),
        s1.wf(),
        s2.wf(),
        c is Fixed ==> span(page_of(addr), n as int) <= pages_of(s0.gaps()),
        0 < n,
        map_done(s0, s1, c, n, flags, res, addr),
        unmap_done(s1, s2, addr, n, false),
    ensures
        s2.gaps() == s0.gaps(),
        s2.gaps_by_size() == s0.gaps_by_size(),
        s2.mappings() == s0.mappings(),
        s2.holes() == s0.holes(),
        s2.usage() == s0.usage(),
{
    s0.lemma_wf();
    s1.lemma_wf();
    s2.lemma_wf();
    let a = page_of(addr);
    let w = span(a, n as int);
    let m0 = s0.mappings();
    let m1 = s1.mappings();
    let mp0 = pages_of(msz(m0));
    assert(w.contains(a));
    assert(region().contains(a));
    assert(region().contains(a + n - 1));
    assert(unmap_bounds(addr, n) == (a, a + n));
    assert(msz(m1) =~= msz(m0).insert(a as usize, n));
    assert(!m0.contains_key(a as usize)) by {
        if m0.contains_key(a as usize) {
            assert(covers(msz(m0), a as usize, a));
        }
    }
    crate::layout::lemma_pages_insert(msz(m0), a as usize, n);
    assert(mp0.disjoint(w));
    assert(pages_of(msz(s2.mappings())) =~= mp0);
    assert forall|k: usize| #[trigger] m0.contains_key(k) implies s2.mappings().contains_key(k) && s2.mappings()[k] == m0[k] by {
        assert(m1.contains_key(k) && k != a);
        assert(msz(m1).contains_key(k) && msz(m1).contains_key(a as usize));
        assert(outside(m1, k, a, a + n));
    }
    lemma_unmap_keeps(s1, s2, addr, n, m0);
    assert(pages_of(s2.gaps()) =~= pages_of(s0.gaps()));
    lemma_canonical(s2.gaps(), s0.gaps());
    assert(s0.holes() - w =~= s0.holes());
    lemma_same_counters(s2, s0);
}

/// Unmapping a range in which nothing is mapped changes nothing.
pub proof fn lemma_unmap_free_range(s0: MemSpace, s1: MemSpace, ptr: usize, size: usize)
    requires
        s0.wf(),
        s1.wf(),
        unmap_done(s0, s1, ptr, size, false),
        ({
            let (lo, hi) = unmap_bounds(ptr, size);
            span(lo, hi - lo).disjoint(pages_of(msz(s0.mappings())))
        }),
    ensures
        s1.gaps() == s0.gaps(),
        s1.gaps_by_size() == s0.gaps_by_size(),
        s1.mappings() == s0.mappings(),
        s1.holes() == s0.holes(),
        s1.usage() == s0.usage(),
{
    s0.lemma_wf();
    s1.lemma_wf();
    let (lo, hi) = unmap_bounds(ptr, size);
    if lo < hi {
        let w = span(lo, hi - lo);
        let m0 = s0.mappings();
        let mp0 = pages_of(msz(m0));
        assert(mp0 - w =~= mp0);
        assert(mp0.intersect(w) =~= Set::<int>::empty());
        assert forall|k: usize| #[trigger] m0.contains_key(k) implies s1.mappings().contains_key(k) && s1.mappings()[k] == m0[k] by {
            assert(msz(m0).contains_key(k));
            if !outside(m0, k, lo, hi) {
                let y = if k < lo { lo } else { k as int };
                assert(covers(msz(m0), k, y));
                assert(w.contains(y));
            }
        }
        lemma_unmap_keeps(s0, s1, ptr, size, m0);
        assert(pages_of(s1.gaps()) =~= pages_of(s0.gaps()));
        lemma_canonical(s1.gaps(), s0.gaps());
        lemma_same_counters(s1, s0);
    } else {
        lemma_same_counters(s1, s0);
    }
}

} // verus!
