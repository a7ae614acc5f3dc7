//! The page-level meaning of a set of mappings, and how cutting a window out of one mapping
//! changes it.
use vstd::prelude::*;
use crate::layout::{covers, pages_of, disjoint_ranges, ranges_in_region, span, lemma_pages_insert,
    lemma_pages_remove, lemma_disjoint_insert};
use crate::memory::END_PAGE;
use crate::residence::{ResidenceView, shift, fits, lemma_shift_shift, lemma_fits_shift};
use crate::state::MappingView;

verus! {

/// The sizes of the mappings `mv`, by first page.
pub open spec fn msz(mv: Map<usize, MappingView>) -> Map<usize, usize> {
    mv.map_values(|m: MappingView| m.size)
}

/// Every mapping of `mv` is non-empty and its residence offsets stay representable.
pub open spec fn records_ok(mv: Map<usize, MappingView>) -> bool {
    forall|k: usize| #[trigger] mv.contains_key(k) ==> 0 < mv[k].size && fits(mv[k].residence, mv[k].size as int)
}

/// What is mapped at page `x`: the flags of the mapping holding it and the residence of the
/// data at that page, or `None` when no mapping holds it.
pub open spec fn page_view(mv: Map<usize, MappingView>, x: int) -> Option<(u8, ResidenceView)> {
    if exists|b: usize| #[trigger] covers(msz(mv), b, x) {
        let b = choose|b: usize| #[trigger] covers(msz(mv), b, x);
        Some((mv[b].flags, shift(mv[b].residence, x - b)))
    } else {
        None
    }
}

/// The first `n` pages of `m`.
pub open spec fn head_of(m: MappingView, n: int) -> MappingView {
    MappingView { size: n as usize, flags: m.flags, residence: m.residence }
}

/// The pages of `m` from its `k`-th on.
pub open spec fn tail_of(m: MappingView, k: int) -> MappingView {
    MappingView { size: (m.size - k) as usize, flags: m.flags, residence: shift(m.residence, k) }
}

/// The mappings `mv` once the pages `a .. e` are cut out of the mapping beginning at `k`: what
/// precedes the cut stays under `k`, what follows it is stored under `e`.
pub open spec fn cut_one(mv: Map<usize, MappingView>, k: usize, a: int, e: int) -> Map<usize, MappingView> {
    let m = mv[k];
    let r1 = mv.remove(k);
    let r2 = if k < a { r1.insert(k, head_of(m, a - k)) } else { r1 };
    if k + m.size > e { r2.insert(e as usize, tail_of(m, e - k)) } else { r2 }
}

/// The pages of the mapping beginning at `k` that lie in `a .. e`.
pub open spec fn window(mv: Map<usize, MappingView>, k: usize, a: int, e: int) -> Set<int> {
    let lo = if k < a { a } else { k as int };
    let hi = if k + mv[k].size > e { e } else { k + mv[k].size };
    span(lo, hi - lo)
}

/// The page view of a page held by a known mapping.
pub proof fn lemma_page_view_at(mv: Map<usize, MappingView>, b: usize, x: int)
    requires
        disjoint_ranges(msz(mv)),
        covers(msz(mv), b, x),
    ensures
        page_view(mv, x) == Some((mv[b].flags, shift(mv[b].residence, x - b))),
{
    let c = choose|c: usize| #[trigger] covers(msz(mv), c, x);
    assert(c == b);
}

/// The page view of a page that no mapping holds.
pub proof fn lemma_page_view_none(mv: Map<usize, MappingView>, x: int)
    requires
        !pages_of(msz(mv)).contains(x),
    ensures
        page_view(mv, x) is None,
{
    if exists|b: usize| #[trigger] covers(msz(mv), b, x) {
        let b = choose|b: usize| #[trigger] covers(msz(mv), b, x);
        assert(pages_of(msz(mv)).contains(x));
    }
}

/// Cutting a window out of one mapping takes away exactly the window's pages, leaves every
/// other page as it was and every other mapping in place.
pub proof fn lemma_cut_one(mv: Map<usize, MappingView>, k: usize, a: int, e: int)
    requires
        disjoint_ranges(msz(mv)),
        ranges_in_region(msz(mv)),
        records_ok(mv),
        mv.contains_key(k),
        k < e,
        a < k + mv[k].size,
        0 <= a <= e,
        e <= END_PAGE,
    ensures
        ({
            let c = cut_one(mv, k, a, e);
            let w = window(mv, k, a, e);
            &&& pages_of(msz(c)) == pages_of(msz(mv)) - w
            &&& w <= pages_of(msz(mv))
            &&& disjoint_ranges(msz(c))
            &&& ranges_in_region(msz(c))
            &&& records_ok(c)
            &&& forall|x: int| #[trigger] page_view(c, x) == if w.contains(x) {
                None
            } else {
                page_view(mv, x)
            }
            &&& forall|j: usize| #[trigger] mv.contains_key(j) && j != k ==> c.contains_key(j) && c[j] == mv[j]
            &&& forall|j: usize| #[trigger] c.contains_key(j) ==> mv.contains_key(j) || j == e
        }),
{
    let m = mv[k];
    let s0 = msz(mv);
    let r1 = mv.remove(k);
    let r2 = if k < a { r1.insert(k, head_of(m, a - k)) } else { r1 };
    let c = cut_one(mv, k, a, e);
    let w = window(mv, k, a, e);
    let end = k + m.size;
    // sizes of each stage
    assert(msz(r1) =~= s0.remove(k));
    lemma_pages_remove(s0, k);
    assert(pages_of(msz(r1)) == pages_of(s0) - span(k as int, m.size as int));
    assert(disjoint_ranges(msz(r1)));
    assert(forall|j: usize| #[trigger] msz(r1).contains_key(j) ==> 0 < msz(r1)[j]);
    if k < a {
        assert(msz(r2) =~= msz(r1).insert(k, (a - k) as usize));
        lemma_pages_insert(msz(r1), k, (a - k) as usize);
        assert(span(k as int, (a - k) as int).disjoint(pages_of(msz(r1))));
        lemma_disjoint_insert(msz(r1), k, (a - k) as usize);
        lemma_fits_shift(m.residence, a - k, m.size - (a - k));
    } else {
        assert(msz(r2) =~= msz(r1));
    }
    assert(disjoint_ranges(msz(r2)));
    assert(pages_of(msz(r2)) == pages_of(s0) - span(k as int, m.size as int) + (if k < a {
        span(k as int, a - k)
    } else {
        Set::empty()
    })) by {
        if k >= a {
            assert(pages_of(s0) - span(k as int, m.size as int) + Set::<int>::empty() =~= pages_of(s0)
                - span(k as int, m.size as int));
        }
    }
    assert(forall|j: usize| #[trigger] msz(r2).contains_key(j) ==> 0 < msz(r2)[j]);
    if end > e {
        assert(!r2.contains_key(e as usize)) by {
            if r2.contains_key(e as usize) {
                assert(s0.contains_key(e as usize));
                assert(covers(s0, k, e));
                assert(covers(s0, e as usize, e));
            }
        }
        assert(msz(c) =~= msz(r2).insert(e as usize, (end - e) as usize));
        lemma_pages_insert(msz(r2), e as usize, (end - e) as usize);
        assert(span(e, end - e).disjoint(pages_of(msz(r2))));
        lemma_disjoint_insert(msz(r2), e as usize, (end - e) as usize);
        lemma_fits_shift(m.residence, e - k, end - e);
    } else {
        assert(msz(c) =~= msz(r2));
    }
    assert(w <= pages_of(s0)) by {
        assert forall|x: int| w.contains(x) implies pages_of(s0).contains(x) by {
            assert(covers(s0, k, x));
        }
    }
    let hd = if k < a { span(k as int, a - k) } else { Set::<int>::empty() };
    let tl = if end > e { span(e, end - e) } else { Set::<int>::empty() };
    assert(pages_of(msz(c)) == pages_of(s0) - span(k as int, m.size as int) + hd + tl) by {
        if end <= e {
            assert(pages_of(msz(r2)) + Set::<int>::empty() =~= pages_of(msz(r2)));
        }
        if k >= a {
            assert(pages_of(s0) - span(k as int, m.size as int) + Set::<int>::empty() =~= pages_of(s0)
                - span(k as int, m.size as int));
        }
    }
    assert forall|x: int| #[trigger] pages_of(msz(c)).contains(x) <==> (pages_of(s0) - w).contains(x) by {
        if span(k as int, m.size as int).contains(x) {
            assert(covers(s0, k, x));
        }
    }
    assert(pages_of(msz(c)) =~= pages_of(s0) - w);
    assert forall|j: usize| #[trigger] msz(c).contains_key(j) implies 0 < msz(c)[j] && crate::memory::FIRST_PAGE <= j
        && j + msz(c)[j] <= END_PAGE by {
        assert(s0.contains_key(k));
        if j == e && end > e {
            assert(c[j] == tail_of(m, e - k));
        } else if j == k && k < a {
            assert(c[j] == head_of(m, a - k));
        } else {
            assert(s0.contains_key(j));
        }
    }
    assert(ranges_in_region(msz(c)));
    assert(records_ok(c));
    assert forall|x: int| #[trigger] page_view(c, x) == if w.contains(x) {
        None
    } else {
        page_view(mv, x)
    } by {
        if w.contains(x) {
            lemma_page_view_none(c, x);
        } else if pages_of(s0).contains(x) {
            let b = choose|b: usize| #[trigger] covers(s0, b, x);
            lemma_page_view_at(mv, b, x);
            if b != k {
                assert(covers(msz(c), b, x));
                lemma_page_view_at(c, b, x);
            } else if x < a {
                assert(covers(msz(c), k, x));
                lemma_page_view_at(c, k, x);
            } else {
                assert(covers(msz(c), e as usize, x));
                lemma_page_view_at(c, e as usize, x);
                lemma_shift_shift(m.residence, e - k, x - e);
            }
        } else {
            lemma_page_view_none(c, x);
            lemma_page_view_none(mv, x);
        }
    }
}

} // verus!

verus! {

/// Adding a mapping leaves the page view outside its pages as it was.
pub proof fn lemma_page_view_insert(mv: Map<usize, MappingView>, a: usize, m: MappingView, y: int)
    requires
        disjoint_ranges(msz(mv.insert(a, m))),
        !mv.contains_key(a),
    ensures
        page_view(mv.insert(a, m), y) == if span(a as int, m.size as int).contains(y) {
            Some((m.flags, shift(m.residence, y - a)))
        } else {
            page_view(mv, y)
        },
{
    let mv2 = mv.insert(a, m);
    assert(msz(mv2) =~= msz(mv).insert(a, m.size));
    lemma_pages_insert(msz(mv), a, m.size);
    if span(a as int, m.size as int).contains(y) {
        assert(covers(msz(mv2), a, y));
        lemma_page_view_at(mv2, a, y);
    } else if pages_of(msz(mv)).contains(y) {
        let b = choose|b: usize| #[trigger] covers(msz(mv), b, y);
        assert(covers(msz(mv2), b, y));
        assert(disjoint_ranges(msz(mv))) by {
            assert forall|i: usize, j: usize| msz(mv).contains_key(i) && msz(mv).contains_key(j) && i != j
                implies i + msz(mv)[i] <= j || j + msz(mv)[j] <= i by {
                assert(msz(mv2).contains_key(i) && msz(mv2).contains_key(j));
            }
        }
        lemma_page_view_at(mv2, b, y);
        lemma_page_view_at(mv, b, y);
    } else {
        lemma_page_view_none(mv2, y);
        lemma_page_view_none(mv, y);
    }
}

} // verus!
