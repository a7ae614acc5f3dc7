//! The elementary changes to a staged state: cutting a window out of a mapping, freeing a
//! window as a gap merged with its neighbours, and trimming a gap.
use vstd::prelude::*;
use crate::errno::Errno;
use crate::layout::{covers, pages_of, disjoint_ranges, ranges_in_region, no_adjacent, layout_ok, span,
    region, lemma_pages_insert, lemma_pages_remove, lemma_disjoint_insert};
use crate::memory::{FIRST_PAGE, END_PAGE};
use crate::model::{msz, records_ok, cut_one, head_of, tail_of};
use crate::residence::lemma_fits_shift;
use crate::state::{AllocBudget, MemMapping, MemSpaceState, views};

verus! {

broadcast use vstd::std_specs::btree::group_btree_axioms;

/// Cuts the pages `a .. e` out of the mapping beginning at page `k`.
pub fn cut_mapping(st: &mut MemSpaceState, k: usize, a: usize, e: usize, budget: &mut AllocBudget) -> (r: Result<(), Errno>)
    requires
        old(st).wf(),
        ranges_in_region(msz(views(old(st).mappings@))),
        old(st).mappings@.contains_key(k),
        k < e,
        a < k + old(st).mappings@[k].size,
        a <= e <= END_PAGE,
    ensures
        final(st).wf(),
        final(st).gaps@ == old(st).gaps@,
        final(st).gaps_size@ == old(st).gaps_size@,
        r is Ok ==> views(final(st).mappings@) == cut_one(views(old(st).mappings@), k, a as int, e as int),
        r is Err ==> r == Err::<(), Errno>(Errno::ENOMEM),
        old(budget).left is None ==> r is Ok && final(budget).left is None,
        old(budget).left == Some(0usize) ==> final(budget).left == Some(0usize),
{
    let ghost mv = views(old(st).mappings@);
    assert(msz(mv).contains_key(k));
    let m = st.remove_mapping(k).unwrap();
    assert(views(st.mappings@) =~= mv.remove(k));
    let end = k + m.size;
    if k < a {
        proof { lemma_fits_shift(m.residence@, (a - k) as int, (end - a) as int); }
        let head = MemMapping { size: a - k, flags: m.flags, residence: m.residence.shifted(0) };
        proof { crate::residence::lemma_shift_zero(m.residence@); }
        st.insert_mapping(k, head, budget)?;
        assert(head@ == head_of(mv[k], (a - k) as int));
    }
    let ghost r2 = views(st.mappings@);
    assert(r2 =~= (if k < a { mv.remove(k).insert(k, head_of(mv[k], (a - k) as int)) } else { mv.remove(k) }));
    if end > e {
        proof { lemma_fits_shift(m.residence@, (e - k) as int, (end - e) as int); }
        let tail = MemMapping { size: end - e, flags: m.flags, residence: m.residence.shifted(e - k) };
        st.insert_mapping(e, tail, budget)?;
        assert(tail@ == tail_of(mv[k], (e - k) as int));
        assert(views(st.mappings@) =~= r2.insert(e, tail_of(mv[k], (e - k) as int)));
    }
    Ok(())
}

/// Turns the pages `wb .. we`, which are neither free nor mapped, into free memory: one gap
/// merged with the gaps just before and just after it.
pub fn release_window(st: &mut MemSpaceState, wb: usize, we: usize, budget: &mut AllocBudget, Ghost(x): Ghost<Set<int>>) -> (r: Result<(), Errno>)
    requires
        old(st).wf(),
        layout_ok(old(st).gaps@, msz(views(old(st).mappings@)), x),
        wb < we,
        span(wb as int, we - wb) <= x,
    ensures
        final(st).wf(),
        final(st).mappings@ == old(st).mappings@,
        r is Ok ==> layout_ok(final(st).gaps@, msz(views(final(st).mappings@)), x - span(wb as int, we - wb)),
        r is Ok ==> pages_of(final(st).gaps@) == pages_of(old(st).gaps@) + span(wb as int, we - wb),
        r is Err ==> r == Err::<(), Errno>(Errno::ENOMEM),
        old(budget).left is None ==> r is Ok && final(budget).left is None,
        old(budget).left == Some(0usize) ==> final(budget).left == Some(0usize),
        old(budget).left == Some(0usize) ==> r is Err,
{
    let ghost g0 = old(st).gaps@;
    let ghost mp = pages_of(msz(views(old(st).mappings@)));
    let ghost w = span(wb as int, we - wb);
    proof {
        assert(region().contains(wb as int));
        assert(region().contains(we - 1));
        assert(x.contains(wb as int));
        assert(x.contains(we - 1));
    }
    // The gap ending right before the window, if any.
    let left = st.get_gap_for_ptr(wb - 1);
    let mut nb: usize = wb;
    if let Some((lb, ls)) = left {
        assert(lb + ls == wb) by {
            if lb + ls > wb {
                assert(covers(g0, lb, wb as int));
            }
        }
        st.remove_gap(lb);
        nb = lb;
    }
    let ghost g1 = st.gaps@;
    // The gap beginning right after the window, if any.
    let right = st.get_gap_for_ptr(we);
    let mut ne: usize = we;
    if let Some((rb, rs)) = right {
        assert(rb == we) by {
            if rb < we {
                assert(covers(g1, rb, we - 1));
                assert(covers(g0, rb, we - 1));
            }
        }
        st.remove_gap(rb);
        ne = rb + rs;
    }
    let ghost g2 = st.gaps@;
    proof {
        let gl = if let Some((lb, ls)) = left { span(lb as int, ls as int) } else { Set::<int>::empty() };
        let gr = if let Some((rb, rs)) = right { span(rb as int, rs as int) } else { Set::<int>::empty() };
        if let Some((lb, ls)) = left {
            lemma_pages_remove(g0, lb);
        } else {
            assert(g1 == g0);
        }
        assert(pages_of(g1) == pages_of(g0) - gl) by {
            if left is None { assert(pages_of(g0) - gl =~= pages_of(g0)); }
        }
        if let Some((rb, rs)) = right {
            lemma_pages_remove(g1, rb);
        } else {
            assert(g2 == g1);
        }
        assert(pages_of(g2) == pages_of(g1) - gr) by {
            if right is None { assert(pages_of(g1) - gr =~= pages_of(g1)); }
        }
        assert(span(nb as int, ne - nb) =~= gl + w + gr);
        assert(!g2.contains_key(nb)) by {
            if g2.contains_key(nb) {
                assert(covers(g2, nb, nb as int));
                if left is None {
                    assert(covers(g0, nb, nb as int));
                    assert(x.contains(nb as int));
                }
            }
        }
        assert(span(nb as int, ne - nb).disjoint(pages_of(g2))) by {
            assert forall|p: int| span(nb as int, ne - nb).contains(p) implies !pages_of(g2).contains(p) by {
                if w.contains(p) {
                    assert(x.contains(p));
                }
            }
        }
        lemma_disjoint_insert(g2, nb, (ne - nb) as usize);
        lemma_pages_insert(g2, nb, (ne - nb) as usize);
    }
    st.insert_gap(nb, ne - nb, budget)?;
    proof {
        let g3 = st.gaps@;
        let gl = if let Some((lb, ls)) = left { span(lb as int, ls as int) } else { Set::<int>::empty() };
        let gr = if let Some((rb, rs)) = right { span(rb as int, rs as int) } else { Set::<int>::empty() };
        assert forall|p: int| #[trigger] pages_of(g3).contains(p) <==> (pages_of(g0) + w).contains(p) by {
            if let Some((lb, ls)) = left {
                if gl.contains(p) { assert(covers(g0, lb, p)); }
            }
            if let Some((rb, rs)) = right {
                if gr.contains(p) { assert(covers(g0, rb, p)); }
            }
        }
        assert(pages_of(g3) =~= pages_of(g0) + w);
        assert(ranges_in_region(g3)) by {
            assert forall|b: usize| #[trigger] g3.contains_key(b) implies 0 < g3[b] && FIRST_PAGE <= b && b + g3[b] <= END_PAGE by {
                if b != nb {
                    assert(g0.contains_key(b));
                } else {
                    if let Some((lb, ls)) = left { assert(g0.contains_key(lb)); }
                    if let Some((rb, rs)) = right { assert(g0.contains_key(rb)); }
                }
            }
        }
        assert(no_adjacent(g3)) by {
            assert forall|b: usize| #[trigger] g3.contains_key(b) implies !g3.contains_key((b + g3[b]) as usize) by {
                if b != nb {
                    assert(g0.contains_key(b));
                    if (b + g3[b]) as usize == nb {
                        // a gap ending where the merged gap begins
                        if let Some((lb, ls)) = left {
                            assert(g0.contains_key(lb));
                        } else {
                            assert(covers(g0, b, wb - 1));
                        }
                    }
                } else {
                    let q = (b + g3[b]) as usize;
                    if g3.contains_key(q) {
                        assert(q != nb);
                        assert(g0.contains_key(q));
                        if let Some((rb, rs)) = right {
                            assert(g0.contains_key(rb));
                        } else {
                            assert(covers(g0, q, we as int));
                        }
                    }
                }
            }
        }
        assert(pages_of(g3).disjoint(mp)) by {
            assert forall|p: int| pages_of(g3).contains(p) implies !mp.contains(p) by {
                if w.contains(p) { assert(x.contains(p)); }
            }
        }
        assert(pages_of(g3) + mp + (x - w) =~= region());
    }
    Ok(())
}

/// Takes the pages `a .. e` out of the gap beginning at page `gb`.
pub fn trim_gap(st: &mut MemSpaceState, gb: usize, a: usize, e: usize, budget: &mut AllocBudget, Ghost(x): Ghost<Set<int>>) -> (r: Result<(), Errno>)
    requires
        old(st).wf(),
        layout_ok(old(st).gaps@, msz(views(old(st).mappings@)), x),
        old(st).gaps@.contains_key(gb),
        gb < e,
        a < gb + old(st).gaps@[gb],
        a < e <= END_PAGE,
    ensures
        final(st).wf(),
        final(st).mappings@ == old(st).mappings@,
        ({
            let ge = gb + old(st).gaps@[gb];
            let lo = if gb < a { a as int } else { gb as int };
            let hi = if ge > e { e as int } else { ge };
            let w = span(lo, hi - lo);
            &&& r is Ok ==> layout_ok(final(st).gaps@, msz(views(final(st).mappings@)), x + w)
            &&& r is Ok ==> pages_of(final(st).gaps@) == pages_of(old(st).gaps@) - w
            &&& w <= pages_of(old(st).gaps@)
        }),
        r is Err ==> r == Err::<(), Errno>(Errno::ENOMEM),
        old(budget).left is None ==> r is Ok && final(budget).left is None,
        old(budget).left == Some(0usize) ==> final(budget).left == Some(0usize),
        old(budget).left matches Some(k) ==> (gb >= a && gb + old(st).gaps@[gb] > e ==> if k < 2 {
            r is Err
        } else {
            r is Ok && final(budget).left == Some((k - 2) as usize)
        }),
{
    let ghost g0 = old(st).gaps@;
    let ghost mp = pages_of(msz(views(old(st).mappings@)));
    let gs = st.remove_gap(gb).unwrap();
    let ge = gb + gs;
    let ghost lo = if gb < a { a as int } else { gb as int };
    let ghost hi = if ge > e { e as int } else { ge as int };
    let ghost w = span(lo, hi - lo);
    proof {
        lemma_pages_remove(g0, gb);
        assert forall|p: int| w.contains(p) implies pages_of(g0).contains(p) by {
            assert(covers(g0, gb, p));
        }
    }
    if gb < a {
        proof {
            lemma_pages_insert(st.gaps@, gb, (a - gb) as usize);
            lemma_disjoint_insert(st.gaps@, gb, (a - gb) as usize);
        }
        st.insert_gap(gb, a - gb, budget)?;
    }
    let ghost g1 = st.gaps@;
    if ge > e {
        proof {
            assert(!g1.contains_key(e)) by {
                if g1.contains_key(e) {
                    assert(covers(g0, gb, e as int));
                    assert(covers(g0, e, e as int));
                }
            }
            lemma_pages_insert(g1, e, (ge - e) as usize);
            lemma_disjoint_insert(g1, e, (ge - e) as usize);
        }
        st.insert_gap(e, ge - e, budget)?;
    }
    proof {
        let g3 = st.gaps@;
        let hd = if gb < a { span(gb as int, a - gb) } else { Set::<int>::empty() };
        let tl = if ge > e { span(e as int, ge - e) } else { Set::<int>::empty() };
        assert(pages_of(g1) =~= pages_of(g0) - span(gb as int, gs as int) + hd);
        assert(pages_of(g3) =~= pages_of(g1) + tl);
        assert forall|p: int| #[trigger] pages_of(g3).contains(p) <==> (pages_of(g0) - w).contains(p) by {
            if span(gb as int, gs as int).contains(p) { assert(covers(g0, gb, p)); }
        }
        assert(pages_of(g3) =~= pages_of(g0) - w);
        assert(ranges_in_region(g3)) by {
            assert forall|b: usize| #[trigger] g3.contains_key(b) implies 0 < g3[b] && FIRST_PAGE <= b && b + g3[b] <= END_PAGE by {
                assert(g0.contains_key(gb));
                if b != gb && b != e {
                    assert(g0.contains_key(b));
                }
            }
        }
        assert(no_adjacent(g3)) by {
            assert forall|b: usize| #[trigger] g3.contains_key(b) implies !g3.contains_key((b + g3[b]) as usize) by {
                let q = (b + g3[b]) as usize;
                assert(g0.contains_key(gb));
                if g3.contains_key(q) {
                    if b == gb && gb < a {
                        assert(q == a);
                        assert(w.contains(a as int));
                        assert(covers(g3, q, q as int));
                    } else if b == e && ge > e {
                        assert(q == ge);
                        assert(q != gb);
                        if q != e { assert(g0.contains_key(q)); }
                    } else {
                        assert(g0.contains_key(b));
                        if q == e && ge > e {
                            assert(covers(g0, b, e - 1));
                            assert(covers(g0, gb, e - 1));
                        } else if q == gb {
                        } else {
                            assert(g0.contains_key(q));
                        }
                    }
                }
            }
        }
        assert(pages_of(g3) + mp + (x + w) =~= region());
    }
    Ok(())
}

} // verus!
