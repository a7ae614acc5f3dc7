//! Taking a range of pages out of the mappings of a staged state.
use vstd::prelude::*;
use crate::errno::Errno;
use crate::layout::{covers, pages_of, disjoint_ranges, ranges_in_region, layout_ok, span, region};
use crate::memory::{FIRST_PAGE, END_PAGE};
use crate::model::{msz, records_ok, cut_one, page_view, lemma_cut_one, lemma_page_view_none};
use crate::ops::{cut_mapping, release_window, trim_gap};
use crate::state::{AllocBudget, MappingView, MemSpaceState, views};

verus! {

broadcast use vstd::std_specs::btree::group_btree_axioms;

/// What becomes of the pages taken out of the mappings.
#[derive(Clone, Copy, PartialEq, Eq, Structural)]
pub enum Release {
    /// They become free, merged into the neighbouring gaps.
    Free,
    /// They are left out of the gaps (heap bookkeeping).
    Brk,
    /// They are cleared together with the free pages of the range, to be mapped anew.
    Clear,
}

/// The pages that are neither free nor mapped once `done` has been processed.
pub open spec fn staged_rest(mode: Release, x0: Set<int>, mp0: Set<int>, gp0: Set<int>, done: Set<int>) -> Set<int> {
    match mode {
        Release::Free => x0,
        Release::Brk => x0 + mp0.intersect(done),
        Release::Clear => x0 + mp0.intersect(done) + gp0.intersect(done),
    }
}

/// The free pages once `done` has been processed.
pub open spec fn staged_free(mode: Release, mp0: Set<int>, gp0: Set<int>, done: Set<int>) -> Set<int> {
    match mode {
        Release::Free => gp0 + mp0.intersect(done),
        Release::Brk => gp0,
        Release::Clear => gp0 - done,
    }
}

/// The mapping `mv[k]` keeps its place when nothing of it lies in `a .. e`.
pub open spec fn outside(mv: Map<usize, MappingView>, k: usize, a: int, e: int) -> bool {
    k + mv[k].size <= a || k >= e
}

/// The state `st` is `st0` with the pages `a .. p` taken out of its mappings as `mode` says.
pub open spec fn unmapped_upto(
    st: MemSpaceState, st0: MemSpaceState, x0: Set<int>, a: int, e: int, p: int, mode: Release,
) -> bool {
    let mv0 = views(st0.mappings@);
    let mv = views(st.mappings@);
    let mp0 = pages_of(msz(mv0));
    let gp0 = pages_of(st0.gaps@);
    let done = span(a, p - a);
    &&& st.wf()
    &&& layout_ok(st.gaps@, msz(mv), staged_rest(mode, x0, mp0, gp0, done))
    &&& records_ok(mv)
    &&& pages_of(msz(mv)) == mp0 - done
    &&& pages_of(st.gaps@) == staged_free(mode, mp0, gp0, done)
    &&& mode == Release::Brk ==> st.gaps@ == st0.gaps@
    &&& forall|y: int| #[trigger] page_view(mv, y) == if done.contains(y) { None } else { page_view(mv0, y) }
    &&& forall|k: usize| #[trigger] mv0.contains_key(k) && outside(mv0, k, a, e) ==> mv.contains_key(k) && mv[k] == mv0[k]
    &&& forall|k: usize| #[trigger] mv.contains_key(k) ==> mv0.contains_key(k) || k == e
}

/// The mapped pages of `st`.
pub open spec fn mapped_pages(st: MemSpaceState) -> Set<int> {
    pages_of(msz(views(st.mappings@)))
}

/// Taking out a range that holds no mapped page leaves the mappings as they were.
pub proof fn lemma_unmapped_nothing(st: MemSpaceState, st0: MemSpaceState, x0: Set<int>, a: int, e: int, mode: Release)
    requires
        unmapped_upto(st, st0, x0, a, e, e, mode),
        layout_ok(st0.gaps@, msz(views(st0.mappings@)), x0),
        mapped_pages(st0).disjoint(span(a, e - a)),
        a < e,
    ensures
        views(st.mappings@) == views(st0.mappings@),
{
    let mv = views(st.mappings@);
    let mv0 = views(st0.mappings@);
    let mp0 = pages_of(msz(mv0));
    assert forall|k: usize| #[trigger] mv0.contains_key(k) implies outside(mv0, k, a, e) by {
        assert(msz(mv0).contains_key(k));
        if !outside(mv0, k, a, e) {
            let y = if k < a { a } else { k as int };
            assert(covers(msz(mv0), k, y));
            assert(mp0.contains(y) && span(a, e - a).contains(y));
        }
    }
    assert(pages_of(msz(mv)) =~= mp0);
    assert forall|k: usize| mv.contains_key(k) implies mv0.contains_key(k) by {
        if !mv0.contains_key(k) {
            assert(msz(mv).contains_key(k));
            assert(covers(msz(mv), k, k as int));
            assert(pages_of(msz(mv)).contains(k as int));
            let b = choose|b: usize| #[trigger] covers(msz(mv0), b, k as int);
            assert(mv.contains_key(b) && mv[b] == mv0[b]);
            assert(covers(msz(mv), b, k as int));
        }
    }
    assert(mv =~= mv0);
}

/// Removing a subset takes away its size.
pub proof fn lemma_len_minus(s: Set<int>, w: Set<int>)
    requires
        s.finite(),
        w <= s,
    ensures
        (s - w).finite(),
        w.finite(),
        (s - w).len() == s.len() - w.len(),
{
    vstd::set_lib::lemma_len_subset(w, s);
    vstd::set_lib::lemma_len_subset(s - w, s);
    vstd::set_lib::lemma_set_disjoint_lens(s - w, w);
    assert((s - w) + w =~= s);
}

/// The mapped pages of a well laid out state are finite.
pub proof fn lemma_pages_finite(m: Map<usize, usize>, g: Map<usize, usize>, x: Set<int>)
    requires
        layout_ok(g, m, x),
    ensures
        pages_of(m).finite(),
{
    vstd::set_lib::lemma_int_range(FIRST_PAGE as int, END_PAGE as int);
    vstd::set_lib::lemma_len_subset(pages_of(m), region());
}

/// Takes the pages `a .. e` out of the mappings of `st`; what becomes of them and of the free
/// pages of the range is decided by `mode`. `usage` is the number of mapped pages before the
/// call; the number after it is returned.
#[verifier::rlimit(80)]
pub fn unmap_impl(
    st: &mut MemSpaceState, a: usize, e: usize, mode: Release, usage: usize, budget: &mut AllocBudget,
    Ghost(x0): Ghost<Set<int>>,
) -> (r: Result<usize, Errno>)
    requires
        old(st).wf(),
        layout_ok(old(st).gaps@, msz(views(old(st).mappings@)), x0),
        records_ok(views(old(st).mappings@)),
        FIRST_PAGE <= a < e <= END_PAGE,
        usage == pages_of(msz(views(old(st).mappings@))).len(),
    ensures
        r matches Ok(u) ==> unmapped_upto(*final(st), *old(st), x0, a as int, e as int, e as int, mode)
            && u == pages_of(msz(views(final(st).mappings@))).len(),
        r is Err ==> r == Err::<usize, Errno>(Errno::ENOMEM),
        old(budget).left is None ==> r is Ok && final(budget).left is None,
        old(budget).left == Some(0usize) ==> final(budget).left == Some(0usize),
        mode == Release::Free && old(budget).left == Some(0usize)
            && !mapped_pages(*old(st)).disjoint(span(a as int, e - a)) ==> r is Err,
        mode != Release::Clear && mapped_pages(*old(st)).disjoint(span(a as int, e - a))
            ==> r is Ok && final(budget).left == old(budget).left,
{
    let ghost st0 = *old(st);
    let ghost mv0 = views(st0.mappings@);
    let ghost mp0 = pages_of(msz(mv0));
    let ghost gp0 = pages_of(st0.gaps@);
    let mut u = usage;
    let mut p = a;
    proof {
        assert(span(a as int, 0) =~= Set::<int>::empty());
        assert(mp0 - Set::<int>::empty() =~= mp0);
        assert(gp0 - Set::<int>::empty() =~= gp0);
        assert(gp0 + mp0.intersect(Set::<int>::empty()) =~= gp0);
        assert(x0 + mp0.intersect(Set::<int>::empty()) =~= x0);
        assert(x0 + mp0.intersect(Set::<int>::empty()) + gp0.intersect(Set::<int>::empty()) =~= x0);
        lemma_pages_finite(msz(mv0), st0.gaps@, x0);
    }
    while p < e
        invariant
            a <= p <= e <= END_PAGE,
            FIRST_PAGE <= a,
            unmapped_upto(*st, st0, x0, a as int, e as int, p as int, mode),
            u == pages_of(msz(views(st.mappings@))).len(),
            pages_of(msz(views(st.mappings@))).finite(),
            mp0 == pages_of(msz(views(st0.mappings@))),
            gp0 == pages_of(st0.gaps@),
            mv0 == views(st0.mappings@),
            layout_ok(st0.gaps@, msz(mv0), x0),
            old(budget).left is None ==> budget.left is None,
            old(budget).left == Some(0usize) ==> budget.left == Some(0usize),
            st0 == *old(st),
            mp0 == mapped_pages(st0),
            mode == Release::Free && old(budget).left == Some(0usize) ==> mp0.disjoint(span(a as int, p - a)),
            mode != Release::Clear && mp0.disjoint(span(a as int, e - a)) ==> budget.left == old(budget).left,
        decreases e - p,
    {
        let ghost done = span(a as int, p - a);
        let ghost mv = views(st.mappings@);
        let ghost rest = staged_rest(mode, x0, mp0, gp0, done);
        if let Some(k) = st.get_mapping_for_ptr(p) {
            let size = st.mappings.get(&k).unwrap().size;
            assert(msz(mv).contains_key(k));
            proof {
                assert(pages_of(msz(mv)).contains(p as int));
                assert(mp0.contains(p as int) && span(a as int, e - a).contains(p as int));
                assert(!mp0.disjoint(span(a as int, e - a)));
            }
            let q: usize = if k + size < e { k + size } else { e };
            // The window begins at `p`: everything from `a` up to `p` is already unmapped.
            assert(k == p || (k < a && p == a)) by {
                if k < p && p > a {
                    let y = if k < a { (p - 1) as int } else { k as int };
                    assert(covers(msz(mv), k, y));
                    assert(pages_of(msz(mv)).contains(y));
                    assert(done.contains(y));
                }
            }
            proof {
                assert(!outside(mv0, k, a as int, e as int) || !mv0.contains_key(k) || mv[k] != mv0[k]) by {
                    if mv0.contains_key(k) && outside(mv0, k, a as int, e as int) && mv[k] == mv0[k] {
                        assert(covers(msz(mv), k, p as int));
                    }
                }
                lemma_cut_one(mv, k, a as int, e as int);
            }
            let ghost w = span(p as int, q - p);
            assert(crate::model::window(mv, k, a as int, e as int) == w);
            cut_mapping(st, k, a, e, budget)?;
            let ghost mv1 = views(st.mappings@);
            proof {
                lemma_len_minus(pages_of(msz(mv)), w);
                vstd::set_lib::lemma_int_range(p as int, q as int);
                assert(w.disjoint(rest));
                assert(w.disjoint(pages_of(st.gaps@)));
                assert(pages_of(st.gaps@) + pages_of(msz(mv1)) + (rest + w) =~= region());
                assert(layout_ok(st.gaps@, msz(mv1), rest + w));
            }
            u = u - (q - p);
            if mode == Release::Free {
                release_window(st, p, q, budget, Ghost(rest + w))?;
                proof {
                    assert(rest + w - w =~= rest);
                }
            }
            proof {
                let done2 = span(a as int, q - a);
                assert(w <= mp0);
                assert(mp0 - done2 =~= mp0 - done - w);
                assert(mp0.intersect(done2) =~= mp0.intersect(done) + w);
                assert(gp0.intersect(done2) =~= gp0.intersect(done)) by {
                    assert forall|y: int| w.contains(y) implies !gp0.contains(y) by {
                        assert(mp0.contains(y));
                    }
                }
                assert(gp0 - done2 =~= gp0 - done) by {
                    assert forall|y: int| w.contains(y) implies !gp0.contains(y) by {
                        assert(mp0.contains(y));
                    }
                }
                assert(staged_rest(mode, x0, mp0, gp0, done2) =~= if mode == Release::Free { rest } else { rest + w });
                assert(staged_free(mode, mp0, gp0, done2) =~= if mode == Release::Free {
                    staged_free(mode, mp0, gp0, done) + w } else { staged_free(mode, mp0, gp0, done) });
                assert forall|y: int| #[trigger] page_view(mv1, y) == if done2.contains(y) { None } else { page_view(mv0, y) } by {
                    assert(page_view(mv1, y) == if w.contains(y) { None } else { page_view(mv, y) });
                }
            }
            p = q;
        } else if let Some((gb, gs)) = st.get_gap_for_ptr(p) {
            assert(st.gaps@.contains_key(gb));
            let ge = gb + gs;
            let q: usize = if ge < e { ge } else { e };
            let ghost w = span(p as int, q - p);
            let ghost g_before = st.gaps@;
            if mode == Release::Clear {
                assert(gb == p || (gb < a && p == a)) by {
                    if gb < p && p > a {
                        let y = if gb < a { (p - 1) as int } else { gb as int };
                        assert(covers(st.gaps@, gb, y));
                        assert(pages_of(st.gaps@).contains(y));
                        assert(done.contains(y));
                    }
                }
                trim_gap(st, gb, a, e, budget, Ghost(rest))?;
            }
            proof {
                let done2 = span(a as int, q - a);
                assert forall|y: int| w.contains(y) implies gp0.contains(y) && !mp0.contains(y) by {
                    assert(covers(g_before, gb, y));
                    assert(pages_of(g_before).contains(y));
                }
                assert(mp0 - done2 =~= mp0 - done);
                assert(mp0.intersect(done2) =~= mp0.intersect(done));
                assert(gp0.intersect(done2) =~= gp0.intersect(done) + w);
                assert(gp0 - done2 =~= gp0 - done - w);
                assert(staged_rest(mode, x0, mp0, gp0, done2) =~= if mode == Release::Clear { rest + w } else { rest });
                assert(staged_free(mode, mp0, gp0, done2) =~= if mode == Release::Clear {
                    staged_free(mode, mp0, gp0, done) - w } else { staged_free(mode, mp0, gp0, done) });
                assert forall|y: int| #[trigger] page_view(views(st.mappings@), y) == if done2.contains(y) { None } else { page_view(mv0, y) } by {
                    if w.contains(y) {
                        lemma_page_view_none(views(st.mappings@), y);
                    }
                }
            }
            p = q;
        } else {
            proof {
                let done2 = span(a as int, p + 1 - a);
                assert(!mp0.contains(p as int));
                assert(!gp0.contains(p as int));
                assert(mp0 - done2 =~= mp0 - done);
                assert(mp0.intersect(done2) =~= mp0.intersect(done));
                assert(gp0.intersect(done2) =~= gp0.intersect(done));
                assert(gp0 - done2 =~= gp0 - done);
                assert forall|y: int| #[trigger] page_view(mv, y) == if done2.contains(y) { None } else { page_view(mv0, y) } by {
                    if y == p {
                        lemma_page_view_none(mv, y);
                    }
                }
            }
            p = p + 1;
        }
    }
    Ok(u)
}

} // verus!
