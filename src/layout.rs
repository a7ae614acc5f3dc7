//! The mathematical model of an address layout: gaps and mappings as maps from their first
//! page to their size in pages, and the sets of pages they cover.
use vstd::prelude::*;
use vstd::set_lib::*;
use crate::memory::{FIRST_PAGE, END_PAGE};

verus! {

/// The pages `b .. b + n`.
pub open spec fn span(b: int, n: int) -> Set<int> {
    set_int_range(b, b + n)
}

/// The pages of the process-reachable range.
pub open spec fn region() -> Set<int> {
    span(FIRST_PAGE as int, END_PAGE - FIRST_PAGE)
}

/// The range beginning at page `b` in `m` holds page `p`.
pub open spec fn covers(m: Map<usize, usize>, b: usize, p: int) -> bool {
    m.contains_key(b) && b <= p < b + m[b]
}

/// The pages held by the ranges of `m`.
pub open spec fn pages_of(m: Map<usize, usize>) -> Set<int> {
    Set::new(|p: int| exists|b: usize| #[trigger] covers(m, b, p))
}

/// No two ranges of `m` share a page.
pub open spec fn disjoint_ranges(m: Map<usize, usize>) -> bool {
    forall|a: usize, b: usize|
        #![trigger m.contains_key(a), m.contains_key(b)]
        m.contains_key(a) && m.contains_key(b) && a != b ==> a + m[a] <= b || b + m[b] <= a
}

/// Every range of `m` is non-empty and lies in the process-reachable range.
pub open spec fn ranges_in_region(m: Map<usize, usize>) -> bool {
    forall|b: usize|
        #[trigger] m.contains_key(b) ==> 0 < m[b] && FIRST_PAGE <= b && b + m[b] <= END_PAGE
}

/// No range of `m` ends where another begins.
pub open spec fn no_adjacent(m: Map<usize, usize>) -> bool {
    forall|b: usize| #[trigger] m.contains_key(b) ==> !m.contains_key((b + m[b]) as usize)
}

/// Gaps `g` and mappings `m` are well laid out, with `x` the pages of the range that are
/// neither free nor mapped.
pub open spec fn layout_ok(g: Map<usize, usize>, m: Map<usize, usize>, x: Set<int>) -> bool {
    &&& ranges_in_region(g)
    &&& ranges_in_region(m)
    &&& disjoint_ranges(g)
    &&& disjoint_ranges(m)
    &&& no_adjacent(g)
    &&& pages_of(g).disjoint(pages_of(m))
    &&& x.disjoint(pages_of(g))
    &&& x.disjoint(pages_of(m))
    &&& pages_of(g) + pages_of(m) + x == region()
}

/// Inserting a range adds its pages.
pub proof fn lemma_pages_insert(m: Map<usize, usize>, b: usize, n: usize)
    requires
        !m.contains_key(b),
    ensures
        pages_of(m.insert(b, n)) == pages_of(m) + span(b as int, n as int),
{
    let m2 = m.insert(b, n);
    assert forall|p: int| pages_of(m2).contains(p) implies (pages_of(m) + span(
        b as int,
        n as int,
    )).contains(p) by {
        let k = choose|k: usize| covers(m2, k, p);
        if k != b {
            assert(covers(m, k, p));
        }
    }
    assert forall|p: int| (pages_of(m) + span(b as int, n as int)).contains(p) implies pages_of(
        m2,
    ).contains(p) by {
        if pages_of(m).contains(p) {
            let k = choose|k: usize| covers(m, k, p);
            assert(covers(m2, k, p));
        } else {
            assert(covers(m2, b, p));
        }
    }
    assert(pages_of(m2) =~= pages_of(m) + span(b as int, n as int));
}

/// Removing a range of a disjoint family takes away exactly its pages.
pub proof fn lemma_pages_remove(m: Map<usize, usize>, b: usize)
    requires
        m.contains_key(b),
        disjoint_ranges(m),
    ensures
        pages_of(m.remove(b)) == pages_of(m) - span(b as int, m[b] as int),
{
    let m2 = m.remove(b);
    assert forall|p: int| pages_of(m2).contains(p) implies (pages_of(m) - span(
        b as int,
        m[b] as int,
    )).contains(p) by {
        let k = choose|k: usize| covers(m2, k, p);
        assert(covers(m, k, p));
    }
    assert forall|p: int| (pages_of(m) - span(b as int, m[b] as int)).contains(p) implies pages_of(
        m2,
    ).contains(p) by {
        let k = choose|k: usize| covers(m, k, p);
        assert(covers(m2, k, p));
    }
    assert(pages_of(m2) =~= pages_of(m) - span(b as int, m[b] as int));
}



/// Inserting a non-empty range that shares no page with the family keeps it disjoint.
pub proof fn lemma_disjoint_insert(m: Map<usize, usize>, b: usize, n: usize)
    requires
        disjoint_ranges(m),
        forall|k: usize| #[trigger] m.contains_key(k) ==> 0 < m[k],
        0 < n,
        !m.contains_key(b),
        span(b as int, n as int).disjoint(pages_of(m)),
    ensures
        disjoint_ranges(m.insert(b, n)),
{
    let m2 = m.insert(b, n);
    assert forall|x: usize, y: usize|
        m2.contains_key(x) && m2.contains_key(y) && x != y implies x + m2[x] <= y || y + m2[y]
        <= x by {
        if x == b {
            assert(covers(m, y, y as int));
            assert(pages_of(m).contains(y as int));
            assert(!span(b as int, n as int).contains(y as int));
            if y < b {
                if y + m[y] > b {
                    assert(covers(m, y, b as int));
                    assert(pages_of(m).contains(b as int));
                    assert(span(b as int, n as int).contains(b as int));
                }
            }
        } else if y == b {
            assert(covers(m, x, x as int));
            assert(pages_of(m).contains(x as int));
            assert(!span(b as int, n as int).contains(x as int));
            if x < b {
                if x + m[x] > b {
                    assert(covers(m, x, b as int));
                    assert(pages_of(m).contains(b as int));
                    assert(span(b as int, n as int).contains(b as int));
                }
            }
        }
    }
}

} // verus!

verus! {

/// A range whose pages are neither free nor mapped can become a mapping.
pub proof fn lemma_layout_add_mapping(g: Map<usize, usize>, m: Map<usize, usize>, x: Set<int>, b: usize, n: usize)
    requires
        layout_ok(g, m, x),
        0 < n,
        FIRST_PAGE <= b,
        b + n <= END_PAGE,
        span(b as int, n as int) <= x,
        !m.contains_key(b),
    ensures
        layout_ok(g, m.insert(b, n), x - span(b as int, n as int)),
        pages_of(m.insert(b, n)) == pages_of(m) + span(b as int, n as int),
        pages_of(m).disjoint(span(b as int, n as int)),
{
    let w = span(b as int, n as int);
    lemma_pages_insert(m, b, n);
    assert(w.disjoint(pages_of(m))) by {
        assert forall|p: int| w.contains(p) implies !pages_of(m).contains(p) by {
            assert(x.contains(p));
        }
    }
    lemma_disjoint_insert(m, b, n);
    assert(pages_of(g) + pages_of(m.insert(b, n)) + (x - w) =~= region());
}

} // verus!

verus! {

/// A range of one family with no neighbour ending where it begins is a range of any other
/// family over the same pages.
proof fn lemma_canonical_half(g1: Map<usize, usize>, g2: Map<usize, usize>, b: usize)
    requires
        ranges_in_region(g1),
        ranges_in_region(g2),
        disjoint_ranges(g1),
        disjoint_ranges(g2),
        no_adjacent(g1),
        no_adjacent(g2),
        pages_of(g1) == pages_of(g2),
        g1.contains_key(b),
    ensures
        g2.contains_key(b),
        g2[b] == g1[b],
{
    assert(covers(g1, b, b as int));
    assert(pages_of(g2).contains(b as int));
    let c = choose|c: usize| #[trigger] covers(g2, c, b as int);
    if c < b {
        assert(covers(g2, c, b - 1));
        assert(pages_of(g1).contains(b - 1));
        let d = choose|d: usize| #[trigger] covers(g1, d, b - 1);
        assert(d != b);
        assert(d + g1[d] == b);
    }
    assert(c == b);
    let s1 = g1[b];
    let s2 = g2[b];
    if s1 < s2 {
        assert(covers(g2, b, b + s1));
        assert(pages_of(g1).contains(b + s1));
        let d = choose|d: usize| #[trigger] covers(g1, d, b + s1);
        assert(d == b + s1);
    }
    if s2 < s1 {
        assert(covers(g1, b, b + s2));
        assert(pages_of(g2).contains(b + s2));
        let d = choose|d: usize| #[trigger] covers(g2, d, b + s2);
        assert(d == b + s2);
    }
}

/// Two families of disjoint ranges, none of which touches another, that hold the same pages are
/// the same: the gaps are determined by the free pages.
pub proof fn lemma_canonical(g1: Map<usize, usize>, g2: Map<usize, usize>)
    requires
        ranges_in_region(g1),
        ranges_in_region(g2),
        disjoint_ranges(g1),
        disjoint_ranges(g2),
        no_adjacent(g1),
        no_adjacent(g2),
        pages_of(g1) == pages_of(g2),
    ensures
        g1 == g2,
{
    assert forall|b: usize| g1.contains_key(b) implies g2.contains_key(b) && g2[b] == g1[b] by {
        lemma_canonical_half(g1, g2, b);
    }
    assert forall|b: usize| g2.contains_key(b) implies g1.contains_key(b) by {
        lemma_canonical_half(g2, g1, b);
    }
    assert(g1 =~= g2);
}

} // verus!
