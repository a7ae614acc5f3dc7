use vstd::prelude::*;
use crate::memory::PAGE_SIZE;

verus! {

/// The location of a file: the mountpoint it lives on and its inode there.
#[derive(Clone, Copy, Debug, PartialEq, Eq, Structural)]
pub struct FileLocation {
    /// The identifier of the mountpoint.
    pub mountpoint_id: u32,
    /// The inode number on the mountpoint.
    pub inode: u64,
}

/// A map residence is the location to which the data on the physical memory of a mapping is
/// to be synchronized.
#[derive(Clone, Debug)]
pub enum MapResidence {
    /// The mapping does not reside anywhere except on the main memory.
    Normal,
    /// The mapping points to a static sequence of physical frames, which may be shared between
    /// several memory spaces. Pages past the end of the sequence behave as `Normal`.
    Static {
        /// The list of physical frames, in order.
        pages: Vec<usize>,
    },
    /// The mapping resides in a file.
    File {
        /// The location of the file.
        location: FileLocation,
        /// The offset of the mapping in the file, in bytes.
        off: u64,
    },
    /// The mapping resides in swap space.
    Swap {
        /// The handle of the swap file.
        swap_file: usize,
        /// The ID of the slot occupied by the mapping.
        slot_id: u32,
        /// The page offset in the slot.
        page_off: usize,
    },
}

/// The mathematical value of a residence.
pub enum ResidenceView {
    Normal,
    Static(Seq<usize>),
    File(FileLocation, int),
    Swap(usize, u32, int),
}

impl View for MapResidence {
    type V = ResidenceView;

    open spec fn view(&self) -> ResidenceView {
        match self {
            MapResidence::Normal => ResidenceView::Normal,
            MapResidence::Static { pages } => ResidenceView::Static(pages@),
            MapResidence::File { location, off } => ResidenceView::File(*location, *off as int),
            MapResidence::Swap { swap_file, slot_id, page_off } => ResidenceView::Swap(
                *swap_file,
                *slot_id,
                *page_off as int,
            ),
        }
    }
}

/// The sequence `s` without its first `k` elements (empty when `k` exceeds its length).
pub open spec fn skip_seq(s: Seq<usize>, k: int) -> Seq<usize> {
    if k >= s.len() {
        Seq::empty()
    } else {
        s.subrange(k, s.len() as int)
    }
}

/// The residence describing the data `k` pages after the beginning of `r`.
pub open spec fn shift(r: ResidenceView, k: int) -> ResidenceView {
    match r {
        ResidenceView::Normal => ResidenceView::Normal,
        ResidenceView::Static(s) => ResidenceView::Static(skip_seq(s, k)),
        ResidenceView::File(l, o) => ResidenceView::File(l, o + k * PAGE_SIZE),
        ResidenceView::Swap(f, s, o) => ResidenceView::Swap(f, s, o + k),
    }
}

/// Whether the offsets of `r` stay representable over `n` pages.
pub open spec fn fits(r: ResidenceView, n: int) -> bool {
    match r {
        ResidenceView::File(_, o) => o + n * PAGE_SIZE <= u64::MAX,
        ResidenceView::Swap(_, _, o) => o + n <= usize::MAX,
        _ => true,
    }
}

/// Shifting twice is shifting by the sum.
pub proof fn lemma_shift_shift(r: ResidenceView, a: int, b: int)
    requires
        0 <= a,
        0 <= b,
    ensures
        shift(shift(r, a), b) == shift(r, a + b),
{
    if let ResidenceView::Static(s) = r {
        assert(skip_seq(skip_seq(s, a), b) =~= skip_seq(s, a + b));
    }
    if let ResidenceView::File(l, o) = r {
        assert(o + a * PAGE_SIZE + b * PAGE_SIZE == o + (a + b) * PAGE_SIZE) by (nonlinear_arith);
    }
}

/// Shifting by zero changes nothing.
pub proof fn lemma_shift_zero(r: ResidenceView)
    ensures
        shift(r, 0) == r,
{
    if let ResidenceView::Static(s) = r {
        assert(skip_seq(s, 0) =~= s);
    }
}

/// Fitting over `n` pages after a shift by `k` follows from fitting over `k + n` pages.
pub proof fn lemma_fits_shift(r: ResidenceView, k: int, n: int)
    requires
        0 <= k,
        0 <= n,
        fits(r, k + n),
    ensures
        fits(shift(r, k), n),
        fits(r, k),
{
    if let ResidenceView::File(l, o) = r {
        assert(o + k * PAGE_SIZE + n * PAGE_SIZE == o + (k + n) * PAGE_SIZE) by (nonlinear_arith);
        assert(n * PAGE_SIZE >= 0) by (nonlinear_arith) requires n >= 0;
    }
}

/// Copies `v` without its first `k` elements.
fn skip_pages(v: &Vec<usize>, k: usize) -> (r: Vec<usize>)
    ensures
        r@ == skip_seq(v@, k as int),
{
    let mut r: Vec<usize> = Vec::new();
    if k >= v.len() {
        return r;
    }
    let mut i: usize = k;
    while i < v.len()
        invariant
            k <= i <= v.len(),
            r@ == v@.subrange(k as int, i as int),
        decreases v.len() - i,
    {
        r.push(v[i]);
        i += 1;
        assert(r@ =~= v@.subrange(k as int, i as int));
    }
    r
}

impl MapResidence {
    /// Tells whether the residence is normal.
    pub fn is_normal(&self) -> (r: bool)
        ensures
            r <==> self@ is Normal,
    {
        match self {
            MapResidence::Normal => true,
            _ => false,
        }
    }

    /// Adds a value of `pages` pages to the offset of the residence, if applicable.
    pub fn offset_add(&mut self, pages: usize)
        requires
            fits(old(self)@, pages as int),
        ensures
            final(self)@ == shift(old(self)@, pages as int),
    {
        match self {
            MapResidence::File { off, .. } => {
                assert(pages as u64 * 4096 <= u64::MAX - *off) by (nonlinear_arith)
                    requires *off as int + pages as int * 4096 <= u64::MAX;
                *off = *off + pages as u64 * PAGE_SIZE as u64;
            },
            MapResidence::Swap { page_off, .. } => {
                *page_off = *page_off + pages;
            },
            MapResidence::Static { pages: frames } => {
                *frames = skip_pages(frames, pages);
            },
            MapResidence::Normal => {},
        }
    }

    /// Returns a residence describing the data `pages` pages after the beginning of this one.
    pub fn shifted(&self, pages: usize) -> (r: MapResidence)
        requires
            fits(self@, pages as int),
        ensures
            r@ == shift(self@, pages as int),
    {
        let mut r = match self {
            MapResidence::Normal => MapResidence::Normal,
            MapResidence::Static { pages: frames } => MapResidence::Static {
                pages: skip_pages(frames, 0),
            },
            MapResidence::File { location, off } => MapResidence::File {
                location: *location,
                off: *off,
            },
            MapResidence::Swap { swap_file, slot_id, page_off } => MapResidence::Swap {
                swap_file: *swap_file,
                slot_id: *slot_id,
                page_off: *page_off,
            },
        };
        proof {
            lemma_shift_zero(self@);
            if let ResidenceView::Static(s) = self@ {
                assert(skip_seq(s, 0) =~= s);
            }
        }
        r.offset_add(pages);
        r
    }
}

} // verus!
