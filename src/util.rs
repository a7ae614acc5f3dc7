//! Small helpers used across the kernel.
use vstd::prelude::*;

verus! {

/// Aligns `ptr` down on `n`, a power of two: the result is `ptr` with its low bits cleared.
pub fn down_align(ptr: usize, n: usize) -> (r: usize)
    requires
        n > 0,
        n & (n - 1) as usize == 0,
    ensures
        r == ptr & !((n - 1) as usize),
        r <= ptr,
{
    let m: usize = n - 1;
    let r = ptr & !m;
    assert(ptr & !m <= ptr) by (bit_vector);
    r
}

/// Returns the size of a type in bits.
pub fn bit_size_of<T>() -> (r: usize)
    requires
        vstd::layout::size_of::<T>() * 8 <= usize::MAX,
    ensures
        r == vstd::layout::size_of::<T>() * 8,
{
    core::mem::size_of::<T>() * 8
}

/// The byte is an ASCII decimal digit (`0` is 48, `9` is 57).
pub open spec fn is_digit(c: u8) -> bool {
    48 <= c <= 57
}

/// Returns the length of the string representation of the number at the beginning of `s`: the
/// number of leading decimal digits.
pub fn nbr_len(s: &[u8]) -> (r: usize)
    ensures
        r <= s@.len(),
        forall|i: int| 0 <= i < r ==> is_digit(#[trigger] s@[i]),
        r < s@.len() ==> !is_digit(s@[r as int]),
{
    let mut i: usize = 0;
    while i < s.len()
        invariant
            i <= s@.len(),
            forall|j: int| 0 <= j < i ==> is_digit(#[trigger] s@[j]),
        decreases s@.len() - i,
    {
        if s[i] < 48 || s[i] > 57 {
            return i;
        }
        i += 1;
    }
    i
}

/// Returns the index of the first NUL byte of `s`, if any.
pub fn nul_index(s: &[u8]) -> (r: Option<usize>)
    ensures
        match r {
            Some(i) => i < s@.len() && s@[i as int] == 0 && forall|j: int| 0 <= j < i ==> s@[j] != 0,
            None => forall|j: int| 0 <= j < s@.len() ==> s@[j] != 0,
        },
{
    let mut i: usize = 0;
    while i < s.len()
        invariant
            i <= s@.len(),
            forall|j: int| 0 <= j < i ==> s@[j] != 0,
        decreases s@.len() - i,
    {
        if s[i] == 0 {
            return Some(i);
        }
        i += 1;
    }
    None
}

/// Copies from slice `src` to `dst`, up to the length of the shorter one.
pub fn slice_copy(src: &[u8], dst: &mut [u8])
    ensures
        final(dst)@.len() == old(dst)@.len(),
        ({
            let n = if src@.len() < old(dst)@.len() { src@.len() } else { old(dst)@.len() };
            &&& final(dst)@.subrange(0, n as int) == src@.subrange(0, n as int)
            &&& final(dst)@.subrange(n as int, final(dst)@.len() as int) == old(dst)@.subrange(n as int, old(dst)@.len() as int)
        }),
{
    let len = if src.len() < dst.len() { src.len() } else { dst.len() };
    let mut i: usize = 0;
    while i < len
        invariant
            len <= src@.len(),
            len <= dst@.len(),
            dst@.len() == old(dst)@.len(),
            i <= len,
            len == if src@.len() < old(dst)@.len() { src@.len() } else { old(dst)@.len() },
            forall|j: int| 0 <= j < i ==> dst@[j] == src@[j],
            forall|j: int| i <= j < dst@.len() ==> dst@[j] == old(dst)@[j],
        decreases len - i,
    {
        dst[i] = src[i];
        i += 1;
    }
    assert(dst@.subrange(0, len as int) =~= src@.subrange(0, len as int));
    assert(dst@.subrange(len as int, dst@.len() as int) =~= old(dst)@.subrange(len as int, old(dst)@.len() as int));
}

/// Same as `Clone`, but the operation can fail.
pub trait TryClone: Sized {
    /// Clones the object.
    fn try_clone(&self) -> Result<Self, crate::errno::Errno>;
}

/// Same as `Default`, but the operation can fail.
pub trait TryDefault: Sized {
    /// Returns the default value.
    fn try_default() -> Result<Self, crate::errno::Errno>;
}

/// A byte string meant to be displayed as text.
pub struct DisplayableStr<'a>(pub &'a [u8]);

impl<'a> DisplayableStr<'a> {
    /// The bytes as text, one character per byte.
    pub fn chars(&self) -> (r: Vec<char>)
        ensures
            r@.len() == self.0@.len(),
            forall|i: int| 0 <= i < r@.len() ==> r@[i] == (self.0@[i] as char),
    {
        let mut r: Vec<char> = Vec::new();
        let mut i: usize = 0;
        while i < self.0.len()
            invariant
                i <= self.0@.len(),
                r@.len() == i,
                forall|j: int| 0 <= j < i ==> r@[j] == (self.0@[j] as char),
            decreases self.0@.len() - i,
        {
            r.push(self.0[i] as char);
            i += 1;
        }
        r
    }
}

/// Data stored with the alignment of `Align`.
pub struct Aligned<Align, Data> {
    /// Alignment padding.
    pub _align: [Align; 0],
    /// The data to align.
    pub data: Data,
}

} // verus!
