use vstd::prelude::*;

verus! {

/// Error numbers returned by the kernel services of this crate.
#[derive(Clone, Copy, Debug, PartialEq, Eq, Structural)]
pub enum Errno {
    /// An argument is invalid.
    EINVAL,
    /// Memory could not be allocated.
    ENOMEM,
    /// The requested access is not permitted.
    EACCES,
    /// A bad file descriptor was given.
    EBADF,
    /// An address points outside the accessible memory.
    EFAULT,
    /// A value does not fit in its type.
    EOVERFLOW,
}

} // verus!
