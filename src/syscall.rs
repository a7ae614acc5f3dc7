//! The computing parts of a few system calls.
use vstd::prelude::*;
use crate::errno::Errno;

verus! {

/// Sets the offset from the given value.
pub const SEEK_SET: u32 = 0;
/// Sets the offset relative to the current offset.
pub const SEEK_CUR: u32 = 1;
/// Sets the offset relative to the end of the file.
pub const SEEK_END: u32 = 2;

/// The offset requested by `_llseek`, from its two halves.
pub open spec fn full_offset(high: u32, low: u32) -> int {
    high * 0x1_0000_0000 + low
}

/// The new offset of a file descriptor for the `_llseek` system call, from the requested
/// offset's two halves, `whence`, the current offset and the file's size.
pub fn _llseek(offset_high: u32, offset_low: u32, whence: u32, cur: u64, file_size: u64) -> (r: Result<u64, Errno>)
    ensures
        whence != SEEK_SET && whence != SEEK_CUR && whence != SEEK_END <==> r == Err::<u64, Errno>(Errno::EINVAL),
        ({
            let base: int = if whence == SEEK_CUR { cur as int } else if whence == SEEK_END { file_size as int } else { 0 };
            let off = base + full_offset(offset_high, offset_low);
            (whence == SEEK_SET || whence == SEEK_CUR || whence == SEEK_END) ==> if off <= u64::MAX {
                r == Ok::<u64, Errno>(off as u64)
            } else {
                r == Err::<u64, Errno>(Errno::EOVERFLOW)
            }
        }),
{
    let off: u64 = offset_high as u64 * 0x1_0000_0000 + offset_low as u64;
    let base: u64 = match whence {
        SEEK_SET => 0,
        SEEK_CUR => cur,
        SEEK_END => file_size,
        _ => return Err(Errno::EINVAL),
    };
    if off > u64::MAX - base {
        return Err(Errno::EOVERFLOW);
    }
    Ok(base + off)
}

/// A signal action.
#[derive(Clone, Copy, Debug, PartialEq, Eq, Structural)]
pub struct SigAction {
    /// The address of the handler.
    pub sa_handler: usize,
    /// The action's flags.
    pub sa_flags: u64,
    /// The signals blocked while the handler runs.
    pub sa_mask: u64,
}

/// The `rt_sigaction` system call on the process's table of actions, one per signal: returns the
/// action of `signum` and replaces it with `act` when one is given.
pub fn rt_sigaction(signum: i32, act: Option<SigAction>, actions: &mut Vec<SigAction>) -> (r: Result<SigAction, Errno>)
    ensures
        (signum < 0 || signum >= old(actions)@.len()) <==> r == Err::<SigAction, Errno>(Errno::EINVAL),
        r is Err ==> final(actions)@ == old(actions)@,
        r matches Ok(o) ==> o == old(actions)@[signum as int] && final(actions)@ == match act {
            Some(a) => old(actions)@.update(signum as int, a),
            None => old(actions)@,
        },
{
    if signum < 0 || signum as usize >= actions.len() {
        return Err(Errno::EINVAL);
    }
    let i = signum as usize;
    let old_action = actions[i];
    if let Some(a) = act {
        actions.set(i, a);
    }
    Ok(old_action)
}

/// The attributes of a file that `statx` reports.
#[derive(Clone, Copy, Debug)]
pub struct FileStatus {
    pub hard_links: u16,
    pub uid: u16,
    pub gid: u16,
    pub mode: u32,
    pub inode: u64,
    pub size: u64,
    pub blocks: u64,
    pub atime: u64,
    pub ctime: u64,
    pub mtime: u64,
    /// The major and minor numbers of the device, for a device file.
    pub rdev: Option<(u32, u32)>,
    /// The major and minor numbers of the device holding the file's filesystem, if any.
    pub dev: Option<(u32, u32)>,
}

/// A timestamp reported by `statx`.
#[derive(Clone, Copy, Debug, PartialEq, Eq, Structural)]
pub struct StatxTimestamp {
    /// Seconds since the Epoch.
    pub tv_sec: i64,
    /// Nanoseconds since `tv_sec`.
    pub tv_nsec: u32,
}

/// The extended status of a file.
#[derive(Clone, Copy, Debug, PartialEq, Eq, Structural)]
pub struct Statx {
    pub stx_mask: u32,
    pub stx_blksize: u32,
    pub stx_attributes: u64,
    pub stx_nlink: u32,
    pub stx_uid: u32,
    pub stx_gid: u32,
    pub stx_mode: u16,
    pub stx_ino: u64,
    pub stx_size: u64,
    pub stx_blocks: u64,
    pub stx_attributes_mask: u64,
    pub stx_atime: StatxTimestamp,
    pub stx_btime: StatxTimestamp,
    pub stx_ctime: StatxTimestamp,
    pub stx_mtime: StatxTimestamp,
    pub stx_rdev_major: u32,
    pub stx_rdev_minor: u32,
    pub stx_dev_major: u32,
    pub stx_dev_minor: u32,
    pub stx_mnt_id: u64,
}

/// A timestamp of whole seconds.
pub open spec fn stamp(t: u64) -> StatxTimestamp {
    StatxTimestamp { tv_sec: t as i64, tv_nsec: 0 }
}

fn stamp_of(t: u64) -> (r: StatxTimestamp)
    ensures
        r == stamp(t),
{
    StatxTimestamp { tv_sec: t as i64, tv_nsec: 0 }
}

/// The `statx` structure describing a file with the given attributes.
pub fn statx(f: &FileStatus) -> (r: Statx)
    ensures
        r.stx_mask == u32::MAX && r.stx_blksize == 512 && r.stx_attributes == 0 && r.stx_attributes_mask == 0,
        r.stx_nlink == f.hard_links as u32 && r.stx_uid == f.uid as u32 && r.stx_gid == f.gid as u32,
        r.stx_mode == f.mode as u16 && r.stx_ino == f.inode && r.stx_size == f.size && r.stx_blocks == f.blocks,
        r.stx_atime == stamp(f.atime) && r.stx_ctime == stamp(f.ctime) && r.stx_mtime == stamp(f.mtime),
        r.stx_btime == stamp(0),
        match f.rdev {
            Some((a, b)) => r.stx_rdev_major == a && r.stx_rdev_minor == b,
            None => r.stx_rdev_major == 0 && r.stx_rdev_minor == 0,
        },
        match f.dev {
            Some((a, b)) => r.stx_dev_major == a && r.stx_dev_minor == b,
            None => r.stx_dev_major == 0 && r.stx_dev_minor == 0,
        },
        r.stx_mnt_id == 0,
{
    let (stx_rdev_major, stx_rdev_minor) = match f.rdev {
        Some((a, b)) => (a, b),
        None => (0, 0),
    };
    let (stx_dev_major, stx_dev_minor) = match f.dev {
        Some((a, b)) => (a, b),
        None => (0, 0),
    };
    Statx {
        stx_mask: u32::MAX,
        stx_blksize: 512,
        stx_attributes: 0,
        stx_nlink: f.hard_links as u32,
        stx_uid: f.uid as u32,
        stx_gid: f.gid as u32,
        stx_mode: f.mode as u16,
        stx_ino: f.inode,
        stx_size: f.size,
        stx_blocks: f.blocks,
        stx_attributes_mask: 0,
        stx_atime: stamp_of(f.atime),
        stx_btime: stamp_of(0),
        stx_ctime: stamp_of(f.ctime),
        stx_mtime: stamp_of(f.mtime),
        stx_rdev_major,
        stx_rdev_minor,
        stx_dev_major,
        stx_dev_minor,
        stx_mnt_id: 0,
    }
}

} // verus!
