//! A minimal filesystem over an abstract block device: a write-back block
//! cache with a bounded pool, bit-per-unit allocators, the fixed on-disk
//! layout (super block, inode table, directory entries, three-tier block
//! addressing), and the user-facing inode handle built on top.
use vstd::prelude::*;

pub mod bitmap;
pub mod block_cache;
pub mod block_dev;
pub mod efs;
pub mod layout;
pub mod vfs;

verus! {

/// Size in bytes of one device block and of one cache buffer.
pub const BLOCK_SIZE: usize = 512;

/// Bound on the number of blocks the cache pool may hold at once.
pub const BLOCK_CACHE_SIZE: usize = 16;

/// Number of allocation bits addressed by one bitmap block.
pub const BLOCK_BITS: usize = BLOCK_SIZE * 8;

/// Magic number stamped into every valid super block.
pub const EFS_MAGIC: u32 = 0x3b80_0001;

/// Number of direct block pointers held by one disk inode.
pub const INODE_DIRECT_COUNT: usize = 28;

/// Number of block pointers held by one indirect table block.
pub const INODE_INDIRECT1_COUNT: usize = BLOCK_SIZE / 4;

/// Logical block indices below this bound resolve through a direct pointer.
pub const DIRECT_BOUND: usize = INODE_DIRECT_COUNT;

/// Logical block indices below this bound (and not direct) resolve through
/// the single-indirect table.
pub const INDIRECT1_BOUND: usize = DIRECT_BOUND + INODE_INDIRECT1_COUNT;

/// Longest directory-entry name, in bytes, not counting the NUL terminator.
pub const NAME_LENGTH_LIMIT: usize = 27;

/// Size in bytes of one on-disk directory entry record.
pub const DIRENT_SIZE: usize = 32;

/// Size in bytes of one on-disk inode record.
pub const DISK_INODE_SIZE: usize = 128;

/// Failures of the core. All of them are final at this layer: they signal a
/// caller's programming error or an environment limit, never a transient
/// condition.
#[derive(Clone, Copy, Debug, PartialEq, Eq, Structural)]
pub enum FsError {
    /// Every cache slot is externally held, or a bitmap has no clear bit.
    CapacityExhausted,
    /// The super block's magic does not match `EFS_MAGIC`.
    CorruptVolume,
    /// A double free, or an operation applied to the wrong kind of inode.
    InvariantViolation,
}

} // verus!
