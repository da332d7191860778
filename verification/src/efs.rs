//! The disk-block manager: it computes the five-region layout, formats a
//! device, validates a volume on mount, and owns the two allocators and the
//! cache through which every access flows.
use vstd::prelude::*;

use vstd::arithmetic::div_mod::{lemma_div_is_ordered, lemma_fundamental_div_mod};

use crate::bitmap::{bitmap_bit, Bitmap};
use crate::block_cache::{splice_bytes, vdisk, BlockCacheManager};
use crate::block_dev::{zero_block, BlockDevice};
use crate::layout::{
    disk_inode_bytes, disk_inode_of_bytes, super_block_bytes, super_block_of_bytes, DiskInode,
    DiskInodeType, SuperBlock,
};
use crate::{FsError, BLOCK_BITS, BLOCK_SIZE, DISK_INODE_SIZE, EFS_MAGIC};

verus! {

/// Inode records one bitmap block's bits can describe fill this many
/// blocks: `BLOCK_BITS` records of `DISK_INODE_SIZE` bytes each.
pub open spec fn inode_area_blocks_spec(inode_bitmap_blocks: u32) -> int {
    inode_bitmap_blocks * (BLOCK_BITS as int * DISK_INODE_SIZE as int / BLOCK_SIZE as int)
}

/// Blocks left for the data bitmap and the data area together.
pub open spec fn data_total_blocks_spec(total_blocks: u32, inode_bitmap_blocks: u32) -> int {
    total_blocks - 1 - inode_bitmap_blocks - inode_area_blocks_spec(inode_bitmap_blocks)
}

/// Blocks given to the data bitmap: the least count whose bits cover the
/// remaining blocks, one bitmap block per `BLOCK_BITS` data blocks.
pub open spec fn data_bitmap_blocks_spec(total_blocks: u32, inode_bitmap_blocks: u32) -> int {
    (data_total_blocks_spec(total_blocks, inode_bitmap_blocks) + BLOCK_BITS)
        / (BLOCK_BITS as int + 1)
}

/// Blocks left for file and directory content.
pub open spec fn data_area_blocks_spec(total_blocks: u32, inode_bitmap_blocks: u32) -> int {
    data_total_blocks_spec(total_blocks, inode_bitmap_blocks) - data_bitmap_blocks_spec(
        total_blocks,
        inode_bitmap_blocks,
    )
}

/// The chosen data-bitmap sizing always covers the data area: the bitmap
/// blocks hold at least one bit per data-area block.
pub proof fn lemma_data_bitmap_covers(total_blocks: u32, inode_bitmap_blocks: u32)
    requires
        data_total_blocks_spec(total_blocks, inode_bitmap_blocks) >= 0,
    ensures
        data_bitmap_blocks_spec(total_blocks, inode_bitmap_blocks) * BLOCK_BITS
            >= data_area_blocks_spec(total_blocks, inode_bitmap_blocks),
{
    let dt = data_total_blocks_spec(total_blocks, inode_bitmap_blocks);
    let q = (dt + BLOCK_BITS) / (BLOCK_BITS as int + 1);
    lemma_fundamental_div_mod(dt + BLOCK_BITS, BLOCK_BITS as int + 1);
    assert(q * (BLOCK_BITS as int + 1) == q * BLOCK_BITS as int + q) by (nonlinear_arith);
}

/// What formatting asks of its arguments: at least one inode-bitmap block,
/// and enough blocks for the super block, the inode region and a data
/// region.
pub open spec fn geometry_ok(total_blocks: u32, inode_bitmap_blocks: u32) -> bool {
    &&& inode_bitmap_blocks >= 1
    &&& data_total_blocks_spec(total_blocks, inode_bitmap_blocks) >= 2
}

/// What a super block must record for its volume to mount on a device of
/// `n` blocks: the magic, and a geometry that is internally consistent and
/// fits the device.
pub open spec fn mount_ok(sb: SuperBlock, n: int) -> bool {
    &&& sb.is_valid_spec()
    &&& sb.inode_bitmap_blocks >= 1
    &&& sb.total_blocks <= n
    &&& sb.inode_area_blocks == inode_area_blocks_spec(sb.inode_bitmap_blocks)
    &&& sb.inode_bitmap_blocks * BLOCK_BITS as int <= u32::MAX
    &&& 1 + sb.inode_bitmap_blocks + sb.inode_area_blocks + sb.data_bitmap_blocks
        + sb.data_area_blocks <= sb.total_blocks
    &&& sb.data_area_blocks <= sb.data_bitmap_blocks * BLOCK_BITS as int
    &&& sb.data_bitmap_blocks * BLOCK_BITS as int <= usize::MAX
}

/// The filesystem: the device, the cache every access goes through, the
/// two allocators, and where the inode and data regions start.
pub struct EasyFileSystem<D: BlockDevice> {
    /// The underlying device.
    pub block_device: D,
    /// The cache pool all block access goes through.
    pub cache: BlockCacheManager,
    /// Allocator of inode numbers.
    pub inode_bitmap: Bitmap,
    /// Allocator of data-area blocks.
    pub data_bitmap: Bitmap,
    /// First block of the packed inode records.
    pub inode_area_start_block: u32,
    /// First block of file and directory content.
    pub data_area_start_block: u32,
    /// Length of the data area in blocks.
    pub data_area_blocks: u32,
}

impl<D: BlockDevice> EasyFileSystem<D> {
    /// How many blocks the device holds.
    pub open spec fn n(&self) -> int {
        self.block_device.blocks().len() as int
    }

    /// The volume as seen through the cache.
    pub open spec fn disk(&self) -> Seq<Seq<u8>> {
        vdisk(self.cache, self.block_device.blocks())
    }

    /// The running invariant: cache and device are well formed and agree,
    /// no handle is outstanding between operations, and both regions lie
    /// inside the device.
    pub open spec fn wf(&self) -> bool {
        &&& self.cache.wf()
        &&& self.cache.all_free()
        &&& self.block_device.device_wf()
        &&& self.cache.ids_below(self.n())
        &&& self.cache.coherent(self.block_device.blocks())
        &&& self.inode_bitmap.in_range(self.n())
        &&& self.inode_bitmap.start_block_id == 1
        &&& self.data_bitmap.in_range(self.n())
        &&& self.inode_area_start_block == 1 + self.inode_bitmap.blocks
        &&& self.inode_bitmap.maximum_spec() <= u32::MAX
        &&& self.inode_area_start_block + self.inode_bitmap.maximum_spec() / 4 <= self.n()
        &&& self.inode_area_start_block + self.inode_bitmap.maximum_spec() / 4 <= u32::MAX
        &&& 1 <= self.data_area_start_block
        &&& self.data_bitmap.start_block_id == self.inode_area_start_block
            + self.inode_bitmap.maximum_spec() / 4
        &&& self.data_area_start_block == self.data_bitmap.start_block_id + self.data_bitmap.blocks
        &&& self.data_area_start_block + self.data_area_blocks <= self.n()
        &&& self.data_area_start_block + self.data_area_blocks <= u32::MAX
        &&& self.data_area_blocks <= self.data_bitmap.maximum_spec()
    }

    /// Overwrite the first `total_blocks` blocks of the volume with zeros.
    fn zero_blocks(efs: &mut Self, total_blocks: u32)
        requires
            old(efs).cache.wf(),
            old(efs).cache.all_free(),
            old(efs).block_device.device_wf(),
            old(efs).cache.ids_below(old(efs).n()),
            old(efs).cache.coherent(old(efs).block_device.blocks()),
            total_blocks <= old(efs).n(),
            old(efs).n() <= usize::MAX,
        ensures
            final(efs).cache.wf(),
            final(efs).cache.all_free(),
            final(efs).block_device.device_wf(),
            final(efs).n() == old(efs).n(),
            final(efs).cache.ids_below(old(efs).n()),
            final(efs).cache.coherent(final(efs).block_device.blocks()),
            *final(efs) == (EasyFileSystem {
                cache: final(efs).cache,
                block_device: final(efs).block_device,
                ..*old(efs)
            }),
            forall|b: int| 0 <= b < total_blocks ==> #[trigger] final(efs).disk()[b]
                == zero_block(),
    {
        let mut zeros: Vec<u8> = Vec::new();
        let mut z: usize = 0;
        while z < BLOCK_SIZE
            invariant
                z <= BLOCK_SIZE,
                zeros@.len() == z,
                forall|k: int| 0 <= k < z ==> zeros@[k] == 0u8,
            decreases BLOCK_SIZE - z,
        {
            zeros.push(0u8);
            z = z + 1;
        }
        proof {
            assert(zeros@ =~= zero_block());
        }
        let ghost n0 = old(efs).n();
        let mut i: u32 = 0;
        while i < total_blocks
            invariant
                i <= total_blocks,
                total_blocks <= n0,
                n0 <= usize::MAX,
                zeros@ == zero_block(),
                efs.cache.wf(),
                efs.cache.all_free(),
                efs.block_device.device_wf(),
                efs.n() == n0,
                efs.cache.ids_below(n0),
                efs.cache.coherent(efs.block_device.blocks()),
                *efs == (EasyFileSystem {
                    cache: efs.cache,
                    block_device: efs.block_device,
                    ..*old(efs)
                }),
                forall|b: int| 0 <= b < i ==> #[trigger] efs.disk()[b] == zero_block(),
            decreases total_blocks - i,
        {
            let ghost diskp = efs.disk();
            proof {
                efs.block_device.lemma_device_wf();
                crate::block_cache::lemma_vdisk_wf(efs.cache, efs.block_device.blocks());
            }
            efs.cache.cached_write(&mut efs.block_device, i as usize, 0, &zeros);
            proof {
                crate::block_cache::lemma_splice_frame(diskp[i as int], 0, zeros@);
                assert(efs.disk()[i as int] =~= zero_block());
                assert(forall|b: int|
                    0 <= b < i + 1 ==> #[trigger] efs.disk()[b] == zero_block());
            }
            i = i + 1;
        }
    }

    /// Format `block_device` as a fresh volume: compute the five-region
    /// layout from the chosen inode-bitmap size, zero every block, stamp a
    /// valid super block into block 0, and allocate the root directory's
    /// inode (number 0) so the volume never has zero inodes allocated.
    #[verifier::rlimit(100)]
    pub fn create(block_device: D, total_blocks: u32, inode_bitmap_blocks: u32) -> (r: Self)
        requires
            block_device.device_wf(),
            total_blocks <= block_device.blocks().len(),
            block_device.blocks().len() <= usize::MAX,
            geometry_ok(total_blocks, inode_bitmap_blocks),
            inode_bitmap_blocks * BLOCK_BITS as int <= u32::MAX,
        ensures
            r.wf(),
            r.n() == block_device.blocks().len(),
            r.inode_bitmap.blocks == inode_bitmap_blocks,
            r.data_bitmap.blocks == data_bitmap_blocks_spec(total_blocks, inode_bitmap_blocks),
            r.inode_area_start_block == 1 + inode_bitmap_blocks,
            r.data_area_start_block == 1 + inode_bitmap_blocks + inode_area_blocks_spec(
                inode_bitmap_blocks,
            ) + data_bitmap_blocks_spec(total_blocks, inode_bitmap_blocks),
            r.data_area_blocks == data_area_blocks_spec(total_blocks, inode_bitmap_blocks),
            super_block_of_bytes(r.disk()[0].subrange(0, 24)) == (SuperBlock {
                magic: EFS_MAGIC,
                total_blocks,
                inode_bitmap_blocks,
                inode_area_blocks: inode_area_blocks_spec(inode_bitmap_blocks) as u32,
                data_bitmap_blocks: data_bitmap_blocks_spec(total_blocks, inode_bitmap_blocks)
                    as u32,
                data_area_blocks: data_area_blocks_spec(total_blocks, inode_bitmap_blocks) as u32,
            }),
            super_block_of_bytes(r.disk()[0].subrange(0, 24)).is_valid_spec(),
            disk_inode_of_bytes(
                r.disk()[r.inode_area_start_block as int].subrange(0, DISK_INODE_SIZE as int),
            ).size == 0,
            disk_inode_of_bytes(
                r.disk()[r.inode_area_start_block as int].subrange(0, DISK_INODE_SIZE as int),
            ).type_ == DiskInodeType::Directory,
            bitmap_bit(r.disk(), 1, 0),
    {
        let n = block_device.num_blocks();
        let inode_area_blocks: u32 = inode_bitmap_blocks * ((BLOCK_BITS as u32
            * DISK_INODE_SIZE as u32) / BLOCK_SIZE as u32);
        let inode_total_blocks: u32 = inode_bitmap_blocks + inode_area_blocks;
        let data_total_blocks: u32 = total_blocks - 1 - inode_total_blocks;
        proof {
            lemma_div_is_ordered(
                data_total_blocks as int + BLOCK_BITS,
                (BLOCK_BITS as int + 1) * data_total_blocks as int,
                BLOCK_BITS as int + 1,
            );
            vstd::arithmetic::div_mod::lemma_div_multiples_vanish(
                data_total_blocks as int,
                BLOCK_BITS as int + 1,
            );
            assert((BLOCK_BITS as int + 1) * data_total_blocks as int == BLOCK_BITS as int
                * data_total_blocks as int + data_total_blocks as int) by (nonlinear_arith);
        }
        let data_bitmap_blocks: u32 = ((data_total_blocks as u64 + BLOCK_BITS as u64) / (
        BLOCK_BITS as u64 + 1)) as u32;
        let data_area_blocks: u32 = data_total_blocks - data_bitmap_blocks;
        let mut efs = EasyFileSystem {
            block_device,
            cache: BlockCacheManager::new(),
            inode_bitmap: Bitmap::new(1, inode_bitmap_blocks as usize),
            data_bitmap: Bitmap::new(
                (1 + inode_total_blocks) as usize,
                data_bitmap_blocks as usize,
            ),
            inode_area_start_block: 1 + inode_bitmap_blocks,
            data_area_start_block: 1 + inode_total_blocks + data_bitmap_blocks,
            data_area_blocks,
        };
        proof {
            efs.block_device.lemma_device_wf();
            crate::block_cache::lemma_vdisk_wf(efs.cache, efs.block_device.blocks());
            lemma_data_bitmap_covers(total_blocks, inode_bitmap_blocks);
            lemma_fundamental_div_mod(
                data_total_blocks as int + BLOCK_BITS,
                BLOCK_BITS as int + 1,
            );
        }
        Self::zero_blocks(&mut efs, total_blocks);
        proof {
            assert(inode_area_blocks as int == inode_bitmap_blocks as int * 1024);
            assert(inode_bitmap_blocks as int * 4096 == 4 * (inode_bitmap_blocks as int * 1024))
                by (nonlinear_arith);
            vstd::arithmetic::div_mod::lemma_div_multiples_vanish(
                inode_bitmap_blocks as int * 1024,
                4,
            );
            assert(efs.inode_bitmap.maximum_spec() / 4 == inode_bitmap_blocks as int * 1024);
            assert(data_total_blocks as int == data_total_blocks_spec(
                total_blocks,
                inode_bitmap_blocks,
            ));
            assert(data_bitmap_blocks as int == data_bitmap_blocks_spec(
                total_blocks,
                inode_bitmap_blocks,
            ));
            assert(efs.data_bitmap.maximum_spec() == data_bitmap_blocks as int * 4096);
            assert(efs.data_area_blocks as int <= efs.data_bitmap.maximum_spec());
            assert(efs.wf());
        }
        Self::setup_volume(
            &mut efs,
            total_blocks,
            inode_bitmap_blocks,
            inode_area_blocks,
            data_bitmap_blocks,
            data_area_blocks,
        );
        efs
    }

    /// On a zeroed volume, stamp the super block into block 0 and set up
    /// the root directory: allocate inode 0 and write its empty record.
    #[verifier::rlimit(100)]
    fn setup_volume(
        efs: &mut Self,
        total_blocks: u32,
        inode_bitmap_blocks: u32,
        inode_area_blocks: u32,
        data_bitmap_blocks: u32,
        data_area_blocks: u32,
    )
        requires
            old(efs).wf(),
            old(efs).disk()[0] == zero_block(),
            old(efs).disk()[1] == zero_block(),
            old(efs).disk()[old(efs).inode_area_start_block as int] == zero_block(),
            old(efs).inode_area_start_block >= 2,
        ensures
            final(efs).wf(),
            *final(efs) == (EasyFileSystem {
                cache: final(efs).cache,
                block_device: final(efs).block_device,
                ..*old(efs)
            }),
            final(efs).n() == old(efs).n(),
            super_block_of_bytes(final(efs).disk()[0].subrange(0, 24)) == (SuperBlock {
                magic: EFS_MAGIC,
                total_blocks,
                inode_bitmap_blocks,
                inode_area_blocks,
                data_bitmap_blocks,
                data_area_blocks,
            }),
            disk_inode_of_bytes(
                final(efs).disk()[old(efs).inode_area_start_block as int].subrange(
                    0,
                    DISK_INODE_SIZE as int,
                ),
            ).size == 0,
            disk_inode_of_bytes(
                final(efs).disk()[old(efs).inode_area_start_block as int].subrange(
                    0,
                    DISK_INODE_SIZE as int,
                ),
            ).type_ == DiskInodeType::Directory,
            bitmap_bit(final(efs).disk(), 1, 0),
    {
        let mut sb = SuperBlock {
            magic: 0,
            total_blocks: 0,
            inode_bitmap_blocks: 0,
            inode_area_blocks: 0,
            data_bitmap_blocks: 0,
            data_area_blocks: 0,
        };
        sb.initialize(
            total_blocks,
            inode_bitmap_blocks,
            inode_area_blocks,
            data_bitmap_blocks,
            data_area_blocks,
        );
        let sb_bytes = sb.to_bytes();
        efs.cache.cached_write(&mut efs.block_device, 0, 0, &sb_bytes);
        proof {
            crate::block_cache::lemma_splice_frame(zero_block(), 0, sb_bytes@);
            assert(efs.disk()[0].subrange(0, 24) =~= super_block_bytes(sb));
            crate::layout::lemma_super_block_round_trip(sb);
            assert(efs.wf());
        }
        let ghost disk_sb = efs.disk();
        let root_bit = match efs.alloc_inode() {
            Ok(b) => b,
            Err(_) => {
                proof {
                    assert(bitmap_bit(disk_sb, 1, 0));
                    assert(disk_sb[1] == zero_block());
                    assert(0u8 & (1u8 << 0u8) == 0) by (bit_vector);
                    assert(false);
                }
                vstd::pervasive::unreached()
            },
        };
        proof {
            assert(root_bit == 0) by {
                if root_bit > 0 {
                    assert(bitmap_bit(disk_sb, 1, 0));
                    assert(disk_sb[1] == zero_block());
                    assert(0u8 & (1u8 << 0u8) == 0) by (bit_vector);
                }
            }
        }
        let mut root = DiskInode {
            size: 0,
            direct: Vec::new(),
            indirect1: 0,
            indirect2: 0,
            type_: DiskInodeType::File,
        };
        root.initialize(DiskInodeType::Directory);
        let ghost disk_alloc = efs.disk();
        efs.write_disk_inode(0, &root);
        proof {
            crate::block_cache::lemma_splice_frame(
                disk_alloc[efs.inode_area_start_block as int],
                0,
                disk_inode_bytes(root@),
            );
            assert(efs.disk()[efs.inode_area_start_block as int].subrange(
                0,
                DISK_INODE_SIZE as int,
            ) =~= disk_inode_bytes(root@));
            crate::layout::lemma_disk_inode_round_trip(root@);
            assert(efs.disk()[0] == disk_sb[0]);
            assert(efs.disk()[0].subrange(0, 24) == super_block_bytes(sb));
        }
    }

    /// Mount a volume: read the super block out of block 0 and refuse the
    /// device unless its magic matches and its recorded geometry describes
    /// a volume that fits this device.
    #[verifier::rlimit(100)]
    pub fn open(block_device: D) -> (r: Result<Self, FsError>)
        requires
            block_device.device_wf(),
            block_device.blocks().len() <= usize::MAX,
        ensures
            r is Ok <==> block_device.blocks().len() >= 1 && mount_ok(
                super_block_of_bytes(block_device.blocks()[0].subrange(0, 24)),
                block_device.blocks().len() as int,
            ),
            r is Err ==> r == Err::<Self, FsError>(FsError::CorruptVolume),
            r matches Ok(fs) ==> {
                let sb = super_block_of_bytes(block_device.blocks()[0].subrange(0, 24));
                &&& fs.wf()
                &&& fs.n() == block_device.blocks().len()
                &&& fs.inode_bitmap.blocks == sb.inode_bitmap_blocks
                &&& fs.data_bitmap.blocks == sb.data_bitmap_blocks
                &&& fs.inode_area_start_block == 1 + sb.inode_bitmap_blocks
                &&& fs.data_area_start_block == 1 + sb.inode_bitmap_blocks + sb.inode_area_blocks
                    + sb.data_bitmap_blocks
                &&& fs.data_area_blocks == sb.data_area_blocks
            },
    {
        let mut dev = block_device;
        let mut cache = BlockCacheManager::new();
        let n = dev.num_blocks();
        if n == 0 {
            return Err(FsError::CorruptVolume);
        }
        let ghost disk0 = vdisk(cache, dev.blocks());
        proof {
            dev.lemma_device_wf();
            crate::block_cache::lemma_vdisk_wf(cache, dev.blocks());
            assert(disk0 =~= dev.blocks());
        }
        let bytes = cache.cached_read(&mut dev, 0, 0, 24);
        let sb = SuperBlock::of_bytes(&bytes);
        proof {
            assert(bytes@ == disk0[0].subrange(0, 24));
            assert(sb == super_block_of_bytes(block_device.blocks()[0].subrange(0, 24)));
        }
        if !Self::sb_mountable(&sb, n) {
            return Err(FsError::CorruptVolume);
        }
        let ib = sb.inode_bitmap_blocks;
        let ia = sb.inode_area_blocks;
        let dbb = sb.data_bitmap_blocks;
        let dab = sb.data_area_blocks;
        let fs = Self::assemble(dev, cache, &sb);
        Ok(fs)
    }

    /// Build the mounted filesystem from a super block that passed the
    /// mount checks.
    fn assemble(block_device: D, cache: BlockCacheManager, sb: &SuperBlock) -> (fs: Self)
        requires
            block_device.device_wf(),
            block_device.blocks().len() <= usize::MAX,
            cache.wf(),
            cache.all_free(),
            cache.ids_below(block_device.blocks().len() as int),
            cache.coherent(block_device.blocks()),
            mount_ok(*sb, block_device.blocks().len() as int),
        ensures
            fs.wf(),
            fs.block_device == block_device,
            fs.n() == block_device.blocks().len(),
            fs.cache == cache,
            fs.inode_bitmap.blocks == sb.inode_bitmap_blocks,
            fs.data_bitmap.blocks == sb.data_bitmap_blocks,
            fs.inode_area_start_block == 1 + sb.inode_bitmap_blocks,
            fs.data_area_start_block == 1 + sb.inode_bitmap_blocks + sb.inode_area_blocks
                + sb.data_bitmap_blocks,
            fs.data_area_blocks == sb.data_area_blocks,
    {
        let ib = sb.inode_bitmap_blocks;
        let ia = sb.inode_area_blocks;
        let dbb = sb.data_bitmap_blocks;
        let dab = sb.data_area_blocks;
        let fs = EasyFileSystem {
            block_device,
            cache,
            inode_bitmap: Bitmap::new(1, ib as usize),
            data_bitmap: Bitmap::new((1 + ib + ia) as usize, dbb as usize),
            inode_area_start_block: 1 + ib,
            data_area_start_block: 1 + ib + ia + dbb,
            data_area_blocks: dab,
        };
        proof {
            assert(ib as int * 4096 == 4 * (ib as int * 1024)) by (nonlinear_arith);
            vstd::arithmetic::div_mod::lemma_div_multiples_vanish(ib as int * 1024, 4);
            assert(fs.inode_bitmap.maximum_spec() == ib as int * 4096);
            assert(fs.inode_bitmap.maximum_spec() / 4 == ib as int * 1024);
            assert(fs.inode_bitmap.in_range(fs.n()));
            assert(fs.data_bitmap.maximum_spec() == dbb as int * 4096);
            assert(fs.data_bitmap.start_block_id + fs.data_bitmap.blocks <= fs.n());
            assert(dbb as int * 4096 <= 0xffff_ffff as int * 4096);
            assert(fs.data_bitmap.maximum_spec() <= usize::MAX);
            assert(fs.data_bitmap.start_block_id + fs.data_bitmap.blocks <= usize::MAX);
            assert(fs.data_bitmap.in_range(fs.n()));
            assert(fs.inode_area_start_block + fs.inode_bitmap.maximum_spec() / 4 <= fs.n());
            assert(fs.data_area_start_block + fs.data_area_blocks <= fs.n());
            assert(fs.data_area_blocks <= fs.data_bitmap.maximum_spec());
            assert(fs.wf());
        }
        fs
    }

    /// Whether a decoded super block describes a volume this device can
    /// mount.
    fn sb_mountable(sb: &SuperBlock, n: usize) -> (r: bool)
        ensures
            r == mount_ok(*sb, n as int),
    {
        let ib = sb.inode_bitmap_blocks;
        let ia = sb.inode_area_blocks;
        let dbb = sb.data_bitmap_blocks;
        let dab = sb.data_area_blocks;
        proof {
            assert(BLOCK_BITS == 4096);
        }
        sb.is_valid() && ib >= 1 && (sb.total_blocks as usize) <= n && (ia as u64) == (ib as u64)
            * 1024 && (ib as u64) * 4096 <= (u32::MAX as u64) && 1 + (ib as u64) + (ia as u64) + (
        dbb as u64) + (dab as u64) <= (sb.total_blocks as u64) && (dab as u64) <= (dbb as u64)
            * 4096 && (dbb as u64) * 4096 <= (usize::MAX as u64)
    }

    /// Convert a logical inode number to the block and byte offset of its
    /// record inside the inode area: four 128-byte records per block.
    pub fn get_disk_inode_pos(&self, inode_id: u32) -> (r: (u32, usize))
        requires
            self.wf(),
            inode_id < self.inode_bitmap.maximum_spec(),
        ensures
            r.0 == self.inode_area_start_block + inode_id / 4,
            r.1 == (inode_id % 4) * DISK_INODE_SIZE,
            r.1 + DISK_INODE_SIZE <= BLOCK_SIZE,
            0 < r.0 < self.n(),
            (r.0 as int) < self.data_bitmap.start_block_id,
    {
        proof {
            lemma_div_is_ordered(
                inode_id as int,
                self.inode_bitmap.maximum_spec() - 1,
                4,
            );
            let m = self.inode_bitmap.maximum_spec();
            assert(self.inode_bitmap.blocks * BLOCK_BITS as int == 4 * (self.inode_bitmap.blocks
                * (BLOCK_BITS as int / 4))) by (nonlinear_arith);
            vstd::arithmetic::div_mod::lemma_div_multiples_vanish(
                self.inode_bitmap.blocks * (BLOCK_BITS as int / 4),
                4,
            );
            assert(m == 4 * (m / 4));
            vstd::arithmetic::div_mod::lemma_fundamental_div_mod_converse(
                m - 1,
                4,
                m / 4 - 1,
                3,
            );
            assert((m - 1) / 4 == m / 4 - 1);
        }
        (
            self.inode_area_start_block + inode_id / 4,
            (inode_id as usize % 4) * DISK_INODE_SIZE,
        )
    }

    /// Read the inode record `inode_id` out of the volume.
    pub fn read_disk_inode(&mut self, inode_id: u32) -> (r: DiskInode)
        requires
            old(self).wf(),
            inode_id < old(self).inode_bitmap.maximum_spec(),
        ensures
            final(self).wf(),
            *final(self) == (EasyFileSystem {
                cache: final(self).cache,
                block_device: final(self).block_device,
                ..*old(self)
            }),
            final(self).disk() == old(self).disk(),
            final(self).n() == old(self).n(),
            r@ == disk_inode_of_bytes(
                old(self).disk()[old(self).inode_area_start_block + inode_id as int / 4].subrange(
                    (inode_id as int % 4) * DISK_INODE_SIZE,
                    (inode_id as int % 4) * DISK_INODE_SIZE + DISK_INODE_SIZE,
                ),
            ),
            r.wf(),
    {
        proof {
            self.block_device.lemma_device_wf();
            crate::block_cache::lemma_vdisk_wf(self.cache, self.block_device.blocks());
        }
        let (block_id, offset) = self.get_disk_inode_pos(inode_id);
        let bytes = self.cache.cached_read(
            &mut self.block_device,
            block_id as usize,
            offset,
            DISK_INODE_SIZE,
        );
        DiskInode::of_bytes(&bytes)
    }

    /// Write the inode record `inode_id` back to the volume.
    pub fn write_disk_inode(&mut self, inode_id: u32, ino: &DiskInode)
        requires
            old(self).wf(),
            inode_id < old(self).inode_bitmap.maximum_spec(),
            ino.wf(),
        ensures
            final(self).wf(),
            *final(self) == (EasyFileSystem {
                cache: final(self).cache,
                block_device: final(self).block_device,
                ..*old(self)
            }),
            final(self).n() == old(self).n(),
            final(self).disk() == old(self).disk().update(
                old(self).inode_area_start_block + inode_id as int / 4,
                splice_bytes(
                    old(self).disk()[old(self).inode_area_start_block + inode_id as int / 4],
                    (inode_id as int % 4) * DISK_INODE_SIZE,
                    disk_inode_bytes(ino@),
                ),
            ),
    {
        let (block_id, offset) = self.get_disk_inode_pos(inode_id);
        let bytes = ino.to_bytes();
        self.cache.cached_write(&mut self.block_device, block_id as usize, offset, &bytes);
    }

    /// Allocate an inode number: the lowest clear bit of the inode bitmap.
    pub fn alloc_inode(&mut self) -> (r: Result<u32, FsError>)
        requires
            old(self).wf(),
        ensures
            final(self).wf(),
            *final(self) == (EasyFileSystem {
                cache: final(self).cache,
                block_device: final(self).block_device,
                ..*old(self)
            }),
            final(self).n() == old(self).n(),
            match r {
                Ok(b) => {
                    &&& b < old(self).inode_bitmap.maximum_spec()
                    &&& !bitmap_bit(old(self).disk(), 1, b as int)
                    &&& forall|j: int| 0 <= j < b ==> bitmap_bit(old(self).disk(), 1, j)
                    &&& forall|j: int|
                        0 <= j < old(self).inode_bitmap.maximum_spec() ==> (bitmap_bit(
                            final(self).disk(),
                            1,
                            j,
                        ) <==> (j == b as int || bitmap_bit(old(self).disk(), 1, j)))
                    &&& forall|x: int|
                        0 <= x < old(self).n() && x != 1 + (b as int / 8) / BLOCK_SIZE as int
                            ==> final(self).disk()[x] == old(self).disk()[x]
                },
                Err(e) => {
                    &&& e == FsError::CapacityExhausted
                    &&& final(self).disk() == old(self).disk()
                    &&& forall|j: int|
                        0 <= j < old(self).inode_bitmap.maximum_spec() ==> bitmap_bit(
                            old(self).disk(),
                            1,
                            j,
                        )
                },
            },
    {
        let bitmap = self.inode_bitmap;
        match bitmap.alloc_bit(&mut self.cache, &mut self.block_device) {
            Ok(bit) => Ok(bit as u32),
            Err(e) => Err(e),
        }
    }

    /// Allocate a data block and return its absolute block id; fails when
    /// the bitmap, or the data area itself, has no free block left.
    pub fn alloc_data(&mut self) -> (r: Result<u32, FsError>)
        requires
            old(self).wf(),
        ensures
            final(self).wf(),
            *final(self) == (EasyFileSystem {
                cache: final(self).cache,
                block_device: final(self).block_device,
                ..*old(self)
            }),
            final(self).n() == old(self).n(),
            match r {
                Ok(b) => {
                    &&& old(self).data_area_start_block <= b
                    &&& b - old(self).data_area_start_block < old(self).data_area_blocks
                    &&& (b as int) < old(self).n()
                    &&& !bitmap_bit(
                        old(self).disk(),
                        old(self).data_bitmap.start_block_id as int,
                        b - old(self).data_area_start_block,
                    )
                    &&& forall|j: int|
                        0 <= j < old(self).data_bitmap.maximum_spec() ==> (bitmap_bit(
                            final(self).disk(),
                            old(self).data_bitmap.start_block_id as int,
                            j,
                        ) <==> (j == b - old(self).data_area_start_block || bitmap_bit(
                            old(self).disk(),
                            old(self).data_bitmap.start_block_id as int,
                            j,
                        )))
                    &&& forall|x: int|
                        0 <= x < old(self).n() && x != old(self).data_bitmap.start_block_id + ((b
                            - old(self).data_area_start_block) / 8) / BLOCK_SIZE as int
                            ==> final(self).disk()[x] == old(self).disk()[x]
                },
                Err(e) => {
                    &&& e == FsError::CapacityExhausted
                    &&& forall|x: int|
                        0 <= x < old(self).n() && !(old(self).data_bitmap.start_block_id <= x < old(
                            self,
                        ).data_bitmap.start_block_id + old(self).data_bitmap.blocks)
                            ==> final(self).disk()[x] == old(self).disk()[x]
                    &&& forall|j: int|
                        0 <= j < old(self).data_area_blocks ==> bitmap_bit(
                            old(self).disk(),
                            old(self).data_bitmap.start_block_id as int,
                            j,
                        )
                    &&& forall|j: int|
                        0 <= j < old(self).data_bitmap.maximum_spec() ==> (bitmap_bit(
                            final(self).disk(),
                            old(self).data_bitmap.start_block_id as int,
                            j,
                        ) <==> bitmap_bit(
                            old(self).disk(),
                            old(self).data_bitmap.start_block_id as int,
                            j,
                        ))
                },
            },
    {
        let bitmap = self.data_bitmap;
        match bitmap.alloc_bit(&mut self.cache, &mut self.block_device) {
            Ok(bit) => {
                if bit < self.data_area_blocks as usize {
                    Ok(self.data_area_start_block + bit as u32)
                } else {
                    // The bitmap can address a few more bits than the data
                    // area has blocks; a bit past the area means the area
                    // itself is full. Give the stray bit back.
                    let r2 = bitmap.dealloc(&mut self.cache, &mut self.block_device, bit);
                    proof {
                        lemma_fundamental_div_mod(bit as int, 8);
                        lemma_fundamental_div_mod(bit as int / 8, BLOCK_SIZE as int);
                        let dbb = old(self).data_bitmap.blocks as int;
                        assert(8 * (dbb * 512) == dbb * 4096) by (nonlinear_arith);
                        assert(8 * (dbb * BLOCK_SIZE as int) == dbb * BLOCK_BITS as int);
                        assert(((bit as int) / 8) / (BLOCK_SIZE as int) < dbb);
                    }
                    match r2 {
                        Ok(_) => Err(FsError::CapacityExhausted),
                        Err(_) => Err(FsError::CapacityExhausted),
                    }
                }
            },
            Err(e) => Err(e),
        }
    }

    /// Free the data block `block_id`; a block whose bit is already clear
    /// is a double free and fails with `InvariantViolation`.
    pub fn dealloc_data(&mut self, block_id: u32) -> (r: Result<(), FsError>)
        requires
            old(self).wf(),
            old(self).data_area_start_block <= block_id,
            block_id - old(self).data_area_start_block < old(self).data_bitmap.maximum_spec(),
        ensures
            final(self).wf(),
            *final(self) == (EasyFileSystem {
                cache: final(self).cache,
                block_device: final(self).block_device,
                ..*old(self)
            }),
            final(self).n() == old(self).n(),
            match r {
                Ok(_) => {
                    &&& bitmap_bit(
                        old(self).disk(),
                        old(self).data_bitmap.start_block_id as int,
                        block_id - old(self).data_area_start_block,
                    )
                    &&& forall|j: int|
                        0 <= j < old(self).data_bitmap.maximum_spec() ==> (bitmap_bit(
                            final(self).disk(),
                            old(self).data_bitmap.start_block_id as int,
                            j,
                        ) <==> (j != block_id - old(self).data_area_start_block && bitmap_bit(
                            old(self).disk(),
                            old(self).data_bitmap.start_block_id as int,
                            j,
                        )))
                    &&& forall|x: int|
                        0 <= x < old(self).n() && x != old(self).data_bitmap.start_block_id + ((
                        block_id - old(self).data_area_start_block) as int / 8) / BLOCK_SIZE as int
                            ==> final(self).disk()[x] == old(self).disk()[x]
                },
                Err(e) => {
                    &&& e == FsError::InvariantViolation
                    &&& !bitmap_bit(
                        old(self).disk(),
                        old(self).data_bitmap.start_block_id as int,
                        block_id - old(self).data_area_start_block,
                    )
                    &&& final(self).disk() == old(self).disk()
                },
            },
    {
        let bitmap = self.data_bitmap;
        bitmap.dealloc(
            &mut self.cache,
            &mut self.block_device,
            (block_id - self.data_area_start_block) as usize,
        )
    }

    /// Write every dirty buffer back, so the device itself holds the whole
    /// volume state.
    pub fn sync_all(&mut self)
        requires
            old(self).wf(),
        ensures
            final(self).wf(),
            *final(self) == (EasyFileSystem {
                cache: final(self).cache,
                block_device: final(self).block_device,
                ..*old(self)
            }),
            final(self).n() == old(self).n(),
            final(self).disk() == old(self).disk(),
            final(self).block_device.blocks() == old(self).disk(),
    {
        self.cache.sync_all(&mut self.block_device);
    }
}

} // verus!
