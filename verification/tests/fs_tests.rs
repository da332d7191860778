use easy_fs::bitmap::Bitmap;
use easy_fs::block_cache::BlockCacheManager;
use easy_fs::block_dev::{BlockDevice, MemBlockDevice};
use easy_fs::efs::EasyFileSystem;
use easy_fs::layout::{DirEntry, DiskInode, DiskInodeType, SuperBlock};
use easy_fs::vfs::Inode;
use easy_fs::{FsError, BLOCK_CACHE_SIZE, BLOCK_SIZE};

fn fresh_fs(total: u32) -> EasyFileSystem<MemBlockDevice> {
    let dev = MemBlockDevice::new(total as usize);
    EasyFileSystem::create(dev, total, 1)
}

fn root_inode(fs: &EasyFileSystem<MemBlockDevice>) -> Inode {
    Inode::new(fs.inode_area_start_block, 0, 0)
}

fn pattern(len: usize, seed: u8) -> Vec<u8> {
    (0..len)
        .map(|i| (seed.wrapping_add((i % 251) as u8)).wrapping_mul(31))
        .collect()
}

#[test]
fn scenario_a_format_and_validate() {
    let mut fs = fresh_fs(2048);
    let root = fs.read_disk_inode(0);
    assert_eq!(root.size, 0);
    assert!(root.is_dir());
    assert!(!root.is_file());
    fs.sync_all();
    let mut block0 = Vec::new();
    fs.block_device.read_block(0, &mut block0);
    let head: Vec<u8> = block0[..24].to_vec();
    let sb = SuperBlock::of_bytes(&head);
    assert!(sb.is_valid());
    assert_eq!(sb.total_blocks, 2048);
    assert_eq!(sb.inode_bitmap_blocks, 1);
    assert_eq!(sb.inode_area_blocks, 1024);
    assert_eq!(
        sb.total_blocks,
        1 + sb.inode_bitmap_blocks + sb.inode_area_blocks + sb.data_bitmap_blocks + sb.data_area_blocks
    );
}

#[test]
fn mount_formatted_volume() {
    let mut fs = fresh_fs(4096);
    fs.sync_all();
    let dev = fs.block_device;
    let reopened = EasyFileSystem::open(dev);
    assert!(reopened.is_ok());
}

#[test]
fn mount_blank_volume_is_corrupt() {
    let dev = MemBlockDevice::new(64);
    match EasyFileSystem::open(dev) {
        Err(FsError::CorruptVolume) => {}
        _ => panic!("a blank device must refuse to mount"),
    }
}

#[test]
fn scenario_b_write_600_read_600() {
    let mut fs = fresh_fs(4096);
    let root = root_inode(&fs);
    let file = root.create(&mut fs, &b"file".to_vec()).unwrap();
    let data = pattern(600, 3);
    assert_eq!(file.write_at(&mut fs, 0, &data), Ok(600));
    let back = file.read_at(&mut fs, 0, 600);
    assert_eq!(back, data);
    let record = fs.read_disk_inode(file.inode_id);
    assert_eq!(record.size, 600);
    assert_eq!(record.data_bocks(), 2);
    assert!(record.is_file());
}

#[test]
fn scenario_c_find_missing_then_created() {
    let mut fs = fresh_fs(4096);
    let root = root_inode(&fs);
    assert!(root.find(&mut fs, &b"missing".to_vec()).is_none());
    root.create(&mut fs, &b"a".to_vec()).unwrap();
    root.create(&mut fs, &b"b".to_vec()).unwrap();
    let foo = root.create(&mut fs, &b"foo".to_vec()).unwrap();
    assert_eq!(foo.inode_id, 3);
    let found = root.find(&mut fs, &b"foo".to_vec()).expect("foo was created");
    assert_eq!(found.inode_id, 3);
    assert!(root.find(&mut fs, &b"fo".to_vec()).is_none());
    assert!(root.find(&mut fs, &b"fooo".to_vec()).is_none());
}

#[test]
fn create_rejects_duplicate_names() {
    let mut fs = fresh_fs(4096);
    let root = root_inode(&fs);
    root.create(&mut fs, &b"twice".to_vec()).unwrap();
    assert_eq!(
        root.create(&mut fs, &b"twice".to_vec()).unwrap_err(),
        FsError::InvariantViolation
    );
}

#[test]
fn round_trip_direct_range() {
    let mut fs = fresh_fs(4096);
    let root = root_inode(&fs);
    let file = root.create(&mut fs, &b"d".to_vec()).unwrap();
    let data = pattern(300, 7);
    assert_eq!(file.write_at(&mut fs, 100, &data), Ok(300));
    assert_eq!(file.read_at(&mut fs, 100, 300), data);
}

#[test]
fn round_trip_crossing_single_indirect() {
    let mut fs = fresh_fs(4096);
    let root = root_inode(&fs);
    let file = root.create(&mut fs, &b"i1".to_vec()).unwrap();
    // A range that starts in the last direct block and ends in the
    // single-indirect tier.
    let offset = 28 * BLOCK_SIZE - 100;
    let data = pattern(300, 11);
    assert_eq!(file.write_at(&mut fs, offset, &data), Ok(300));
    assert_eq!(file.read_at(&mut fs, offset, 300), data);
    let record = fs.read_disk_inode(file.inode_id);
    assert_ne!(record.indirect1, 0);
    assert_eq!(record.indirect2, 0);
}

#[test]
fn round_trip_crossing_double_indirect() {
    let mut fs = fresh_fs(4096);
    let root = root_inode(&fs);
    let file = root.create(&mut fs, &b"i2".to_vec()).unwrap();
    // A range that starts in the single-indirect tier and ends in the
    // double-indirect tier.
    let offset = 156 * BLOCK_SIZE - 100;
    let data = pattern(300, 13);
    assert_eq!(file.write_at(&mut fs, offset, &data), Ok(300));
    assert_eq!(file.read_at(&mut fs, offset, 300), data);
    let record = fs.read_disk_inode(file.inode_id);
    assert_ne!(record.indirect1, 0);
    assert_ne!(record.indirect2, 0);
    // Earlier content written before the growth is still there.
    let early = pattern(64, 17);
    assert_eq!(file.write_at(&mut fs, 10, &early), Ok(64));
    assert_eq!(file.read_at(&mut fs, 10, 64), early);
    assert_eq!(file.read_at(&mut fs, offset, 300), data);
}

#[test]
fn read_past_end_is_clipped() {
    let mut fs = fresh_fs(4096);
    let root = root_inode(&fs);
    let file = root.create(&mut fs, &b"clip".to_vec()).unwrap();
    let data = pattern(100, 19);
    assert_eq!(file.write_at(&mut fs, 0, &data), Ok(100));
    assert_eq!(file.read_at(&mut fs, 0, 1000), data);
    assert!(file.read_at(&mut fs, 100, 50).is_empty());
    assert!(file.read_at(&mut fs, 5000, 1).is_empty());
}

#[test]
fn clear_frees_and_empties() {
    let mut fs = fresh_fs(4096);
    let root = root_inode(&fs);
    let file = root.create(&mut fs, &b"gone".to_vec()).unwrap();
    let data = pattern(40000, 23);
    assert_eq!(file.write_at(&mut fs, 0, &data), Ok(40000));
    assert_eq!(file.clear(&mut fs), Ok(()));
    let record = fs.read_disk_inode(file.inode_id);
    assert_eq!(record.size, 0);
    assert_eq!(record.indirect1, 0);
    assert_eq!(record.indirect2, 0);
    assert!(file.read_at(&mut fs, 0, 10).is_empty());
    // The freed blocks can be written again.
    assert_eq!(file.write_at(&mut fs, 0, &pattern(600, 29)), Ok(600));
}

#[test]
fn bitmap_exclusivity() {
    let mut dev = MemBlockDevice::new(16);
    let mut mgr = BlockCacheManager::new();
    let bitmap = Bitmap::new(1, 1);
    let first = bitmap.alloc_bit(&mut mgr, &mut dev).unwrap();
    let second = bitmap.alloc_bit(&mut mgr, &mut dev).unwrap();
    let third = bitmap.alloc_bit(&mut mgr, &mut dev).unwrap();
    assert_eq!(first, 0);
    assert_eq!(second, 1);
    assert_eq!(third, 2);
    assert_eq!(bitmap.dealloc(&mut mgr, &mut dev, second), Ok(()));
    assert_eq!(
        bitmap.dealloc(&mut mgr, &mut dev, second),
        Err(FsError::InvariantViolation)
    );
    // The lowest clear bit is handed out again.
    assert_eq!(bitmap.alloc_bit(&mut mgr, &mut dev).unwrap(), 1);
    assert_eq!(bitmap.alloc_bit(&mut mgr, &mut dev).unwrap(), 3);
    assert_eq!(bitmap.maximum(), 4096);
}

#[test]
fn cache_coherence_between_handles() {
    let mut dev = MemBlockDevice::new(64);
    let mut mgr = BlockCacheManager::new();
    assert_eq!(mgr.get_block_cache(5, &mut dev), Ok(()));
    assert_eq!(mgr.get_block_cache(5, &mut dev), Ok(()));
    let payload = vec![0xabu8, 0xcd, 0xef];
    mgr.modify(5, 17, &payload);
    // The second handle reads the same buffer, not a private copy.
    assert_eq!(mgr.read(5, 17, 3), payload);
    // The device itself still holds the old content until write-back.
    let mut raw = Vec::new();
    dev.read_block(5, &mut raw);
    assert_eq!(&raw[17..20], &[0u8, 0, 0]);
    mgr.sync_all(&mut dev);
    dev.read_block(5, &mut raw);
    assert_eq!(&raw[17..20], &payload[..]);
    mgr.release_block_cache(5);
    mgr.release_block_cache(5);
}

#[test]
fn eviction_requires_a_free_handle() {
    let mut dev = MemBlockDevice::new(64);
    let mut mgr = BlockCacheManager::new();
    // Fill the pool while holding every handle.
    for id in 0..BLOCK_CACHE_SIZE {
        assert_eq!(mgr.get_block_cache(id, &mut dev), Ok(()));
    }
    // Mark block 0 dirty through its held handle.
    let payload = vec![0x5au8; 8];
    mgr.modify(0, 0, &payload);
    // A 17th distinct block cannot come in: every slot is held.
    assert_eq!(
        mgr.get_block_cache(BLOCK_CACHE_SIZE, &mut dev),
        Err(FsError::CapacityExhausted)
    );
    // Releasing one handle makes room; the eviction writes block 0 back.
    mgr.release_block_cache(0);
    assert_eq!(mgr.get_block_cache(BLOCK_CACHE_SIZE, &mut dev), Ok(()));
    let mut raw = Vec::new();
    dev.read_block(0, &mut raw);
    assert_eq!(&raw[..8], &payload[..]);
}

#[test]
fn block_count_formulas() {
    assert_eq!(DiskInode::_data_blocks(0), 0);
    assert_eq!(DiskInode::_data_blocks(1), 1);
    assert_eq!(DiskInode::_data_blocks(512), 1);
    assert_eq!(DiskInode::_data_blocks(513), 2);
    assert_eq!(DiskInode::total_blocks(0), 0);
    assert_eq!(DiskInode::total_blocks(28 * 512), 28);
    assert_eq!(DiskInode::total_blocks(28 * 512 + 1), 30);
    assert_eq!(DiskInode::total_blocks(156 * 512), 157);
    assert_eq!(DiskInode::total_blocks(156 * 512 + 1), 160);
    assert_eq!(DiskInode::total_blocks(157 * 512 + 1), 161);
    // Monotonic on a sweep of sizes.
    let mut prev = 0u32;
    for s in (0..200_000u32).step_by(997) {
        let t = DiskInode::total_blocks(s);
        assert!(t >= prev);
        prev = t;
    }
    let mut node = DiskInode {
        size: 0,
        direct: Vec::new(),
        indirect1: 0,
        indirect2: 0,
        type_: DiskInodeType::File,
    };
    node.initialize(DiskInodeType::File);
    assert_eq!(node.blocks_num_needed(600), 2);
    assert_eq!(node.data_bocks(), 0);
}

#[test]
fn tier_thresholds_resolve_block_ids() {
    let mut fs = fresh_fs(4096);
    let root = root_inode(&fs);
    let file = root.create(&mut fs, &b"tiers".to_vec()).unwrap();
    let size = 157 * BLOCK_SIZE;
    assert_eq!(file.write_at(&mut fs, 0, &pattern(size, 31)), Ok(size));
    let record = fs.read_disk_inode(file.inode_id);
    // A direct index resolves to the direct pointer itself.
    let d0 = record.get_block_id(0, &mut fs.cache, &mut fs.block_device);
    assert_eq!(d0, record.direct[0]);
    let d27 = record.get_block_id(27, &mut fs.cache, &mut fs.block_device);
    assert_eq!(d27, record.direct[27]);
    // Indirect indices resolve to distinct, nonzero blocks.
    let i28 = record.get_block_id(28, &mut fs.cache, &mut fs.block_device);
    let i156 = record.get_block_id(156, &mut fs.cache, &mut fs.block_device);
    assert_ne!(i28, 0);
    assert_ne!(i156, 0);
    assert_ne!(i28, i156);
    assert_ne!(i156, record.indirect1);
    assert_ne!(i156, record.indirect2);
}

#[test]
fn super_block_records_the_layout() {
    let mut sb = SuperBlock {
        magic: 0,
        total_blocks: 0,
        inode_bitmap_blocks: 0,
        inode_area_blocks: 0,
        data_bitmap_blocks: 0,
        data_area_blocks: 0,
    };
    assert!(!sb.is_valid());
    sb.initialize(512, 1, 1024, 1, 100);
    assert!(sb.is_valid());
    assert_eq!(sb.total_blocks, 512);
    let bytes = sb.to_bytes();
    assert_eq!(bytes.len(), 24);
    let back = SuperBlock::of_bytes(&bytes);
    assert!(back.is_valid());
    assert_eq!(back.data_area_blocks, 100);
}

#[test]
fn dir_entry_name_round_trip() {
    let entry = DirEntry::new(&b"hello".to_vec(), 7);
    assert_eq!(entry.name(), b"hello".to_vec());
    assert_eq!(entry.inode_number(), 7);
    let bytes = entry.to_bytes();
    assert_eq!(bytes.len(), 32);
    let back = DirEntry::of_bytes(&bytes);
    assert_eq!(back.name(), b"hello".to_vec());
    assert_eq!(back.inode_number(), 7);
    let empty = DirEntry::empty();
    assert!(empty.name().is_empty());
    assert_eq!(empty.inode_number(), 0);
}

#[test]
fn disk_inode_record_round_trip() {
    let mut node = DiskInode {
        size: 0,
        direct: Vec::new(),
        indirect1: 0,
        indirect2: 0,
        type_: DiskInodeType::File,
    };
    node.initialize(DiskInodeType::Directory);
    assert!(node.is_dir());
    node.size = 4242;
    node.direct[3] = 99;
    node.indirect1 = 7;
    let bytes = node.to_bytes();
    assert_eq!(bytes.len(), 128);
    let back = DiskInode::of_bytes(&bytes);
    assert_eq!(back.size, 4242);
    assert_eq!(back.direct[3], 99);
    assert_eq!(back.indirect1, 7);
    assert_eq!(back.indirect2, 0);
    assert!(back.is_dir());
}

#[test]
fn write_past_the_addressable_maximum_is_refused() {
    let mut fs = fresh_fs(4096);
    let root = root_inode(&fs);
    let file = root.create(&mut fs, &b"big".to_vec()).unwrap();
    // The three tiers address 156 + 128 * 128 blocks at most.
    let cap = (156 + 128 * 128) * BLOCK_SIZE;
    assert_eq!(
        file.write_at(&mut fs, cap, &vec![1u8]),
        Err(FsError::InvariantViolation)
    );
}

#[test]
fn inode_records_pack_four_per_block() {
    let fs = fresh_fs(2048);
    let (b0, o0) = fs.get_disk_inode_pos(0);
    let (b5, o5) = fs.get_disk_inode_pos(5);
    assert_eq!(b0, fs.inode_area_start_block);
    assert_eq!(o0, 0);
    assert_eq!(b5, fs.inode_area_start_block + 1);
    assert_eq!(o5, 128);
}

#[test]
fn write_back_persists_through_remount() {
    let mut fs = fresh_fs(4096);
    let root = root_inode(&fs);
    let file = root.create(&mut fs, &b"keep".to_vec()).unwrap();
    let data = pattern(777, 37);
    assert_eq!(file.write_at(&mut fs, 0, &data), Ok(777));
    fs.sync_all();
    let dev = fs.block_device;
    let mut fs2 = EasyFileSystem::open(dev).expect("formatted volume must mount");
    let root2 = Inode::new(fs2.inode_area_start_block, 0, 0);
    let found = root2.find(&mut fs2, &b"keep".to_vec()).expect("entry persisted");
    assert_eq!(found.read_at(&mut fs2, 0, 777), data);
}
