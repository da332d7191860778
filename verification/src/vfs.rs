//! The user-facing inode handle: name lookup, file creation, and content
//! reads and writes, composed from the layout and allocator layers. A
//! handle is a plain descriptor of where an inode record lives; every
//! operation borrows the filesystem exclusively, which serializes lookups,
//! allocation and structural changes.
use vstd::prelude::*;

use crate::bitmap::bitmap_bit;
use crate::block_dev::BlockDevice;
use crate::efs::EasyFileSystem;
use crate::layout::{
    block_id_spec, blocks_in_area, data_blocks_spec, dir_entry_of_bytes, disk_inode_of_bytes,
    indirect_entry, inode_byte, inode_valid, lemma_low_write_frame, max_data_blocks,
    reach_expected, sub_tables_spec, total_blocks_spec, unreached_by, DirEntry, DirEntryV,
    DiskInode, DiskInodeType, DiskInodeV,
};
use crate::{FsError, BLOCK_SIZE, DIRENT_SIZE, DISK_INODE_SIZE, NAME_LENGTH_LIMIT};

verus! {

/// The directory record at index `k` of a directory's content.
pub open spec fn dir_entry_at(ino: DiskInodeV, disk: Seq<Seq<u8>>, k: int) -> DirEntryV {
    dir_entry_of_bytes(
        Seq::new(DIRENT_SIZE as nat, |b: int| inode_byte(ino, disk, k * DIRENT_SIZE + b)),
    )
}

/// Whether a stored 28-byte name field holds exactly `name`: the name's
/// bytes followed by a NUL terminator (or filling the field entirely).
pub open spec fn entry_matches(stored: Seq<u8>, name: Seq<u8>) -> bool {
    &&& name.len() <= NAME_LENGTH_LIMIT
    &&& (forall|k: int| 0 <= k < name.len() ==> stored[k] == name[k] && name[k] != 0u8)
    &&& stored[name.len() as int] == 0u8
}

/// A handle on one on-disk inode record: where the record lives, and its
/// logical number. Many handles may point at the same record; they share
/// the filesystem they are used with, never private copies of content.
#[derive(Debug)]
pub struct Inode {
    /// The block holding the record.
    pub block_id: usize,
    /// The record's byte offset inside that block.
    pub block_offset: usize,
    /// The record's logical inode number.
    pub inode_id: u32,
}

impl Inode {
    /// A handle on the record at `(block_id, block_offset)`, which is
    /// inode number `inode_id`.
    pub fn new(block_id: u32, block_offset: usize, inode_id: u32) -> (r: Self)
        ensures
            r.block_id == block_id,
            r.block_offset == block_offset,
            r.inode_id == inode_id,
    {
        Inode { block_id: block_id as usize, block_offset, inode_id }
    }

    /// The record this handle points at, as stored on the volume.
    pub open spec fn record<D: BlockDevice>(&self, fs: EasyFileSystem<D>) -> DiskInodeV {
        disk_inode_of_bytes(
            fs.disk()[fs.inode_area_start_block + self.inode_id as int / 4].subrange(
                (self.inode_id as int % 4) * DISK_INODE_SIZE,
                (self.inode_id as int % 4) * DISK_INODE_SIZE + DISK_INODE_SIZE,
            ),
        )
    }

    /// The handle addresses a record inside the filesystem's inode area.
    pub open spec fn in_range<D: BlockDevice>(&self, fs: EasyFileSystem<D>) -> bool {
        self.inode_id < fs.inode_bitmap.maximum_spec()
    }

    /// Look `name` up in this directory: scan its packed 32-byte records
    /// in order and return a handle on the first entry whose name matches.
    /// A handle that does not point at a well-laid-out directory finds
    /// nothing.
    #[verifier::loop_isolation(false)]
    #[verifier::rlimit(100)]
    pub fn find<D: BlockDevice>(&self, fs: &mut EasyFileSystem<D>, name: &Vec<u8>) -> (r: Option<
        Inode,
    >)
        requires
            old(fs).wf(),
            self.in_range(*old(fs)),
            name@.len() <= NAME_LENGTH_LIMIT,
            inode_valid(self.record(*old(fs)), old(fs).disk(), old(fs).n()),
        ensures
            final(fs).wf(),
            final(fs).disk() == old(fs).disk(),
            final(fs).n() == old(fs).n(),
            *final(fs) == (EasyFileSystem {
                cache: final(fs).cache,
                block_device: final(fs).block_device,
                ..*old(fs)
            }),
            r matches Some(h) ==> h.in_range(*old(fs)) && exists|k: int|
                0 <= k < self.record(*old(fs)).size as int / DIRENT_SIZE as int && entry_matches(
                    #[trigger] dir_entry_at(self.record(*old(fs)), old(fs).disk(), k).name,
                    name@,
                ) && h.inode_id == dir_entry_at(
                    self.record(*old(fs)),
                    old(fs).disk(),
                    k,
                ).inode_number && (forall|k2: int|
                    0 <= k2 < k ==> !entry_matches(
                        #[trigger] dir_entry_at(self.record(*old(fs)), old(fs).disk(), k2).name,
                        name@,
                    )),
            self.record(*old(fs)).type_ == DiskInodeType::Directory && (exists|k: int|
                0 <= k < self.record(*old(fs)).size as int / DIRENT_SIZE as int && entry_matches(
                    #[trigger] dir_entry_at(self.record(*old(fs)), old(fs).disk(), k).name,
                    name@,
                ) && dir_entry_at(self.record(*old(fs)), old(fs).disk(), k).inode_number < old(
                    fs,
                ).inode_bitmap.maximum_spec() && (forall|k2: int|
                    0 <= k2 < k ==> !entry_matches(
                        #[trigger] dir_entry_at(self.record(*old(fs)), old(fs).disk(), k2).name,
                        name@,
                    ))) ==> r is Some,
    {
        let disk_inode = fs.read_disk_inode(self.inode_id);
        if !disk_inode.is_dir() {
            proof {
                assert(!(self.record(*old(fs)).type_ == DiskInodeType::Directory));
            }
            return None;
        }
        match self.find_inode_id(fs, name, &disk_inode) {
            Some(number) => {
                if (number as usize) < fs.inode_bitmap.maximum() {
                    let (block_id, block_offset) = fs.get_disk_inode_pos(number);
                    Some(Inode::new(block_id, block_offset, number))
                } else {
                    None
                }
            },
            None => None,
        }
    }

    /// Scan the directory's packed records in order and hand back the
    /// inode number of the first entry whose name is `name`.
    #[verifier::loop_isolation(false)]
    #[verifier::rlimit(100)]
    fn find_inode_id<D: BlockDevice>(
        &self,
        fs: &mut EasyFileSystem<D>,
        name: &Vec<u8>,
        disk_inode: &DiskInode,
    ) -> (r: Option<u32>)
        requires
            old(fs).wf(),
            name@.len() <= NAME_LENGTH_LIMIT,
            disk_inode.wf(),
            disk_inode@.type_ == DiskInodeType::Directory,
            inode_valid(disk_inode@, old(fs).disk(), old(fs).n()),
        ensures
            final(fs).wf(),
            final(fs).disk() == old(fs).disk(),
            final(fs).n() == old(fs).n(),
            *final(fs) == (EasyFileSystem {
                cache: final(fs).cache,
                block_device: final(fs).block_device,
                ..*old(fs)
            }),
            r matches Some(num) ==> exists|k: int|
                0 <= k < disk_inode@.size as int / DIRENT_SIZE as int && entry_matches(
                    #[trigger] dir_entry_at(disk_inode@, old(fs).disk(), k).name,
                    name@,
                ) && num == dir_entry_at(disk_inode@, old(fs).disk(), k).inode_number && (
                forall|k2: int|
                    0 <= k2 < k ==> !entry_matches(
                        #[trigger] dir_entry_at(disk_inode@, old(fs).disk(), k2).name,
                        name@,
                    )),
            r is None ==> forall|k: int|
                0 <= k < disk_inode@.size as int / DIRENT_SIZE as int ==> !entry_matches(
                    #[trigger] dir_entry_at(disk_inode@, old(fs).disk(), k).name,
                    name@,
                ),
    {
        let ghost disk0 = old(fs).disk();
        let ghost n = old(fs).n();
        let file_count = (disk_inode.size as usize) / DIRENT_SIZE;
        let ghost ino = disk_inode@;
        let mut i: usize = 0;
        while i < file_count
            invariant
                i <= file_count,
                fs.wf(),
                fs.disk() == disk0,
                fs.n() == n,
                *fs == (EasyFileSystem {
                    cache: fs.cache,
                    block_device: fs.block_device,
                    ..*old(fs)
                }),
                disk_inode@ == ino,
                disk_inode.wf(),
                inode_valid(ino, disk0, n),
                file_count == ino.size as int / DIRENT_SIZE as int,
                name@.len() <= NAME_LENGTH_LIMIT,
                forall|k: int|
                    0 <= k < i ==> !entry_matches(
                        #[trigger] dir_entry_at(ino, disk0, k).name,
                        name@,
                    ),
            decreases file_count - i,
        {
            proof {
                vstd::arithmetic::div_mod::lemma_fundamental_div_mod(
                    ino.size as int,
                    DIRENT_SIZE as int,
                );
            }
            let bytes = disk_inode.read_at(
                i * DIRENT_SIZE,
                DIRENT_SIZE,
                &mut fs.cache,
                &mut fs.block_device,
            );
            proof {
                assert(bytes@.len() == DIRENT_SIZE);
            }
            let entry = DirEntry::of_bytes(&bytes);
            proof {
                assert(bytes@ =~= Seq::new(
                    DIRENT_SIZE as nat,
                    |b: int| inode_byte(ino, disk0, i as int * DIRENT_SIZE + b),
                ));
                assert(entry@.name =~= dir_entry_at(ino, disk0, i as int).name);
                assert(entry@.inode_number == dir_entry_at(ino, disk0, i as int).inode_number);
            }
            let entry_name = entry.name();
            if Self::bytes_eq(&entry_name, name) {
                proof {
                    assert(entry_matches(dir_entry_at(ino, disk0, i as int).name, name@));
                }
                return Some(entry.inode_number());
            }
            proof {
                let stored = dir_entry_at(ino, disk0, i as int).name;
                if entry_matches(stored, name@) {
                    if entry_name@.len() < name@.len() {
                        assert(entry_name@.len() < NAME_LENGTH_LIMIT + 1);
                        assert(stored[entry_name@.len() as int] == 0u8);
                        assert(name@[entry_name@.len() as int] != 0u8);
                        assert(stored[entry_name@.len() as int] == name@[entry_name@.len() as int]);
                    } else if entry_name@.len() > name@.len() {
                        assert(stored[name@.len() as int] == 0u8);
                        assert(entry_name@[name@.len() as int] == stored[name@.len() as int]);
                        assert(stored[name@.len() as int] != 0u8);
                    } else {
                        assert(entry_name@ =~= name@);
                    }
                    assert(false);
                }
            }
            i = i + 1;
        }
        None
    }

    /// Read `min(len, size - offset)` content bytes of this inode
    /// starting at `offset`.
    pub fn read_at<D: BlockDevice>(
        &self,
        fs: &mut EasyFileSystem<D>,
        offset: usize,
        len: usize,
    ) -> (r: Vec<u8>)
        requires
            old(fs).wf(),
            self.in_range(*old(fs)),
            inode_valid(self.record(*old(fs)), old(fs).disk(), old(fs).n()),
            offset + len <= usize::MAX,
        ensures
            final(fs).wf(),
            final(fs).disk() == old(fs).disk(),
            final(fs).n() == old(fs).n(),
            *final(fs) == (EasyFileSystem {
                cache: final(fs).cache,
                block_device: final(fs).block_device,
                ..*old(fs)
            }),
            r@.len() == if offset >= self.record(*old(fs)).size {
                0int
            } else if offset + len <= self.record(*old(fs)).size {
                len as int
            } else {
                self.record(*old(fs)).size - offset
            },
            forall|k: int|
                0 <= k < r@.len() ==> r@[k] == inode_byte(
                    self.record(*old(fs)),
                    old(fs).disk(),
                    offset + k,
                ),
    {
        let disk_inode = fs.read_disk_inode(self.inode_id);
        disk_inode.read_at(offset, len, &mut fs.cache, &mut fs.block_device)
    }

    /// Write all of `buf` at `offset`, first growing the inode with
    /// fresh blocks from the data allocator when the range extends past
    /// the current size. A write that stays within the current size
    /// always succeeds; growth fails with `CapacityExhausted` when the
    /// data area cannot supply it, and with `InvariantViolation` when the
    /// range would exceed what the three tiers address or a freshly
    /// allocated block fails the reachability cross-checks.
    #[verifier::loop_isolation(false)]
    #[verifier::rlimit(100)]
    pub fn write_at<D: BlockDevice>(
        &self,
        fs: &mut EasyFileSystem<D>,
        offset: usize,
        buf: &Vec<u8>,
    ) -> (r: Result<usize, FsError>)
        requires
            old(fs).wf(),
            self.in_range(*old(fs)),
            inode_valid(self.record(*old(fs)), old(fs).disk(), old(fs).n()),
            blocks_in_area(
                self.record(*old(fs)),
                old(fs).disk(),
                old(fs).data_area_start_block as int,
            ),
            offset + buf@.len() <= usize::MAX,
        ensures
            final(fs).wf(),
            final(fs).n() == old(fs).n(),
            *final(fs) == (EasyFileSystem {
                cache: final(fs).cache,
                block_device: final(fs).block_device,
                ..*old(fs)
            }),
            r matches Ok(cnt) ==> cnt == buf@.len(),
            buf@.len() > 0 && offset + buf@.len() <= self.record(*old(fs)).size ==> r is Ok,
            r is Ok ==> self.record(*final(fs)).size == if buf@.len() == 0 || offset + buf@.len()
                <= self.record(*old(fs)).size {
                self.record(*old(fs)).size as int
            } else {
                offset + buf@.len()
            },
            r is Ok ==> forall|k: int|
                0 <= k < buf@.len() ==> inode_byte(
                    self.record(*final(fs)),
                    final(fs).disk(),
                    offset + k,
                ) == buf@[k],
            r is Ok ==> forall|p: int|
                0 <= p < self.record(*old(fs)).size && !(offset <= p < offset + buf@.len())
                    ==> inode_byte(self.record(*final(fs)), final(fs).disk(), p) == inode_byte(
                    self.record(*old(fs)),
                    old(fs).disk(),
                    p,
                ),
            r is Ok ==> inode_valid(self.record(*final(fs)), final(fs).disk(), old(fs).n()),
    {
        let ghost r0 = self.record(*old(fs));
        let ghost disk0 = old(fs).disk();
        let ghost n = old(fs).n();
        let ghost das = old(fs).data_area_start_block as int;
        let ghost dbs = old(fs).data_bitmap.start_block_id as int;
        let (rb_exec, slot_exec) = fs.get_disk_inode_pos(self.inode_id);
        let ghost rb = rb_exec as int;
        let ghost slot = slot_exec as int;
        proof {
            fs.block_device.lemma_device_wf();
            crate::block_cache::lemma_vdisk_wf(fs.cache, fs.block_device.blocks());
        }
        if buf.len() == 0 {
            return Ok(0);
        }
        let mut disk_inode = fs.read_disk_inode(self.inode_id);
        let end = offset + buf.len();
        if end > (disk_inode.size as usize) {
            proof {
                assert(crate::INODE_INDIRECT1_COUNT as int * crate::INODE_INDIRECT1_COUNT as int
                    == 16384) by (nonlinear_arith);
                assert((crate::INDIRECT1_BOUND + 16384) * BLOCK_SIZE as int == 8468480)
                    by (nonlinear_arith);
            }
            let cap: usize = (crate::INDIRECT1_BOUND + crate::INODE_INDIRECT1_COUNT
                * crate::INODE_INDIRECT1_COUNT) * BLOCK_SIZE;
            if end > cap {
                return Err(FsError::InvariantViolation);
            }
            proof {
                vstd::arithmetic::div_mod::lemma_div_is_ordered(
                    end as int + BLOCK_SIZE - 1,
                    max_data_blocks() * BLOCK_SIZE as int + BLOCK_SIZE - 1,
                    BLOCK_SIZE as int,
                );
                assert((max_data_blocks() * BLOCK_SIZE as int + BLOCK_SIZE - 1)
                    / BLOCK_SIZE as int == max_data_blocks()) by (nonlinear_arith);
            }
            let needed = disk_inode.blocks_num_needed(end as u32);
            let mut fresh: Vec<u32> = Vec::new();
            let mut a: u32 = 0;
            while a < needed
                invariant
                    a <= needed,
                    fresh@.len() == a,
                    fs.wf(),
                    fs.n() == n,
                    *fs == (EasyFileSystem {
                        cache: fs.cache,
                        block_device: fs.block_device,
                        ..*old(fs)
                    }),
                    inode_valid(r0, fs.disk(), n),
                    blocks_in_area(r0, fs.disk(), das),
                    forall|i: int|
                        0 <= i < data_blocks_spec(r0.size) ==> #[trigger] block_id_spec(
                            r0,
                            fs.disk(),
                            i,
                        ) == block_id_spec(r0, disk0, i),
                    forall|p: int|
                        0 <= p < r0.size ==> #[trigger] inode_byte(r0, fs.disk(), p)
                            == inode_byte(r0, disk0, p),
                    forall|k: int|
                        0 <= k < fresh@.len() ==> das <= #[trigger] fresh@[k] && (fresh@[k]
                            as int) < n && 0 < fresh@[k],
                    forall|b: int|
                        0 <= b < n && fs.disk()[b] != disk0[b] ==> dbs <= b && b < das,
                decreases needed - a,
            {
                let ghost diskp = fs.disk();
                match fs.alloc_data() {
                    Ok(b) => {
                        proof {
                            let bit = b - old(fs).data_area_start_block;
                            vstd::arithmetic::div_mod::lemma_fundamental_div_mod(bit as int, 8);
                            vstd::arithmetic::div_mod::lemma_fundamental_div_mod(
                                bit as int / 8,
                                BLOCK_SIZE as int,
                            );
                            let ghost dbbs = old(fs).data_bitmap.blocks as int;
                            assert(8 * (dbbs * 512) == dbbs * 4096) by (nonlinear_arith);
                            assert(8 * (dbbs * BLOCK_SIZE as int) == dbbs
                                * crate::BLOCK_BITS as int);
                            assert(dbs + ((bit as int) / 8) / (BLOCK_SIZE as int) < das);
                            assert forall|x: int| 0 <= x < n && das <= x implies #[trigger] fs.disk()[x]
                                == diskp[x] by {}
                            lemma_low_write_frame(r0, diskp, fs.disk(), n, das);
                        }
                        fresh.push(b);
                    },
                    Err(e) => {
                        return Err(e);
                    },
                }
                a = a + 1;
            }
            if !crate::layout::all_distinct(&fresh) {
                return Err(FsError::InvariantViolation);
            }
            let ghost diskg0 = fs.disk();
            let mut u: usize = 0;
            while u < fresh.len()
                invariant
                    u <= fresh@.len(),
                    fs.wf(),
                    fs.n() == n,
                    *fs == (EasyFileSystem {
                        cache: fs.cache,
                        block_device: fs.block_device,
                        ..*old(fs)
                    }),
                    fs.disk() == diskg0,
                    disk_inode@ == r0,
                    disk_inode.wf(),
                    inode_valid(r0, diskg0, n),
                    forall|k: int|
                        0 <= k < u ==> unreached_by(r0, diskg0, #[trigger] fresh@[k]),
                decreases fresh@.len() - u,
            {
                if !disk_inode.unreached_check(fresh[u], &mut fs.cache, &mut fs.block_device) {
                    return Err(FsError::InvariantViolation);
                }
                u = u + 1;
            }
            match disk_inode.increase_size(
                end as u32,
                &fresh,
                &mut fs.cache,
                &mut fs.block_device,
            ) {
                Ok(_) => {},
                Err(_) => {
                    proof {
                        assert(false);
                    }
                    return Err(FsError::InvariantViolation);
                },
            }
            let ghost diskg1 = fs.disk();
            proof {
                assert(blocks_in_area(disk_inode@, diskg1, das)) by {
                    let rg1 = disk_inode@;
                    assert forall|i: int| 0 <= i < data_blocks_spec(rg1.size) implies das
                        <= #[trigger] block_id_spec(rg1, diskg1, i) by {
                        if i < data_blocks_spec(r0.size) {
                            assert(block_id_spec(rg1, diskg1, i) == block_id_spec(r0, diskg0, i));
                        } else {
                            assert(fresh@.contains(block_id_spec(rg1, diskg1, i)));
                            let k = choose|k: int|
                                0 <= k < fresh@.len() && fresh@[k] == block_id_spec(
                                    rg1,
                                    diskg1,
                                    i,
                                );
                            assert(das <= fresh@[k]);
                        }
                    }
                    if data_blocks_spec(rg1.size) > crate::DIRECT_BOUND as int {
                        if data_blocks_spec(r0.size) <= crate::DIRECT_BOUND as int {
                            assert(fresh@.contains(rg1.indirect1));
                            let k = choose|k: int|
                                0 <= k < fresh@.len() && fresh@[k] == rg1.indirect1;
                            assert(das <= fresh@[k]);
                        } else {
                            assert(rg1.indirect1 == r0.indirect1);
                            assert(das <= r0.indirect1);
                        }
                    }
                    if data_blocks_spec(rg1.size) > crate::INDIRECT1_BOUND as int {
                        if data_blocks_spec(r0.size) <= crate::INDIRECT1_BOUND as int {
                            assert(fresh@.contains(rg1.indirect2));
                            let k = choose|k: int|
                                0 <= k < fresh@.len() && fresh@[k] == rg1.indirect2;
                            assert(das <= fresh@[k]);
                        } else {
                            assert(rg1.indirect2 == r0.indirect2);
                            assert(das <= r0.indirect2);
                        }
                    }
                    assert forall|j: int|
                        0 <= j < sub_tables_spec(data_blocks_spec(rg1.size)) implies das
                        <= #[trigger] indirect_entry(diskg1, rg1.indirect2, j) by {
                        if 0 <= j < sub_tables_spec(data_blocks_spec(r0.size)) && indirect_entry(
                            diskg1,
                            rg1.indirect2,
                            j,
                        ) == indirect_entry(diskg0, r0.indirect2, j) {
                            assert(das <= indirect_entry(diskg0, r0.indirect2, j));
                        } else {
                            assert(fresh@.contains(indirect_entry(diskg1, rg1.indirect2, j)));
                            let k = choose|k: int|
                                0 <= k < fresh@.len() && fresh@[k] == indirect_entry(
                                    diskg1,
                                    rg1.indirect2,
                                    j,
                                );
                            assert(das <= fresh@[k]);
                        }
                    }
                }
            }
            if !disk_inode.check_valid(&mut fs.cache, &mut fs.block_device) {
                return Err(FsError::InvariantViolation);
            }
            let ghost diskg2 = fs.disk();
            proof {
                fs.block_device.lemma_device_wf();
                crate::block_cache::lemma_vdisk_wf(fs.cache, fs.block_device.blocks());
            }
            fs.write_disk_inode(self.inode_id, &disk_inode);
            proof {
                assert forall|x: int| 0 <= x < n && das <= x implies #[trigger] fs.disk()[x]
                    == diskg2[x] by {}
                lemma_low_write_frame(disk_inode@, diskg2, fs.disk(), n, das);
                crate::block_cache::lemma_splice_frame(
                    diskg2[rb],
                    slot,
                    crate::layout::disk_inode_bytes(disk_inode@),
                );
                assert(fs.disk()[rb].subrange(slot, slot + DISK_INODE_SIZE)
                    =~= crate::layout::disk_inode_bytes(disk_inode@));
                crate::layout::lemma_disk_inode_round_trip(disk_inode@);
            }
        }
        proof {
            assert(inode_valid(disk_inode@, fs.disk(), n));
            assert(blocks_in_area(disk_inode@, fs.disk(), das));
        }
        let ghost diskw = fs.disk();
        let ghost rg = disk_inode@;
        let cnt = disk_inode.write_at(offset, buf, &mut fs.cache, &mut fs.block_device);
        proof {
            assert(fs.disk()[rb] == diskw[rb]) by {
                if fs.disk()[rb] != diskw[rb] {
                    let i = choose|i: int|
                        0 <= i < data_blocks_spec(rg.size) && rb == block_id_spec(
                            rg,
                            diskw,
                            i,
                        );
                    assert(das <= block_id_spec(rg, diskw, i));
                }
            }
            assert(self.record(*fs) == rg);
        }
        Ok(cnt)
    }

    /// Create `name` in this directory as an empty file: allocate an
    /// inode number, append a directory entry mapping the name to it, and
    /// write the fresh size-0 record. A handle that is not a directory,
    /// or a name already present, fails with `InvariantViolation`; a
    /// directory that cannot grow fails with `CapacityExhausted`.
    #[verifier::loop_isolation(false)]
    #[verifier::rlimit(100)]
    pub fn create<D: BlockDevice>(
        &self,
        fs: &mut EasyFileSystem<D>,
        name: &Vec<u8>,
    ) -> (r: Result<Inode, FsError>)
        requires
            old(fs).wf(),
            self.in_range(*old(fs)),
            name@.len() <= NAME_LENGTH_LIMIT,
            inode_valid(self.record(*old(fs)), old(fs).disk(), old(fs).n()),
            blocks_in_area(
                self.record(*old(fs)),
                old(fs).disk(),
                old(fs).data_area_start_block as int,
            ),
        ensures
            final(fs).wf(),
            final(fs).n() == old(fs).n(),
            *final(fs) == (EasyFileSystem {
                cache: final(fs).cache,
                block_device: final(fs).block_device,
                ..*old(fs)
            }),
            r matches Ok(h) ==> h.in_range(*old(fs)) && h.record(*final(fs)).size == 0 && h.record(
                *final(fs),
            ).type_ == DiskInodeType::File,
            self.record(*old(fs)).type_ != DiskInodeType::Directory ==> r == Err::<
                Inode,
                FsError,
            >(FsError::InvariantViolation),
            r == Err::<Inode, FsError>(FsError::InvariantViolation) ==> self.record(
                *old(fs),
            ).type_ != DiskInodeType::Directory || (exists|k: int|
                0 <= k < self.record(*old(fs)).size as int / DIRENT_SIZE as int && entry_matches(
                    #[trigger] dir_entry_at(self.record(*old(fs)), old(fs).disk(), k).name,
                    name@,
                )),
    {
        let ghost r0 = self.record(*old(fs));
        let ghost disk0 = old(fs).disk();
        let ghost n = old(fs).n();
        let ghost das = old(fs).data_area_start_block as int;
        let disk_inode = fs.read_disk_inode(self.inode_id);
        if !disk_inode.is_dir() {
            return Err(FsError::InvariantViolation);
        }
        match self.find(fs, name) {
            Some(_) => {
                return Err(FsError::InvariantViolation);
            },
            None => {},
        }
        let new_id = match fs.alloc_inode() {
            Ok(b) => b,
            Err(e) => {
                return Err(e);
            },
        };
        proof {
            let bit = new_id as int;
            vstd::arithmetic::div_mod::lemma_fundamental_div_mod(bit, 8);
            vstd::arithmetic::div_mod::lemma_fundamental_div_mod(bit / 8, BLOCK_SIZE as int);
            let ib = old(fs).inode_bitmap.blocks as int;
            assert(8 * (ib * 512) == ib * 4096) by (nonlinear_arith);
            assert(8 * (ib * BLOCK_SIZE as int) == ib * crate::BLOCK_BITS as int);
            assert(1 + (bit / 8) / (BLOCK_SIZE as int) < das);
            assert forall|x: int| 0 <= x < n && das <= x implies #[trigger] fs.disk()[x]
                == disk0[x] by {}
            lemma_low_write_frame(r0, disk0, fs.disk(), n, das);
            assert(fs.disk()[old(fs).inode_area_start_block + self.inode_id as int / 4]
                == disk0[old(fs).inode_area_start_block + self.inode_id as int / 4]);
            assert(self.record(*fs) == r0);
        }
        let entry = DirEntry::new(name, new_id);
        let bytes = entry.to_bytes();
        let append_at = disk_inode.size as usize;
        if append_at > usize::MAX - DIRENT_SIZE {
            proof {
                vstd::arithmetic::div_mod::lemma_fundamental_div_mod(
                    r0.size as int + BLOCK_SIZE - 1,
                    BLOCK_SIZE as int,
                );
                assert(max_data_blocks() * BLOCK_SIZE as int == 8468480) by (nonlinear_arith);
                assert(data_blocks_spec(r0.size) * BLOCK_SIZE as int <= 8468480)
                    by (nonlinear_arith)
                    requires
                        data_blocks_spec(r0.size) <= max_data_blocks(),
                ;
                assert(false);
            }
            return Err(FsError::InvariantViolation);
        }
        match self.write_at(fs, append_at, &bytes) {
            Ok(_) => {},
            Err(_) => {
                // Growth could not be supplied: report it as a capacity
                // limit of the volume.
                return Err(FsError::CapacityExhausted);
            },
        }
        let mut node = DiskInode {
            size: 0,
            direct: Vec::new(),
            indirect1: 0,
            indirect2: 0,
            type_: DiskInodeType::File,
        };
        node.initialize(DiskInodeType::File);
        let ghost diskp = fs.disk();
        let (block_id, block_offset) = fs.get_disk_inode_pos(new_id);
        proof {
            fs.block_device.lemma_device_wf();
            crate::block_cache::lemma_vdisk_wf(fs.cache, fs.block_device.blocks());
        }
        fs.write_disk_inode(new_id, &node);
        let h = Inode::new(block_id, block_offset, new_id);
        proof {
            crate::block_cache::lemma_splice_frame(
                diskp[block_id as int],
                block_offset as int,
                crate::layout::disk_inode_bytes(node@),
            );
            assert(fs.disk()[block_id as int].subrange(
                block_offset as int,
                block_offset as int + DISK_INODE_SIZE,
            ) =~= crate::layout::disk_inode_bytes(node@));
            crate::layout::lemma_disk_inode_round_trip(node@);
            assert(h.record(*fs) == node@);
        }
        Ok(h)
    }

    /// Truncate this inode to size zero and give every block it reached,
    /// data and tables alike, back to the data allocator.
    #[verifier::loop_isolation(false)]
    #[verifier::rlimit(100)]
    pub fn clear<D: BlockDevice>(&self, fs: &mut EasyFileSystem<D>) -> (r: Result<(), FsError>)
        requires
            old(fs).wf(),
            self.in_range(*old(fs)),
        ensures
            final(fs).wf(),
            final(fs).n() == old(fs).n(),
            *final(fs) == (EasyFileSystem {
                cache: final(fs).cache,
                block_device: final(fs).block_device,
                ..*old(fs)
            }),
            r matches Ok(_) ==> self.record(*final(fs)).size == 0 && self.record(
                *final(fs),
            ).indirect1 == 0 && self.record(*final(fs)).indirect2 == 0 && (forall|i: int|
                0 <= i < crate::INODE_DIRECT_COUNT ==> self.record(*final(fs)).direct[i] == 0u32)
                && self.record(*final(fs)).type_ == self.record(*old(fs)).type_,
            r matches Ok(_) ==> forall|x: int|
                0 <= x < total_blocks_spec(self.record(*old(fs)).size)
                    ==> !bitmap_bit(
                    final(fs).disk(),
                    old(fs).data_bitmap.start_block_id as int,
                    #[trigger] reach_expected(
                        self.record(*old(fs)),
                        old(fs).disk(),
                        data_blocks_spec(self.record(*old(fs)).size),
                        x,
                    ) - old(fs).data_area_start_block,
                ),
    {
        let ghost disk0 = old(fs).disk();
        let ghost n = old(fs).n();
        let ghost r0 = self.record(*old(fs));
        let ghost d0 = data_blocks_spec(r0.size);
        let mut disk_inode = fs.read_disk_inode(self.inode_id);
        if !disk_inode.check_valid(&mut fs.cache, &mut fs.block_device) {
            return Err(FsError::InvariantViolation);
        }
        let freed = disk_inode.clear_size(&mut fs.cache, &mut fs.block_device);
        let (rb_exec, slot_exec) = fs.get_disk_inode_pos(self.inode_id);
        let ghost rb = rb_exec as int;
        let ghost slot = slot_exec as int;
        proof {
            fs.block_device.lemma_device_wf();
            crate::block_cache::lemma_vdisk_wf(fs.cache, fs.block_device.blocks());
            assert(disk0[rb].len() == BLOCK_SIZE);
        }
        fs.write_disk_inode(self.inode_id, &disk_inode);
        let ghost disk_a = fs.disk();
        proof {
            crate::block_cache::lemma_splice_frame(
                disk0[rb],
                slot,
                crate::layout::disk_inode_bytes(disk_inode@),
            );
            assert(disk_a[rb].subrange(slot, slot + DISK_INODE_SIZE) =~= crate::layout::disk_inode_bytes(
                disk_inode@,
            ));
            crate::layout::lemma_disk_inode_round_trip(disk_inode@);
        }
        let mut k: usize = 0;
        while k < freed.len()
            invariant
                k <= freed@.len(),
                fs.wf(),
                fs.n() == n,
                *fs == (EasyFileSystem {
                    cache: fs.cache,
                    block_device: fs.block_device,
                    ..*old(fs)
                }),
                fs.disk()[rb] == disk_a[rb],
                forall|x: int|
                    0 <= x < freed@.len() ==> 0 < #[trigger] freed@[x] && (freed@[x] as int) < n,
                forall|x: int|
                    0 <= x < freed@.len() ==> #[trigger] freed@[x] == reach_expected(
                        r0,
                        disk0,
                        d0,
                        x,
                    ),
                forall|x: int|
                    0 <= x < k ==> old(fs).data_area_start_block <= #[trigger] freed@[x]
                        && freed@[x] - old(fs).data_area_start_block < old(
                        fs,
                    ).data_bitmap.maximum_spec() && !bitmap_bit(
                        fs.disk(),
                        old(fs).data_bitmap.start_block_id as int,
                        freed@[x] - old(fs).data_area_start_block,
                    ),
            decreases freed@.len() - k,
        {
            let b = freed[k];
            if b < fs.data_area_start_block {
                return Err(FsError::InvariantViolation);
            }
            if (b - fs.data_area_start_block) as usize >= fs.data_bitmap.maximum() {
                return Err(FsError::InvariantViolation);
            }
            match fs.dealloc_data(b) {
                Ok(_) => {},
                Err(e) => {
                    return Err(e);
                },
            }
            k = k + 1;
        }
        proof {
            assert(self.record(*fs) == disk_inode@);
            assert forall|x: int| 0 <= x < total_blocks_spec(r0.size) implies !bitmap_bit(
                fs.disk(),
                old(fs).data_bitmap.start_block_id as int,
                #[trigger] reach_expected(r0, disk0, d0, x) - old(fs).data_area_start_block,
            ) by {
                assert(freed@[x] == reach_expected(r0, disk0, d0, x));
                assert(!bitmap_bit(
                    fs.disk(),
                    old(fs).data_bitmap.start_block_id as int,
                    freed@[x] - old(fs).data_area_start_block,
                ));
            }
        }
        Ok(())
    }

    /// Whether two byte strings hold the same bytes.
    fn bytes_eq(a: &Vec<u8>, b: &Vec<u8>) -> (r: bool)
        ensures
            r == (a@ == b@),
    {
        if a.len() != b.len() {
            proof {
                assert(a@ != b@);
            }
            return false;
        }
        let mut i: usize = 0;
        while i < a.len()
            invariant
                i <= a@.len(),
                a@.len() == b@.len(),
                forall|k: int| 0 <= k < i ==> a@[k] == b@[k],
            decreases a@.len() - i,
        {
            if a[i] != b[i] {
                proof {
                    assert(a@ != b@);
                }
                return false;
            }
            i = i + 1;
        }
        proof {
            assert(a@ =~= b@);
        }
        true
    }
}

} // verus!
