//! The on-disk layout: little-endian record codecs, the super block, the
//! disk inode with its three addressing tiers, and directory entries.
//!
//! A volume is five consecutive regions in block order: super block, inode
//! bitmap, inode area, data bitmap, data area.
use vstd::prelude::*;

use vstd::arithmetic::div_mod::{
    lemma_div_is_ordered, lemma_div_multiples_vanish, lemma_fundamental_div_mod,
};

use crate::block_cache::{splice_bytes, vdisk, BlockCacheManager};
use crate::block_dev::BlockDevice;
use crate::{
    FsError, BLOCK_SIZE, DIRECT_BOUND, DIRENT_SIZE, DISK_INODE_SIZE, EFS_MAGIC, INDIRECT1_BOUND,
    INODE_DIRECT_COUNT, INODE_INDIRECT1_COUNT, NAME_LENGTH_LIMIT,
};

verus! {

/// The four bytes of `x`, least significant first.
pub open spec fn u32_le_bytes(x: u32) -> Seq<u8> {
    seq![
        (x % 256) as u8,
        ((x / 256) % 256) as u8,
        ((x / 65536) % 256) as u8,
        ((x / 16777216) % 256) as u8,
    ]
}

/// The value of four little-endian bytes.
pub open spec fn u32_from_le(b: Seq<u8>) -> u32 {
    (b[0] + b[1] * 0x100 + b[2] * 0x1_0000 + b[3] * 0x100_0000) as u32
}

/// Encoding four bytes and reading them back is the identity.
pub proof fn lemma_u32_round_trip(x: u32)
    ensures
        u32_from_le(u32_le_bytes(x)) == x,
{
    assert(x % 256 + (x / 256 % 256) * 0x100 + (x / 65536 % 256) * 0x1_0000 + (x / 16777216 % 256)
        * 0x100_0000 == x) by (nonlinear_arith);
}

/// Serialize `x` as four little-endian bytes.
pub fn u32_to_le(x: u32) -> (r: Vec<u8>)
    ensures
        r@ == u32_le_bytes(x),
        r@.len() == 4,
{
    let mut r: Vec<u8> = Vec::new();
    r.push((x % 256) as u8);
    r.push(((x / 256) % 256) as u8);
    r.push(((x / 65536) % 256) as u8);
    r.push(((x / 16777216) % 256) as u8);
    proof {
        assert(r@ =~= u32_le_bytes(x));
    }
    r
}

/// Read a `u32` out of four little-endian bytes.
pub fn u32_of_le(b: &Vec<u8>) -> (r: u32)
    requires
        b@.len() == 4,
    ensures
        r == u32_from_le(b@),
{
    b[0] as u32 + b[1] as u32 * 0x100 + b[2] as u32 * 0x1_0000 + b[3] as u32 * 0x100_0000
}

/// The head record of every volume, stored in block 0. Its magic number
/// tells a formatted volume from garbage; its four counts partition the
/// blocks after it into the four remaining regions.
pub struct SuperBlock {
    /// `EFS_MAGIC` on every valid volume.
    pub magic: u32,
    /// Blocks in the whole volume.
    pub total_blocks: u32,
    /// Blocks of the inode allocation bitmap.
    pub inode_bitmap_blocks: u32,
    /// Blocks of the packed inode records.
    pub inode_area_blocks: u32,
    /// Blocks of the data allocation bitmap.
    pub data_bitmap_blocks: u32,
    /// Blocks of file and directory content.
    pub data_area_blocks: u32,
}

/// The 24-byte serialization of a super block.
pub open spec fn super_block_bytes(sb: SuperBlock) -> Seq<u8> {
    u32_le_bytes(sb.magic) + u32_le_bytes(sb.total_blocks) + u32_le_bytes(sb.inode_bitmap_blocks)
        + u32_le_bytes(sb.inode_area_blocks) + u32_le_bytes(sb.data_bitmap_blocks) + u32_le_bytes(
        sb.data_area_blocks,
    )
}

/// The super block read out of 24 bytes.
pub open spec fn super_block_of_bytes(b: Seq<u8>) -> SuperBlock {
    SuperBlock {
        magic: u32_from_le(b.subrange(0, 4)),
        total_blocks: u32_from_le(b.subrange(4, 8)),
        inode_bitmap_blocks: u32_from_le(b.subrange(8, 12)),
        inode_area_blocks: u32_from_le(b.subrange(12, 16)),
        data_bitmap_blocks: u32_from_le(b.subrange(16, 20)),
        data_area_blocks: u32_from_le(b.subrange(20, 24)),
    }
}

/// Serializing a super block and reading it back is the identity.
pub proof fn lemma_super_block_round_trip(sb: SuperBlock)
    ensures
        super_block_of_bytes(super_block_bytes(sb)) == sb,
{
    let b = super_block_bytes(sb);
    assert(b.subrange(0, 4) =~= u32_le_bytes(sb.magic));
    assert(b.subrange(4, 8) =~= u32_le_bytes(sb.total_blocks));
    assert(b.subrange(8, 12) =~= u32_le_bytes(sb.inode_bitmap_blocks));
    assert(b.subrange(12, 16) =~= u32_le_bytes(sb.inode_area_blocks));
    assert(b.subrange(16, 20) =~= u32_le_bytes(sb.data_bitmap_blocks));
    assert(b.subrange(20, 24) =~= u32_le_bytes(sb.data_area_blocks));
    lemma_u32_round_trip(sb.magic);
    lemma_u32_round_trip(sb.total_blocks);
    lemma_u32_round_trip(sb.inode_bitmap_blocks);
    lemma_u32_round_trip(sb.inode_area_blocks);
    lemma_u32_round_trip(sb.data_bitmap_blocks);
    lemma_u32_round_trip(sb.data_area_blocks);
}

impl SuperBlock {
    /// Stamp the record with the magic number and the four region sizes.
    pub fn initialize(
        &mut self,
        total_blocks: u32,
        inode_bitmap_blocks: u32,
        inode_area_blocks: u32,
        data_bitmap_blocks: u32,
        data_area_blocks: u32,
    )
        ensures
            final(self).magic == EFS_MAGIC,
            final(self).total_blocks == total_blocks,
            final(self).inode_bitmap_blocks == inode_bitmap_blocks,
            final(self).inode_area_blocks == inode_area_blocks,
            final(self).data_bitmap_blocks == data_bitmap_blocks,
            final(self).data_area_blocks == data_area_blocks,
            final(self).is_valid_spec(),
    {
        *self = SuperBlock {
            magic: EFS_MAGIC,
            total_blocks,
            inode_bitmap_blocks,
            inode_area_blocks,
            data_bitmap_blocks,
            data_area_blocks,
        };
    }

    /// Whether the record carries the magic number.
    pub open spec fn is_valid_spec(&self) -> bool {
        self.magic == EFS_MAGIC
    }

    /// A volume is taken for one of ours exactly when the magic matches.
    pub fn is_valid(&self) -> (r: bool)
        ensures
            r == self.is_valid_spec(),
    {
        self.magic == EFS_MAGIC
    }

    /// Serialize the record.
    pub fn to_bytes(&self) -> (r: Vec<u8>)
        ensures
            r@ == super_block_bytes(*self),
            r@.len() == 24,
    {
        let mut r = u32_to_le(self.magic);
        let mut t = u32_to_le(self.total_blocks);
        r.append(&mut t);
        let mut t = u32_to_le(self.inode_bitmap_blocks);
        r.append(&mut t);
        let mut t = u32_to_le(self.inode_area_blocks);
        r.append(&mut t);
        let mut t = u32_to_le(self.data_bitmap_blocks);
        r.append(&mut t);
        let mut t = u32_to_le(self.data_area_blocks);
        r.append(&mut t);
        r
    }

    /// Deserialize a record from 24 bytes.
    pub fn of_bytes(b: &Vec<u8>) -> (r: Self)
        requires
            b@.len() == 24,
        ensures
            r == super_block_of_bytes(b@),
    {
        let magic = read_u32_field(b, 0);
        let total_blocks = read_u32_field(b, 4);
        let inode_bitmap_blocks = read_u32_field(b, 8);
        let inode_area_blocks = read_u32_field(b, 12);
        let data_bitmap_blocks = read_u32_field(b, 16);
        let data_area_blocks = read_u32_field(b, 20);
        SuperBlock {
            magic,
            total_blocks,
            inode_bitmap_blocks,
            inode_area_blocks,
            data_bitmap_blocks,
            data_area_blocks,
        }
    }
}

/// What one on-disk inode record describes: a file or a directory.
#[derive(Clone, Copy, Debug, PartialEq, Eq, Structural)]
pub enum DiskInodeType {
    /// A flat sequence of content bytes.
    File,
    /// Content made of packed 32-byte directory entries.
    Directory,
}

/// The byte a record stores for its type.
pub open spec fn type_byte(t: DiskInodeType) -> u8 {
    match t {
        DiskInodeType::File => 0,
        DiskInodeType::Directory => 1,
    }
}

/// The type a stored byte decodes to.
pub open spec fn type_of_byte(b: u8) -> DiskInodeType {
    if b == 1 {
        DiskInodeType::Directory
    } else {
        DiskInodeType::File
    }
}

/// The mathematical content of one disk inode record.
#[verifier::ext_equal]
pub ghost struct DiskInodeV {
    /// Content length in bytes.
    pub size: u32,
    /// The 28 direct block pointers.
    pub direct: Seq<u32>,
    /// The single-indirect table block, 0 while unallocated.
    pub indirect1: u32,
    /// The double-indirect table block, 0 while unallocated.
    pub indirect2: u32,
    /// File or directory.
    pub type_: DiskInodeType,
}

/// One inode record: the size, type and block addresses of one file or
/// directory. Pointer fields stay 0 until growth first needs them.
pub struct DiskInode {
    /// Content length in bytes.
    pub size: u32,
    /// The direct block pointers; always exactly `INODE_DIRECT_COUNT` long.
    pub direct: Vec<u32>,
    /// The single-indirect table block, 0 while unallocated.
    pub indirect1: u32,
    /// The double-indirect table block, 0 while unallocated.
    pub indirect2: u32,
    /// File or directory.
    pub type_: DiskInodeType,
}

impl View for DiskInode {
    type V = DiskInodeV;

    open spec fn view(&self) -> DiskInodeV {
        DiskInodeV {
            size: self.size,
            direct: self.direct@,
            indirect1: self.indirect1,
            indirect2: self.indirect2,
            type_: self.type_,
        }
    }
}

/// How many data blocks hold `size` bytes of content: `size / BLOCK_SIZE`
/// rounded up.
pub open spec fn data_blocks_spec(size: u32) -> int {
    (size + BLOCK_SIZE - 1) as int / BLOCK_SIZE as int
}

/// How many table blocks (single-indirect, double-indirect, and one
/// sub-table per 128 blocks or fraction past the double-indirect bound) a
/// file of `d` data blocks needs.
pub open spec fn indirect_overhead_spec(d: int) -> int {
    (if d > DIRECT_BOUND as int {
        1int
    } else {
        0int
    }) + (if d > INDIRECT1_BOUND as int {
        1 + sub_tables_spec(d)
    } else {
        0int
    })
}

/// How many single-indirect sub-tables hang off the double-indirect table.
pub open spec fn sub_tables_spec(d: int) -> int {
    if d > INDIRECT1_BOUND as int {
        (d - INDIRECT1_BOUND + INODE_INDIRECT1_COUNT - 1) / INODE_INDIRECT1_COUNT as int
    } else {
        0
    }
}

/// Data blocks plus indirection overhead for `size` bytes of content.
pub open spec fn total_blocks_spec(size: u32) -> int {
    data_blocks_spec(size) + indirect_overhead_spec(data_blocks_spec(size))
}

/// The largest number of data blocks the three tiers can address.
pub open spec fn max_data_blocks() -> int {
    INDIRECT1_BOUND + INODE_INDIRECT1_COUNT * INODE_INDIRECT1_COUNT
}

/// `pos < bound` implies `pos / k` stays below `bound / k` rounded up.
pub proof fn lemma_div_strict(pos: int, bound: int, k: int)
    requires
        0 <= pos < bound,
        0 < k,
    ensures
        0 <= pos / k < (bound + k - 1) / k,
        0 <= pos % k < k,
{
    let q = pos / k;
    lemma_fundamental_div_mod(pos, k);
    assert(k * q <= pos);
    assert(k * (q + 1) == k * q + k) by (nonlinear_arith);
    assert(bound + k - 1 >= k * (q + 1));
    lemma_div_multiples_vanish(q + 1, k);
    lemma_div_is_ordered(k * (q + 1), bound + k - 1, k);
}

/// Both block-count functions are non-decreasing in the content size.
pub proof fn lemma_total_blocks_monotonic(s1: u32, s2: u32)
    requires
        s1 <= s2,
    ensures
        data_blocks_spec(s1) <= data_blocks_spec(s2),
        total_blocks_spec(s1) <= total_blocks_spec(s2),
{
    lemma_div_is_ordered(s1 + BLOCK_SIZE - 1, s2 + BLOCK_SIZE - 1, BLOCK_SIZE as int);
    let d1 = data_blocks_spec(s1);
    let d2 = data_blocks_spec(s2);
    if d2 > INDIRECT1_BOUND as int && d1 > INDIRECT1_BOUND as int {
        lemma_div_is_ordered(
            d1 - INDIRECT1_BOUND + INODE_INDIRECT1_COUNT - 1,
            d2 - INDIRECT1_BOUND + INODE_INDIRECT1_COUNT - 1,
            INODE_INDIRECT1_COUNT as int,
        );
    }
    if d2 > INDIRECT1_BOUND as int {
        assert(sub_tables_spec(d2) >= 1) by {
            lemma_div_strict(0, d2 - INDIRECT1_BOUND as int, INODE_INDIRECT1_COUNT as int);
        }
    }
}

/// The pointer stored at slot `k` of table block `table`.
pub open spec fn indirect_entry(disk: Seq<Seq<u8>>, table: u32, k: int) -> u32 {
    u32_from_le(disk[table as int].subrange(4 * k, 4 * k + 4))
}

/// The block holding logical block `i` of an inode's content, resolved by
/// the tier the index falls in: direct below `DIRECT_BOUND`, the
/// single-indirect table below `INDIRECT1_BOUND`, the double-indirect tree
/// above it.
pub open spec fn block_id_spec(ino: DiskInodeV, disk: Seq<Seq<u8>>, i: int) -> u32 {
    if i < DIRECT_BOUND as int {
        ino.direct[i]
    } else if i < INDIRECT1_BOUND as int {
        indirect_entry(disk, ino.indirect1, i - DIRECT_BOUND)
    } else {
        let j = i - INDIRECT1_BOUND as int;
        indirect_entry(
            disk,
            indirect_entry(disk, ino.indirect2, j / INODE_INDIRECT1_COUNT as int),
            j % INODE_INDIRECT1_COUNT as int,
        )
    }
}

/// Each logical index resolves through exactly the tier its thresholds
/// predict: `direct[i]` below the direct bound, slot `i - DIRECT_BOUND` of
/// the single-indirect table below the indirect bound, and past that the
/// double-indirect table picks the sub-table holding slot
/// `(i - INDIRECT1_BOUND) / INODE_INDIRECT1_COUNT`.
pub proof fn lemma_tier_selection(ino: DiskInodeV, disk: Seq<Seq<u8>>, i: int)
    requires
        0 <= i,
    ensures
        i < DIRECT_BOUND as int ==> block_id_spec(ino, disk, i) == ino.direct[i],
        DIRECT_BOUND as int <= i < INDIRECT1_BOUND as int ==> block_id_spec(ino, disk, i)
            == indirect_entry(disk, ino.indirect1, i - DIRECT_BOUND),
        INDIRECT1_BOUND as int <= i ==> block_id_spec(ino, disk, i) == indirect_entry(
            disk,
            indirect_entry(
                disk,
                ino.indirect2,
                (i - INDIRECT1_BOUND) / INODE_INDIRECT1_COUNT as int,
            ),
            (i - INDIRECT1_BOUND) % INODE_INDIRECT1_COUNT as int,
        ),
{
}

/// A well-laid-out inode on a volume of `n` blocks: every reachable block
/// id (data blocks and table blocks alike) is nonzero, in range, and
/// distinct from every other, so reads and writes of one logical block
/// touch exactly one place.
pub open spec fn inode_valid(ino: DiskInodeV, disk: Seq<Seq<u8>>, n: int) -> bool {
    let d = data_blocks_spec(ino.size);
    &&& ino.direct.len() == INODE_DIRECT_COUNT
    &&& d <= max_data_blocks()
    &&& (d > DIRECT_BOUND as int ==> 0 < ino.indirect1 < n)
    &&& (d > INDIRECT1_BOUND as int ==> 0 < ino.indirect2 < n && ino.indirect1 != ino.indirect2)
    &&& (forall|j: int|
        0 <= j < sub_tables_spec(d) ==> 0 < #[trigger] indirect_entry(disk, ino.indirect2, j) < n)
    &&& (forall|j: int|
        0 <= j < sub_tables_spec(d) ==> #[trigger] indirect_entry(disk, ino.indirect2, j)
            != ino.indirect1 && indirect_entry(disk, ino.indirect2, j) != ino.indirect2)
    &&& (forall|j1: int, j2: int|
        0 <= j1 < j2 < sub_tables_spec(d) ==> indirect_entry(disk, ino.indirect2, j1)
            != indirect_entry(disk, ino.indirect2, j2))
    &&& (forall|i: int| 0 <= i < d ==> 0 < #[trigger] block_id_spec(ino, disk, i) < n)
    &&& (forall|i: int|
        0 <= i < d ==> #[trigger] block_id_spec(ino, disk, i) != ino.indirect1 && block_id_spec(
            ino,
            disk,
            i,
        ) != ino.indirect2)
    &&& (forall|i: int, j: int|
        0 <= i < d && 0 <= j < sub_tables_spec(d) ==> #[trigger] block_id_spec(ino, disk, i)
            != #[trigger] indirect_entry(disk, ino.indirect2, j))
    &&& (forall|i1: int, i2: int|
        0 <= i1 < i2 < d ==> block_id_spec(ino, disk, i1) != block_id_spec(ino, disk, i2))
}

/// Writing one byte into one of an inode's data blocks leaves the block
/// map, the inode's validity, and every other content byte untouched.
pub proof fn lemma_inode_write_one(
    ino: DiskInodeV,
    disk: Seq<Seq<u8>>,
    n: int,
    i0: int,
    po: int,
    byte: u8,
)
    requires
        inode_valid(ino, disk, n),
        disk.len() == n,
        forall|x: int| 0 <= x < n ==> (#[trigger] disk[x]).len() == BLOCK_SIZE,
        0 <= i0 < data_blocks_spec(ino.size),
        0 <= po < BLOCK_SIZE,
    ensures
        inode_valid(
            ino,
            disk.update(
                block_id_spec(ino, disk, i0) as int,
                splice_bytes(disk[block_id_spec(ino, disk, i0) as int], po, seq![byte]),
            ),
            n,
        ),
        forall|i: int|
            0 <= i < data_blocks_spec(ino.size) ==> block_id_spec(
                ino,
                disk.update(
                    block_id_spec(ino, disk, i0) as int,
                    splice_bytes(disk[block_id_spec(ino, disk, i0) as int], po, seq![byte]),
                ),
                i,
            ) == block_id_spec(ino, disk, i),
        forall|p: int|
            0 <= p < ino.size && !(p / BLOCK_SIZE as int == i0 && p % BLOCK_SIZE as int == po)
                ==> inode_byte(
                ino,
                disk.update(
                    block_id_spec(ino, disk, i0) as int,
                    splice_bytes(disk[block_id_spec(ino, disk, i0) as int], po, seq![byte]),
                ),
                p,
            ) == inode_byte(ino, disk, p),
        forall|p: int|
            0 <= p < ino.size && p / BLOCK_SIZE as int == i0 && p % BLOCK_SIZE as int == po
                ==> inode_byte(
                ino,
                disk.update(
                    block_id_spec(ino, disk, i0) as int,
                    splice_bytes(disk[block_id_spec(ino, disk, i0) as int], po, seq![byte]),
                ),
                p,
            ) == byte,
{
    let d = data_blocks_spec(ino.size);
    let bid = block_id_spec(ino, disk, i0) as int;
    let disk1 = disk.update(bid, splice_bytes(disk[bid], po, seq![byte]));
    crate::block_cache::lemma_splice_frame(disk[bid], po, seq![byte]);
    assert(forall|t: int| 0 <= t < n && t != bid ==> disk1[t] == disk[t]);
    assert(bid != ino.indirect1 && bid != ino.indirect2);
    assert forall|i: int| 0 <= i < d implies #[trigger] block_id_spec(ino, disk1, i)
        == block_id_spec(ino, disk, i) by {
        if i >= INDIRECT1_BOUND as int {
            let j = i - INDIRECT1_BOUND as int;
            let g = j / INODE_INDIRECT1_COUNT as int;
            lemma_div_strict(j, d - INDIRECT1_BOUND as int, INODE_INDIRECT1_COUNT as int);
            assert(0 <= g < sub_tables_spec(d));
            assert(indirect_entry(disk, ino.indirect2, g) != bid);
            assert(disk1[ino.indirect2 as int] == disk[ino.indirect2 as int]);
            assert(indirect_entry(disk1, ino.indirect2, g) == indirect_entry(
                disk,
                ino.indirect2,
                g,
            ));
        } else if i >= DIRECT_BOUND as int {
            assert(disk1[ino.indirect1 as int] == disk[ino.indirect1 as int]);
        }
    }
    assert forall|g: int| 0 <= g < sub_tables_spec(d) implies #[trigger] indirect_entry(
        disk1,
        ino.indirect2,
        g,
    ) == indirect_entry(disk, ino.indirect2, g) by {
        assert(disk1[ino.indirect2 as int] == disk[ino.indirect2 as int]);
    }
    assert forall|p: int|
        0 <= p < ino.size && !(p / BLOCK_SIZE as int == i0 && p % BLOCK_SIZE as int == po)
        implies inode_byte(ino, disk1, p) == inode_byte(ino, disk, p) by {
        lemma_div_strict(p, ino.size as int, BLOCK_SIZE as int);
        let ip = p / BLOCK_SIZE as int;
        if ip != i0 {
            assert(block_id_spec(ino, disk, ip) != block_id_spec(ino, disk, i0));
            assert(disk1[block_id_spec(ino, disk, ip) as int] == disk[block_id_spec(
                ino,
                disk,
                ip,
            ) as int]);
        } else {
            assert(disk1[bid][p % BLOCK_SIZE as int] == disk[bid][p % BLOCK_SIZE as int]);
        }
    }
    assert forall|p: int|
        0 <= p < ino.size && p / BLOCK_SIZE as int == i0 && p % BLOCK_SIZE as int == po
        implies inode_byte(ino, disk1, p) == byte by {
        assert(disk1[bid][po] == byte);
    }
}

/// The content byte at position `pos` of an inode's data.
pub open spec fn inode_byte(ino: DiskInodeV, disk: Seq<Seq<u8>>, pos: int) -> u8 {
    disk[block_id_spec(ino, disk, pos / BLOCK_SIZE as int) as int][pos % BLOCK_SIZE as int]
}

/// The 128-byte serialization of one inode record: size, the 28 direct
/// pointers, the two table pointers, the type byte, three bytes of padding.
pub open spec fn disk_inode_bytes(v: DiskInodeV) -> Seq<u8> {
    u32_le_bytes(v.size) + Seq::new(112, |k: int| u32_le_bytes(v.direct[k / 4])[k % 4])
        + u32_le_bytes(v.indirect1) + u32_le_bytes(v.indirect2) + seq![
        type_byte(v.type_),
        0u8,
        0u8,
        0u8,
    ]
}

/// The inode record read out of 128 bytes.
pub open spec fn disk_inode_of_bytes(b: Seq<u8>) -> DiskInodeV {
    DiskInodeV {
        size: u32_from_le(b.subrange(0, 4)),
        direct: Seq::new(
            INODE_DIRECT_COUNT as nat,
            |i: int| u32_from_le(b.subrange(4 + 4 * i, 8 + 4 * i)),
        ),
        indirect1: u32_from_le(b.subrange(116, 120)),
        indirect2: u32_from_le(b.subrange(120, 124)),
        type_: type_of_byte(b[124]),
    }
}

/// Serializing an inode record and reading it back is the identity.
pub proof fn lemma_disk_inode_round_trip(v: DiskInodeV)
    requires
        v.direct.len() == INODE_DIRECT_COUNT,
    ensures
        disk_inode_of_bytes(disk_inode_bytes(v)) == v,
{
    let b = disk_inode_bytes(v);
    assert(b.len() == 128);
    assert(b.subrange(0, 4) =~= u32_le_bytes(v.size));
    lemma_u32_round_trip(v.size);
    assert forall|i: int| 0 <= i < INODE_DIRECT_COUNT as int implies u32_from_le(
        b.subrange(4 + 4 * i, 8 + 4 * i),
    ) == v.direct[i] by {
        assert(b.subrange(4 + 4 * i, 8 + 4 * i) =~= u32_le_bytes(v.direct[i])) by {
            assert forall|m: int| 0 <= m < 4 implies b.subrange(4 + 4 * i, 8 + 4 * i)[m]
                == u32_le_bytes(v.direct[i])[m] by {
                assert(b[4 + 4 * i + m] == u32_le_bytes(v.direct[(4 * i + m) / 4])[(4 * i + m)
                    % 4]);
                assert((4 * i + m) / 4 == i && (4 * i + m) % 4 == m) by (nonlinear_arith)
                    requires
                        0 <= m < 4,
                        0 <= i,
                ;
            }
        }
        lemma_u32_round_trip(v.direct[i]);
    }
    assert(b.subrange(116, 120) =~= u32_le_bytes(v.indirect1));
    lemma_u32_round_trip(v.indirect1);
    assert(b.subrange(120, 124) =~= u32_le_bytes(v.indirect2));
    lemma_u32_round_trip(v.indirect2);
    assert(b[124] == type_byte(v.type_));
    assert(disk_inode_of_bytes(b) =~= v);
}

impl DiskInode {
    /// The record always carries exactly `INODE_DIRECT_COUNT` direct
    /// pointers.
    pub open spec fn wf(&self) -> bool {
        self.direct@.len() == INODE_DIRECT_COUNT
    }

    /// Reset the record to an empty file or directory of the given type:
    /// size zero and every pointer unallocated.
    pub fn initialize(&mut self, type_: DiskInodeType)
        ensures
            final(self).wf(),
            final(self)@.size == 0,
            final(self)@.direct =~= Seq::new(INODE_DIRECT_COUNT as nat, |i: int| 0u32),
            final(self)@.indirect1 == 0,
            final(self)@.indirect2 == 0,
            final(self)@.type_ == type_,
    {
        let mut direct: Vec<u32> = Vec::new();
        let mut i: usize = 0;
        while i < INODE_DIRECT_COUNT
            invariant
                i <= INODE_DIRECT_COUNT,
                direct@.len() == i,
                forall|k: int| 0 <= k < i ==> direct@[k] == 0u32,
            decreases INODE_DIRECT_COUNT - i,
        {
            direct.push(0u32);
            i = i + 1;
        }
        *self = DiskInode { size: 0, direct, indirect1: 0, indirect2: 0, type_ };
    }

    /// Whether this record describes a directory.
    pub fn is_dir(&self) -> (r: bool)
        ensures
            r == (self@.type_ == DiskInodeType::Directory),
    {
        self.type_ == DiskInodeType::Directory
    }

    /// Whether this record describes a file.
    pub fn is_file(&self) -> (r: bool)
        ensures
            r == (self@.type_ == DiskInodeType::File),
    {
        self.type_ == DiskInodeType::File
    }

    /// How many data blocks this record's content occupies.
    pub fn data_bocks(&self) -> (r: u32)
        ensures
            r == data_blocks_spec(self.size),
    {
        Self::_data_blocks(self.size)
    }

    /// How many data blocks `size` bytes occupy.
    pub fn _data_blocks(size: u32) -> (r: u32)
        ensures
            r == data_blocks_spec(size),
    {
        proof {
            lemma_div_is_ordered(
                size + BLOCK_SIZE - 1,
                0xffff_ffffi64 as int + BLOCK_SIZE - 1,
                BLOCK_SIZE as int,
            );
        }
        (((size as u64) + (BLOCK_SIZE as u64) - 1) / (BLOCK_SIZE as u64)) as u32
    }

    /// Data blocks plus indirection overhead for `size` bytes: one
    /// single-indirect table past the direct bound, and past the
    /// double-indirect bound one double-indirect table plus one sub-table
    /// per `INODE_INDIRECT1_COUNT` blocks or fraction thereof.
    pub fn total_blocks(size: u32) -> (r: u32)
        ensures
            r == total_blocks_spec(size),
    {
        let data_blocks = Self::_data_blocks(size) as u64;
        let mut total: u64 = data_blocks;
        if data_blocks > DIRECT_BOUND as u64 {
            total = total + 1;
        }
        if data_blocks > INDIRECT1_BOUND as u64 {
            total = total + 1 + (data_blocks - INDIRECT1_BOUND as u64 + INODE_INDIRECT1_COUNT
                as u64 - 1) / (INODE_INDIRECT1_COUNT as u64);
        }
        proof {
            lemma_div_is_ordered(
                size + BLOCK_SIZE - 1,
                0xffff_ffffi64 as int + BLOCK_SIZE - 1,
                BLOCK_SIZE as int,
            );
            if data_blocks as int > INDIRECT1_BOUND as int {
                lemma_div_is_ordered(
                    data_blocks as int - INDIRECT1_BOUND + INODE_INDIRECT1_COUNT - 1,
                    0x100_0000,
                    INODE_INDIRECT1_COUNT as int,
                );
            }
        }
        total as u32
    }

    /// How many fresh blocks growing the content to `new_size` bytes must
    /// obtain from the allocator before any pointer is updated.
    pub fn blocks_num_needed(&self, new_size: u32) -> (r: u32)
        requires
            new_size >= self.size,
        ensures
            r == total_blocks_spec(new_size) - total_blocks_spec(self.size),
    {
        proof {
            lemma_total_blocks_monotonic(self.size, new_size);
        }
        Self::total_blocks(new_size) - Self::total_blocks(self.size)
    }
}

impl DiskInode {
    /// Serialize the record as its 128 on-disk bytes.
    pub fn to_bytes(&self) -> (r: Vec<u8>)
        requires
            self.wf(),
        ensures
            r@ == disk_inode_bytes(self@),
            r@.len() == DISK_INODE_SIZE,
    {
        let mut r = u32_to_le(self.size);
        let mut i: usize = 0;
        while i < INODE_DIRECT_COUNT
            invariant
                self.wf(),
                i <= INODE_DIRECT_COUNT,
                r@.len() == 4 + 4 * i,
                forall|k: int| 0 <= k < 4 ==> r@[k] == u32_le_bytes(self.size)[k],
                forall|k: int|
                    0 <= k < 4 * i ==> #[trigger] r@[4 + k] == u32_le_bytes(
                        self.direct@[k / 4],
                    )[k % 4],
            decreases INODE_DIRECT_COUNT - i,
        {
            let mut t = u32_to_le(self.direct[i]);
            r.append(&mut t);
            proof {
                assert forall|k: int| 0 <= k < 4 * (i + 1) implies #[trigger] r@[4 + k]
                    == u32_le_bytes(self.direct@[k / 4])[k % 4] by {
                    if k >= 4 * i {
                        assert(k / 4 == i as int && k % 4 == k - 4 * i) by (nonlinear_arith)
                            requires
                                4 * i <= k < 4 * (i + 1),
                                0 <= i,
                        ;
                        assert(r@[4 + k] == u32_le_bytes(self.direct@[i as int])[k - 4 * i]);
                    }
                }
            }
            i = i + 1;
        }
        let mut t = u32_to_le(self.indirect1);
        r.append(&mut t);
        let mut t = u32_to_le(self.indirect2);
        r.append(&mut t);
        let tb: u8 = match self.type_ {
            DiskInodeType::File => 0,
            DiskInodeType::Directory => 1,
        };
        r.push(tb);
        r.push(0u8);
        r.push(0u8);
        r.push(0u8);
        proof {
            assert forall|j: int| 0 <= j < 128 implies r@[j] == disk_inode_bytes(self@)[j] by {
                if 4 <= j < 116 {
                    assert(r@[4 + (j - 4)] == u32_le_bytes(self.direct@[(j - 4) / 4])[(j - 4)
                        % 4]);
                }
            }
            assert(r@ =~= disk_inode_bytes(self@));
        }
        r
    }

    /// Deserialize a record from its 128 on-disk bytes.
    pub fn of_bytes(b: &Vec<u8>) -> (r: Self)
        requires
            b@.len() == DISK_INODE_SIZE,
        ensures
            r@ == disk_inode_of_bytes(b@),
            r.wf(),
    {
        let size = read_u32_field(b, 0);
        let mut direct: Vec<u32> = Vec::new();
        let mut i: usize = 0;
        while i < INODE_DIRECT_COUNT
            invariant
                b@.len() == DISK_INODE_SIZE,
                i <= INODE_DIRECT_COUNT,
                direct@.len() == i,
                forall|k: int|
                    0 <= k < i ==> direct@[k] == u32_from_le(b@.subrange(4 + 4 * k, 8 + 4 * k)),
            decreases INODE_DIRECT_COUNT - i,
        {
            direct.push(read_u32_field(b, 4 + 4 * i));
            i = i + 1;
        }
        let indirect1 = read_u32_field(b, 116);
        let indirect2 = read_u32_field(b, 120);
        let type_ = if b[124] == 1 {
            DiskInodeType::Directory
        } else {
            DiskInodeType::File
        };
        let r = DiskInode { size, direct, indirect1, indirect2, type_ };
        proof {
            assert(r@ =~= disk_inode_of_bytes(b@));
        }
        r
    }
}

impl DiskInode {
    /// Resolve logical content block `inner_id` to the device block that
    /// holds it, dereferencing table blocks through the cache as the tier
    /// requires.
    pub fn get_block_id<D: BlockDevice>(
        &self,
        inner_id: u32,
        cache: &mut BlockCacheManager,
        block_device: &mut D,
    ) -> (r: u32)
        requires
            old(cache).wf(),
            old(cache).all_free(),
            old(block_device).device_wf(),
            old(cache).ids_below(old(block_device).blocks().len() as int),
            old(cache).coherent(old(block_device).blocks()),
            inode_valid(
                self@,
                vdisk(*old(cache), old(block_device).blocks()),
                old(block_device).blocks().len() as int,
            ),
            inner_id < data_blocks_spec(self@.size),
        ensures
            final(cache).wf(),
            final(cache).all_free(),
            final(block_device).device_wf(),
            final(block_device).blocks().len() == old(block_device).blocks().len(),
            final(cache).ids_below(old(block_device).blocks().len() as int),
            final(cache).coherent(final(block_device).blocks()),
            vdisk(*final(cache), final(block_device).blocks()) == vdisk(
                *old(cache),
                old(block_device).blocks(),
            ),
            r == block_id_spec(
                self@,
                vdisk(*old(cache), old(block_device).blocks()),
                inner_id as int,
            ),
    {
        let ghost disk0 = vdisk(*old(cache), old(block_device).blocks());
        let ghost n = old(block_device).blocks().len() as int;
        let ghost d = data_blocks_spec(self@.size);
        proof {
            block_device.lemma_device_wf();
            crate::block_cache::lemma_vdisk_wf(*cache, block_device.blocks());
        }
        let inner = inner_id as usize;
        if inner < DIRECT_BOUND {
            self.direct[inner]
        } else if inner < INDIRECT1_BOUND {
            let off = 4 * (inner - DIRECT_BOUND);
            let b = cache.cached_read(block_device, self.indirect1 as usize, off, 4);
            u32_of_le(&b)
        } else {
            let j = inner - INDIRECT1_BOUND;
            proof {
                assert(d > INDIRECT1_BOUND as int);
                assert(d <= max_data_blocks());
                lemma_div_strict(j as int, d - INDIRECT1_BOUND as int, INODE_INDIRECT1_COUNT as int);
                assert((d - INDIRECT1_BOUND + INODE_INDIRECT1_COUNT - 1)
                    / INODE_INDIRECT1_COUNT as int <= INODE_INDIRECT1_COUNT as int)
                    by (nonlinear_arith)
                    requires
                        (INDIRECT1_BOUND as int) < d,
                        d <= max_data_blocks(),
                ;
                assert(disk0[self@.indirect2 as int].len() == BLOCK_SIZE);
            }
            let b = cache.cached_read(
                block_device,
                self.indirect2 as usize,
                4 * (j / INODE_INDIRECT1_COUNT),
                4,
            );
            let ind1 = u32_of_le(&b);
            proof {
                assert(b@ =~= disk0[self@.indirect2 as int].subrange(
                    4 * (j as int / INODE_INDIRECT1_COUNT as int),
                    4 * (j as int / INODE_INDIRECT1_COUNT as int) + 4,
                ));
                assert(ind1 == indirect_entry(
                    disk0,
                    self@.indirect2,
                    j as int / INODE_INDIRECT1_COUNT as int,
                ));
            }
            let b2 = cache.cached_read(
                block_device,
                ind1 as usize,
                4 * (j % INODE_INDIRECT1_COUNT),
                4,
            );
            let r = u32_of_le(&b2);
            proof {
                assert(b2@ =~= disk0[ind1 as int].subrange(
                    4 * (j as int % INODE_INDIRECT1_COUNT as int),
                    4 * (j as int % INODE_INDIRECT1_COUNT as int) + 4,
                ));
            }
            r
        }
    }

    /// Copy `min(len, size - offset)` content bytes starting at `offset`
    /// (none when `offset` is at or past the end), spanning physical
    /// blocks as needed.
    pub fn read_at<D: BlockDevice>(
        &self,
        offset: usize,
        len: usize,
        cache: &mut BlockCacheManager,
        block_device: &mut D,
    ) -> (r: Vec<u8>)
        requires
            old(cache).wf(),
            old(cache).all_free(),
            old(block_device).device_wf(),
            old(cache).ids_below(old(block_device).blocks().len() as int),
            old(cache).coherent(old(block_device).blocks()),
            inode_valid(
                self@,
                vdisk(*old(cache), old(block_device).blocks()),
                old(block_device).blocks().len() as int,
            ),
            offset + len <= usize::MAX,
        ensures
            final(cache).wf(),
            final(cache).all_free(),
            final(block_device).device_wf(),
            final(block_device).blocks().len() == old(block_device).blocks().len(),
            final(cache).ids_below(old(block_device).blocks().len() as int),
            final(cache).coherent(final(block_device).blocks()),
            vdisk(*final(cache), final(block_device).blocks()) == vdisk(
                *old(cache),
                old(block_device).blocks(),
            ),
            r@.len() == if offset >= self@.size {
                0int
            } else if offset + len <= self@.size {
                len as int
            } else {
                self@.size - offset
            },
            forall|k: int|
                0 <= k < r@.len() ==> r@[k] == inode_byte(
                    self@,
                    vdisk(*old(cache), old(block_device).blocks()),
                    offset + k,
                ),
    {
        let ghost disk0 = vdisk(*old(cache), old(block_device).blocks());
        let ghost n = old(block_device).blocks().len() as int;
        proof {
            block_device.lemma_device_wf();
            crate::block_cache::lemma_vdisk_wf(*cache, block_device.blocks());
        }
        let size = self.size as usize;
        let end = if offset + len < size {
            offset + len
        } else {
            size
        };
        let mut r: Vec<u8> = Vec::new();
        if offset >= end {
            return r;
        }
        let mut pos = offset;
        while pos < end
            invariant
                offset <= pos <= end,
                end <= self@.size,
                end <= if offset + len <= self@.size {
                    offset + len
                } else {
                    self@.size as int
                },
                r@.len() == pos - offset,
                forall|k: int| 0 <= k < r@.len() ==> r@[k] == inode_byte(self@, disk0, offset + k),
                cache.wf(),
                cache.all_free(),
                block_device.device_wf(),
                block_device.blocks().len() == n,
                cache.ids_below(n),
                cache.coherent(block_device.blocks()),
                vdisk(*cache, block_device.blocks()) == disk0,
                inode_valid(self@, disk0, n),
            decreases end - pos,
        {
            proof {
                lemma_div_strict(pos as int, self@.size as int, BLOCK_SIZE as int);
                block_device.lemma_device_wf();
                crate::block_cache::lemma_vdisk_wf(*cache, block_device.blocks());
            }
            let bid = self.get_block_id((pos / BLOCK_SIZE) as u32, cache, block_device);
            let b = cache.cached_read(block_device, bid as usize, pos % BLOCK_SIZE, 1);
            proof {
                assert(b@[0] == disk0[bid as int][pos as int % BLOCK_SIZE as int]);
                assert(b@[0] == inode_byte(self@, disk0, pos as int));
            }
            r.push(b[0]);
            pos = pos + 1;
        }
        r
    }
}

impl DiskInode {
    /// Overwrite `min(buf len, size - offset)` content bytes starting at
    /// `offset`. Writing never allocates: the caller must already have
    /// grown the inode to cover the target range.
    #[verifier::rlimit(60)]
    pub fn write_at<D: BlockDevice>(
        &self,
        offset: usize,
        buf: &Vec<u8>,
        cache: &mut BlockCacheManager,
        block_device: &mut D,
    ) -> (cnt: usize)
        requires
            old(cache).wf(),
            old(cache).all_free(),
            old(block_device).device_wf(),
            old(cache).ids_below(old(block_device).blocks().len() as int),
            old(cache).coherent(old(block_device).blocks()),
            inode_valid(
                self@,
                vdisk(*old(cache), old(block_device).blocks()),
                old(block_device).blocks().len() as int,
            ),
            offset + buf@.len() <= usize::MAX,
        ensures
            final(cache).wf(),
            final(cache).all_free(),
            final(block_device).device_wf(),
            final(block_device).blocks().len() == old(block_device).blocks().len(),
            final(cache).ids_below(old(block_device).blocks().len() as int),
            final(cache).coherent(final(block_device).blocks()),
            cnt == if offset >= self@.size {
                0int
            } else if offset + buf@.len() <= self@.size {
                buf@.len() as int
            } else {
                self@.size - offset
            },
            inode_valid(
                self@,
                vdisk(*final(cache), final(block_device).blocks()),
                old(block_device).blocks().len() as int,
            ),
            forall|i: int|
                0 <= i < data_blocks_spec(self@.size) ==> block_id_spec(
                    self@,
                    vdisk(*final(cache), final(block_device).blocks()),
                    i,
                ) == block_id_spec(self@, vdisk(*old(cache), old(block_device).blocks()), i),
            forall|k: int|
                0 <= k < cnt ==> inode_byte(
                    self@,
                    vdisk(*final(cache), final(block_device).blocks()),
                    offset + k,
                ) == buf@[k],
            forall|p: int|
                0 <= p < self@.size && !(offset <= p < offset + cnt) ==> inode_byte(
                    self@,
                    vdisk(*final(cache), final(block_device).blocks()),
                    p,
                ) == inode_byte(self@, vdisk(*old(cache), old(block_device).blocks()), p),
            forall|b: int|
                0 <= b < old(block_device).blocks().len() && vdisk(
                    *final(cache),
                    final(block_device).blocks(),
                )[b] != vdisk(*old(cache), old(block_device).blocks())[b] ==> exists|i: int|
                    0 <= i < data_blocks_spec(self@.size) && b == block_id_spec(
                        self@,
                        vdisk(*old(cache), old(block_device).blocks()),
                        i,
                    ),
    {
        let ghost disk0 = vdisk(*old(cache), old(block_device).blocks());
        let ghost n = old(block_device).blocks().len() as int;
        proof {
            block_device.lemma_device_wf();
            crate::block_cache::lemma_vdisk_wf(*cache, block_device.blocks());
        }
        let size = self.size as usize;
        let end = if offset + buf.len() < size {
            offset + buf.len()
        } else {
            size
        };
        if offset >= end {
            return 0;
        }
        let mut pos = offset;
        while pos < end
            invariant
                offset <= pos <= end,
                end <= self@.size,
                end <= offset + buf@.len(),
                end == if offset + buf@.len() <= self@.size {
                    offset + buf@.len()
                } else {
                    self@.size as int
                },
                cache.wf(),
                cache.all_free(),
                block_device.device_wf(),
                block_device.blocks().len() == n,
                cache.ids_below(n),
                cache.coherent(block_device.blocks()),
                inode_valid(self@, vdisk(*cache, block_device.blocks()), n),
                forall|i: int|
                    0 <= i < data_blocks_spec(self@.size) ==> block_id_spec(
                        self@,
                        vdisk(*cache, block_device.blocks()),
                        i,
                    ) == block_id_spec(self@, disk0, i),
                forall|k: int|
                    0 <= k < pos - offset ==> inode_byte(
                        self@,
                        vdisk(*cache, block_device.blocks()),
                        offset + k,
                    ) == buf@[k],
                forall|p: int|
                    0 <= p < self@.size && !(offset <= p < pos) ==> inode_byte(
                        self@,
                        vdisk(*cache, block_device.blocks()),
                        p,
                    ) == inode_byte(self@, disk0, p),
                forall|b: int|
                    0 <= b < n && vdisk(*cache, block_device.blocks())[b] != disk0[b]
                        ==> exists|i: int|
                        0 <= i < data_blocks_spec(self@.size) && b == block_id_spec(
                            self@,
                            disk0,
                            i,
                        ),
            decreases end - pos,
        {
            let ghost diskc = vdisk(*cache, block_device.blocks());
            proof {
                lemma_div_strict(pos as int, self@.size as int, BLOCK_SIZE as int);
                block_device.lemma_device_wf();
                crate::block_cache::lemma_vdisk_wf(*cache, block_device.blocks());
            }
            let bid = self.get_block_id((pos / BLOCK_SIZE) as u32, cache, block_device);
            let mut one: Vec<u8> = Vec::new();
            one.push(buf[pos - offset]);
            cache.cached_write(block_device, bid as usize, pos % BLOCK_SIZE, &one);
            proof {
                assert(one@ =~= seq![buf@[pos - offset]]);
                lemma_inode_write_one(
                    self@,
                    diskc,
                    n,
                    pos as int / BLOCK_SIZE as int,
                    pos as int % BLOCK_SIZE as int,
                    buf@[pos - offset],
                );
                assert forall|b: int|
                    0 <= b < n && vdisk(*cache, block_device.blocks())[b] != disk0[b]
                    implies exists|i: int|
                    0 <= i < data_blocks_spec(self@.size) && b == block_id_spec(
                        self@,
                        disk0,
                        i,
                    ) by {
                    if diskc[b] == disk0[b] {
                        assert(b == bid as int);
                        assert(block_id_spec(self@, disk0, pos as int / BLOCK_SIZE as int) == bid);
                    }
                }
            }
            pos = pos + 1;
        }
        end - offset
    }
}

/// Round trip: what `write_at` establishes of the volume, `read_at` hands
/// back unchanged. For any byte sequence written at `offset` and covered
/// by the inode's size, a read of the same range returns exactly those
/// bytes, whichever addressing tiers the range spans.
pub proof fn lemma_write_read_round_trip(
    ino: DiskInodeV,
    disk: Seq<Seq<u8>>,
    offset: int,
    data: Seq<u8>,
    r: Seq<u8>,
)
    requires
        offset >= 0,
        offset + data.len() <= ino.size,
        forall|k: int| 0 <= k < data.len() ==> inode_byte(ino, disk, offset + k) == data[k],
        r.len() == data.len(),
        forall|k: int| 0 <= k < r.len() ==> r[k] == inode_byte(ino, disk, offset + k),
    ensures
        r == data,
{
    assert(r =~= data);
}

/// A block the inode does not reach: not one of its data blocks and not
/// one of its table blocks. Freshly allocated blocks are of this kind.
pub open spec fn unreached_by(ino: DiskInodeV, disk: Seq<Seq<u8>>, b: u32) -> bool {
    let d = data_blocks_spec(ino.size);
    &&& b != ino.indirect1
    &&& b != ino.indirect2
    &&& forall|j: int| 0 <= j < sub_tables_spec(d) ==> b != indirect_entry(disk, ino.indirect2, j)
    &&& forall|i: int| 0 <= i < d ==> b != block_id_spec(ino, disk, i)
}

/// An inode whose reachable blocks, tables included, all lie at or past
/// `das` (the data area): the volume's metadata region sits below them.
pub open spec fn blocks_in_area(ino: DiskInodeV, disk: Seq<Seq<u8>>, das: int) -> bool {
    let d = data_blocks_spec(ino.size);
    &&& forall|i: int| 0 <= i < d ==> das <= #[trigger] block_id_spec(ino, disk, i)
    &&& d > DIRECT_BOUND as int ==> das <= ino.indirect1
    &&& d > INDIRECT1_BOUND as int ==> das <= ino.indirect2 && (forall|j: int|
        0 <= j < sub_tables_spec(d) ==> das <= #[trigger] indirect_entry(disk, ino.indirect2, j))
}

/// Rewriting one block below `das` cannot affect an inode whose blocks
/// all lie at or past `das`: its block map, its content bytes, its
/// validity and its area containment are untouched.
pub proof fn lemma_low_write_frame(
    ino: DiskInodeV,
    disk0: Seq<Seq<u8>>,
    disk1: Seq<Seq<u8>>,
    n: int,
    das: int,
)
    requires
        inode_valid(ino, disk0, n),
        blocks_in_area(ino, disk0, das),
        disk0.len() == n,
        disk1.len() == disk0.len(),
        forall|b: int| 0 <= b < disk0.len() && das <= b ==> #[trigger] disk1[b] == disk0[b],
    ensures
        inode_valid(ino, disk1, n),
        blocks_in_area(ino, disk1, das),
        forall|i: int|
            0 <= i < data_blocks_spec(ino.size) ==> #[trigger] block_id_spec(ino, disk1, i)
                == block_id_spec(ino, disk0, i),
        forall|p: int|
            0 <= p < ino.size ==> #[trigger] inode_byte(ino, disk1, p) == inode_byte(
                ino,
                disk0,
                p,
            ),
{
    let d = data_blocks_spec(ino.size);
    assert forall|j: int| 0 <= j < sub_tables_spec(d) implies #[trigger] indirect_entry(
        disk1,
        ino.indirect2,
        j,
    ) == indirect_entry(disk0, ino.indirect2, j) by {
        assert(disk1[ino.indirect2 as int] == disk0[ino.indirect2 as int]);
    }
    assert forall|i: int| 0 <= i < d implies #[trigger] block_id_spec(ino, disk1, i)
        == block_id_spec(ino, disk0, i) by {
        if i >= INDIRECT1_BOUND as int {
            let j = i - INDIRECT1_BOUND as int;
            lemma_div_strict(j, d - INDIRECT1_BOUND as int, INODE_INDIRECT1_COUNT as int);
            assert(indirect_entry(disk1, ino.indirect2, j / INODE_INDIRECT1_COUNT as int)
                == indirect_entry(disk0, ino.indirect2, j / INODE_INDIRECT1_COUNT as int));
        } else if i >= DIRECT_BOUND as int {
            assert(disk1[ino.indirect1 as int] == disk0[ino.indirect1 as int]);
        }
    }
    assert forall|p: int| 0 <= p < ino.size implies #[trigger] inode_byte(ino, disk1, p)
        == inode_byte(ino, disk0, p) by {
        lemma_div_strict(p, ino.size as int, BLOCK_SIZE as int);
        let bi = p / BLOCK_SIZE as int;
        assert(block_id_spec(ino, disk1, bi) == block_id_spec(ino, disk0, bi));
        assert(disk1[block_id_spec(ino, disk0, bi) as int] == disk0[block_id_spec(
            ino,
            disk0,
            bi,
        ) as int]);
    }
}

/// Growing from `s0` to `s1` bytes consumes one fresh block per new data
/// block, one single-indirect table when the direct bound is first
/// crossed, one double-indirect table when its bound is first crossed,
/// and one sub-table per newly started group.
pub proof fn lemma_growth_count(s0: u32, s1: u32)
    requires
        s0 <= s1,
    ensures
        total_blocks_spec(s1) - total_blocks_spec(s0) == (data_blocks_spec(s1) - data_blocks_spec(
            s0,
        )) + (if data_blocks_spec(s1) > DIRECT_BOUND as int && data_blocks_spec(s0)
            <= DIRECT_BOUND as int {
            1int
        } else {
            0int
        }) + (if data_blocks_spec(s1) > INDIRECT1_BOUND as int && data_blocks_spec(s0)
            <= INDIRECT1_BOUND as int {
            1int
        } else {
            0int
        }) + (sub_tables_spec(data_blocks_spec(s1)) - sub_tables_spec(data_blocks_spec(s0))),
        sub_tables_spec(data_blocks_spec(s0)) <= sub_tables_spec(data_blocks_spec(s1)),
{
    lemma_total_blocks_monotonic(s0, s1);
    let d0 = data_blocks_spec(s0);
    let d1 = data_blocks_spec(s1);
    if d0 > INDIRECT1_BOUND as int {
        lemma_div_is_ordered(
            d0 - INDIRECT1_BOUND + INODE_INDIRECT1_COUNT - 1,
            d1 - INDIRECT1_BOUND + INODE_INDIRECT1_COUNT - 1,
            INODE_INDIRECT1_COUNT as int,
        );
    } else if d1 > INDIRECT1_BOUND as int {
        lemma_div_strict(0, d1 - INDIRECT1_BOUND as int, INODE_INDIRECT1_COUNT as int);
    }
}

/// Serialize 128 table entries as one 512-byte table block.
fn build_table(entries: &Vec<u32>) -> (r: Vec<u8>)
    requires
        entries@.len() == INODE_INDIRECT1_COUNT,
    ensures
        r@.len() == BLOCK_SIZE,
        forall|k: int|
            0 <= k < INODE_INDIRECT1_COUNT ==> #[trigger] u32_from_le(
                r@.subrange(4 * k, 4 * k + 4),
            ) == entries@[k],
{
    let mut r: Vec<u8> = Vec::new();
    let mut i: usize = 0;
    while i < INODE_INDIRECT1_COUNT
        invariant
            i <= INODE_INDIRECT1_COUNT,
            entries@.len() == INODE_INDIRECT1_COUNT,
            r@.len() == 4 * i,
            forall|k: int|
                0 <= k < 4 * i ==> #[trigger] r@[k] == u32_le_bytes(entries@[k / 4])[k % 4],
        decreases INODE_INDIRECT1_COUNT - i,
    {
        let mut t = u32_to_le(entries[i]);
        r.append(&mut t);
        proof {
            assert forall|k: int| 0 <= k < 4 * (i + 1) implies #[trigger] r@[k] == u32_le_bytes(
                entries@[k / 4],
            )[k % 4] by {
                if k >= 4 * i {
                    assert(k / 4 == i as int && k % 4 == k - 4 * i) by (nonlinear_arith)
                        requires
                            4 * i <= k < 4 * (i + 1),
                            0 <= i,
                    ;
                    assert(r@[k] == u32_le_bytes(entries@[i as int])[k - 4 * i]);
                }
            }
        }
        i = i + 1;
    }
    proof {
        assert forall|k: int| 0 <= k < INODE_INDIRECT1_COUNT implies #[trigger] u32_from_le(
            r@.subrange(4 * k, 4 * k + 4),
        ) == entries@[k] by {
            assert(r@.subrange(4 * k, 4 * k + 4) =~= u32_le_bytes(entries@[k])) by {
                assert forall|m: int| 0 <= m < 4 implies r@.subrange(4 * k, 4 * k + 4)[m]
                    == u32_le_bytes(entries@[k])[m] by {
                    assert(r@[4 * k + m] == u32_le_bytes(entries@[(4 * k + m) / 4])[(4 * k + m)
                        % 4]);
                    assert((4 * k + m) / 4 == k && (4 * k + m) % 4 == m) by (nonlinear_arith)
                        requires
                            0 <= m < 4,
                            0 <= k,
                    ;
                }
            }
            lemma_u32_round_trip(entries@[k]);
        }
    }
    r
}

impl DiskInode {
    /// Check at run time that block `b` is not reachable from this
    /// record: not a table block and not a data block.
    #[verifier::loop_isolation(false)]
    pub fn unreached_check<D: BlockDevice>(
        &self,
        b: u32,
        cache: &mut BlockCacheManager,
        block_device: &mut D,
    ) -> (r: bool)
        requires
            old(cache).wf(),
            old(cache).all_free(),
            old(block_device).device_wf(),
            old(cache).ids_below(old(block_device).blocks().len() as int),
            old(cache).coherent(old(block_device).blocks()),
            self.wf(),
            inode_valid(
                self@,
                vdisk(*old(cache), old(block_device).blocks()),
                old(block_device).blocks().len() as int,
            ),
        ensures
            final(cache).wf(),
            final(cache).all_free(),
            final(block_device).device_wf(),
            final(block_device).blocks().len() == old(block_device).blocks().len(),
            final(cache).ids_below(old(block_device).blocks().len() as int),
            final(cache).coherent(final(block_device).blocks()),
            vdisk(*final(cache), final(block_device).blocks()) == vdisk(
                *old(cache),
                old(block_device).blocks(),
            ),
            r ==> unreached_by(self@, vdisk(*old(cache), old(block_device).blocks()), b),
    {
        let ghost disk0 = vdisk(*old(cache), old(block_device).blocks());
        let ghost n = old(block_device).blocks().len() as int;
        proof {
            block_device.lemma_device_wf();
            crate::block_cache::lemma_vdisk_wf(*cache, block_device.blocks());
        }
        if b == self.indirect1 || b == self.indirect2 {
            return false;
        }
        let d = Self::_data_blocks(self.size) as usize;
        let subcnt: usize = if d > INDIRECT1_BOUND {
            (d - INDIRECT1_BOUND + INODE_INDIRECT1_COUNT - 1) / INODE_INDIRECT1_COUNT
        } else {
            0
        };
        if d > INDIRECT1_BOUND {
            proof {
                assert((d as int - INDIRECT1_BOUND + INODE_INDIRECT1_COUNT - 1)
                    / INODE_INDIRECT1_COUNT as int <= INODE_INDIRECT1_COUNT as int)
                    by (nonlinear_arith)
                    requires
                        (INDIRECT1_BOUND as int) < d as int,
                        d as int <= max_data_blocks(),
                ;
            }
            let mut g: usize = 0;
            while g < subcnt
                invariant
                    g <= subcnt,
                    cache.wf(),
                    cache.all_free(),
                    block_device.device_wf(),
                    block_device.blocks().len() == n,
                    cache.ids_below(n),
                    cache.coherent(block_device.blocks()),
                    vdisk(*cache, block_device.blocks()) == disk0,
                    forall|j: int|
                        0 <= j < g ==> b != #[trigger] indirect_entry(disk0, self@.indirect2, j),
                decreases subcnt - g,
            {
                let e_bytes = cache.cached_read(block_device, self.indirect2 as usize, 4 * g, 4);
                let e = u32_of_le(&e_bytes);
                proof {
                    assert(e_bytes@ =~= disk0[self@.indirect2 as int].subrange(
                        4 * g as int,
                        4 * g as int + 4,
                    ));
                }
                if e == b {
                    return false;
                }
                g = g + 1;
            }
        }
        let mut i: usize = 0;
        while i < d
            invariant
                i <= d,
                cache.wf(),
                cache.all_free(),
                block_device.device_wf(),
                block_device.blocks().len() == n,
                cache.ids_below(n),
                cache.coherent(block_device.blocks()),
                vdisk(*cache, block_device.blocks()) == disk0,
                forall|k: int| 0 <= k < i ==> b != #[trigger] block_id_spec(self@, disk0, k),
            decreases d - i,
        {
            let id = self.get_block_id(i as u32, cache, block_device);
            if id == b {
                return false;
            }
            i = i + 1;
        }
        true
    }

    /// Grow the content to `new_size` bytes, wiring the supplied fresh
    /// blocks into the direct slots, the table blocks, and the table
    /// entries that the new logical indices require. `new_blocks` must
    /// hold exactly `blocks_num_needed(new_size)` distinct fresh blocks;
    /// growth then always succeeds, keeps every previously mapped index
    /// on its block, maps every new index to one of the supplied blocks,
    /// and writes nothing but the supplied blocks and the inode's own
    /// table blocks.
    #[verifier::loop_isolation(false)]
    #[verifier::rlimit(100)]
    pub fn increase_size<D: BlockDevice>(
        &mut self,
        new_size: u32,
        new_blocks: &Vec<u32>,
        cache: &mut BlockCacheManager,
        block_device: &mut D,
    ) -> (r: Result<(), FsError>)
        requires
            old(cache).wf(),
            old(cache).all_free(),
            old(block_device).device_wf(),
            old(cache).ids_below(old(block_device).blocks().len() as int),
            old(cache).coherent(old(block_device).blocks()),
            old(self).wf(),
            inode_valid(
                old(self)@,
                vdisk(*old(cache), old(block_device).blocks()),
                old(block_device).blocks().len() as int,
            ),
            new_size >= old(self).size,
            data_blocks_spec(new_size) <= max_data_blocks(),
            new_blocks@.len() == total_blocks_spec(new_size) - total_blocks_spec(old(self).size),
            forall|k: int|
                0 <= k < new_blocks@.len() ==> 0 < #[trigger] new_blocks@[k] && (new_blocks@[k]
                    as int) < old(block_device).blocks().len(),
            forall|k1: int, k2: int|
                0 <= k1 < k2 < new_blocks@.len() ==> new_blocks@[k1] != new_blocks@[k2],
            forall|k: int|
                0 <= k < new_blocks@.len() ==> unreached_by(
                    old(self)@,
                    vdisk(*old(cache), old(block_device).blocks()),
                    #[trigger] new_blocks@[k],
                ),
        ensures
            final(cache).wf(),
            final(cache).all_free(),
            final(block_device).device_wf(),
            final(block_device).blocks().len() == old(block_device).blocks().len(),
            final(cache).ids_below(old(block_device).blocks().len() as int),
            final(cache).coherent(final(block_device).blocks()),
            final(self).wf(),
            final(self)@.type_ == old(self)@.type_,
            r is Ok,
            final(self)@.size == new_size,
            forall|i: int|
                0 <= i < data_blocks_spec(old(self).size) ==> block_id_spec(
                    final(self)@,
                    vdisk(*final(cache), final(block_device).blocks()),
                    i,
                ) == block_id_spec(
                    old(self)@,
                    vdisk(*old(cache), old(block_device).blocks()),
                    i,
                ),
            forall|i: int|
                data_blocks_spec(old(self).size) <= i < data_blocks_spec(new_size)
                    ==> new_blocks@.contains(
                    #[trigger] block_id_spec(
                        final(self)@,
                        vdisk(*final(cache), final(block_device).blocks()),
                        i,
                    ),
                ),
            forall|p: int|
                0 <= p < old(self).size ==> inode_byte(
                    final(self)@,
                    vdisk(*final(cache), final(block_device).blocks()),
                    p,
                ) == inode_byte(old(self)@, vdisk(*old(cache), old(block_device).blocks()), p),
            data_blocks_spec(new_size) > DIRECT_BOUND as int && data_blocks_spec(old(self).size)
                <= DIRECT_BOUND as int ==> new_blocks@.contains(final(self)@.indirect1),
            !(data_blocks_spec(new_size) > DIRECT_BOUND as int && data_blocks_spec(old(self).size)
                <= DIRECT_BOUND as int) ==> final(self)@.indirect1 == old(self)@.indirect1,
            data_blocks_spec(new_size) > INDIRECT1_BOUND as int && data_blocks_spec(
                old(self).size,
            ) <= INDIRECT1_BOUND as int ==> new_blocks@.contains(final(self)@.indirect2),
            !(data_blocks_spec(new_size) > INDIRECT1_BOUND as int && data_blocks_spec(
                old(self).size,
            ) <= INDIRECT1_BOUND as int) ==> final(self)@.indirect2 == old(self)@.indirect2,
            forall|j: int|
                0 <= j < sub_tables_spec(data_blocks_spec(new_size)) ==> (0 <= j < sub_tables_spec(
                    data_blocks_spec(old(self).size),
                ) && #[trigger] indirect_entry(
                    vdisk(*final(cache), final(block_device).blocks()),
                    final(self)@.indirect2,
                    j,
                ) == indirect_entry(
                    vdisk(*old(cache), old(block_device).blocks()),
                    old(self)@.indirect2,
                    j,
                )) || new_blocks@.contains(
                    indirect_entry(
                        vdisk(*final(cache), final(block_device).blocks()),
                        final(self)@.indirect2,
                        j,
                    ),
                ),
            forall|b: int|
                0 <= b < old(block_device).blocks().len() && vdisk(
                    *final(cache),
                    final(block_device).blocks(),
                )[b] != vdisk(*old(cache), old(block_device).blocks())[b] ==> (exists|k: int|
                    0 <= k < new_blocks@.len() && #[trigger] new_blocks@[k] as int == b) || (
                data_blocks_spec(old(self).size) > DIRECT_BOUND as int && b
                    == old(self)@.indirect1) || (data_blocks_spec(old(self).size)
                    > INDIRECT1_BOUND as int && b == old(self)@.indirect2) || (exists|j: int|
                    0 <= j < sub_tables_spec(data_blocks_spec(old(self).size))
                        && #[trigger] indirect_entry(
                        vdisk(*old(cache), old(block_device).blocks()),
                        old(self)@.indirect2,
                        j,
                    ) as int == b),
    {
        let ghost r0 = old(self)@;
        let ghost disk0 = vdisk(*old(cache), old(block_device).blocks());
        let ghost n = old(block_device).blocks().len() as int;
        proof {
            block_device.lemma_device_wf();
            crate::block_cache::lemma_vdisk_wf(*cache, block_device.blocks());
            lemma_growth_count(old(self).size, new_size);
        }
        let d0 = Self::_data_blocks(self.size) as usize;
        let d1 = Self::_data_blocks(new_size) as usize;
        // The full list of data-block ids of the grown file: the old
        // mapping first, then the fresh blocks in order.
        let mut ids: Vec<u32> = Vec::new();
        let mut i: usize = 0;
        while i < d0
            invariant
                i <= d0,
                ids@.len() == i,
                cache.wf(),
                cache.all_free(),
                block_device.device_wf(),
                block_device.blocks().len() == n,
                cache.ids_below(n),
                cache.coherent(block_device.blocks()),
                vdisk(*cache, block_device.blocks()) == disk0,
                self == old(self),
                forall|k: int| 0 <= k < i ==> #[trigger] ids@[k] == block_id_spec(r0, disk0, k),
            decreases d0 - i,
        {
            let id = self.get_block_id(i as u32, cache, block_device);
            ids.push(id);
            i = i + 1;
        }
        let mut k2: usize = 0;
        while k2 < d1 - d0
            invariant
                k2 <= d1 - d0,
                ids@.len() == d0 + k2,
                forall|k: int| 0 <= k < d0 ==> #[trigger] ids@[k] == block_id_spec(r0, disk0, k),
                forall|k: int| d0 <= k < d0 + k2 ==> #[trigger] ids@[k] == new_blocks@[k - d0],
            decreases d1 - d0 - k2,
        {
            ids.push(new_blocks[k2]);
            k2 = k2 + 1;
        }
        let mut next: usize = d1 - d0;
        // Table blocks: reuse the old ones, consume fresh ones at the
        // crossings.
        let crossed1: bool = d1 > DIRECT_BOUND && d0 <= DIRECT_BOUND;
        let ind1: u32 = if d1 > DIRECT_BOUND {
            if d0 > DIRECT_BOUND {
                self.indirect1
            } else {
                let t = new_blocks[next];
                next = next + 1;
                t
            }
        } else {
            self.indirect1
        };
        let crossed2: bool = d1 > INDIRECT1_BOUND && d0 <= INDIRECT1_BOUND;
        let ind2: u32 = if d1 > INDIRECT1_BOUND {
            if d0 > INDIRECT1_BOUND {
                self.indirect2
            } else {
                let t = new_blocks[next];
                next = next + 1;
                t
            }
        } else {
            self.indirect2
        };
        let subs0: usize = if d0 > INDIRECT1_BOUND {
            (d0 - INDIRECT1_BOUND + INODE_INDIRECT1_COUNT - 1) / INODE_INDIRECT1_COUNT
        } else {
            0
        };
        let subs1: usize = if d1 > INDIRECT1_BOUND {
            (d1 - INDIRECT1_BOUND + INODE_INDIRECT1_COUNT - 1) / INODE_INDIRECT1_COUNT
        } else {
            0
        };
        let ghost base = next as int;
        proof {
            assert(subs0 == sub_tables_spec(d0 as int));
            assert(subs1 == sub_tables_spec(d1 as int));
            assert(base + (subs1 - subs0) == new_blocks@.len());
            if d1 > INDIRECT1_BOUND {
                assert((d1 as int - INDIRECT1_BOUND + INODE_INDIRECT1_COUNT - 1)
                    / INODE_INDIRECT1_COUNT as int <= INODE_INDIRECT1_COUNT as int)
                    by (nonlinear_arith)
                    requires
                        (INDIRECT1_BOUND as int) < d1 as int,
                        d1 as int <= max_data_blocks(),
                ;
            }
        }
        let mut subs: Vec<u32> = Vec::new();
        let mut g: usize = 0;
        while g < subs1
            invariant
                g <= subs1,
                subs@.len() == g,
                next == base + if g <= subs0 {
                    0int
                } else {
                    g - subs0
                },
                cache.wf(),
                cache.all_free(),
                block_device.device_wf(),
                block_device.blocks().len() == n,
                cache.ids_below(n),
                cache.coherent(block_device.blocks()),
                vdisk(*cache, block_device.blocks()) == disk0,
                self == old(self),
                forall|x: int|
                    0 <= x < g && x < subs0 ==> #[trigger] subs@[x] == indirect_entry(
                        disk0,
                        r0.indirect2,
                        x,
                    ),
                forall|x: int|
                    subs0 <= x < g ==> #[trigger] subs@[x] == new_blocks@[base + x - subs0],
            decreases subs1 - g,
        {
            if g < subs0 {
                let b = cache.cached_read(block_device, self.indirect2 as usize, 4 * g, 4);
                let e = u32_of_le(&b);
                proof {
                    assert(b@ =~= disk0[r0.indirect2 as int].subrange(
                        4 * g as int,
                        4 * g as int + 4,
                    ));
                }
                subs.push(e);
            } else {
                subs.push(new_blocks[next]);
                next = next + 1;
            }
            g = g + 1;
        }
        // Every write target is distinct from every other, so each table
        // block's final content is exactly the buffer written into it.
        proof {
            assert forall|x1: int, x2: int| 0 <= x1 < x2 < subs1 implies #[trigger] subs@[x1]
                != #[trigger] subs@[x2] by {
                if x2 < subs0 {
                } else if x1 < subs0 {
                    assert(unreached_by(r0, disk0, new_blocks@[base + x2 - subs0]));
                }
            }
            if d1 > INDIRECT1_BOUND && d1 > DIRECT_BOUND {
                assert(ind1 != ind2) by {
                    if d0 > INDIRECT1_BOUND {
                    } else if d0 > DIRECT_BOUND {
                        assert(unreached_by(r0, disk0, new_blocks@[base - 1]));
                    }
                }
            }
            assert forall|x: int| 0 <= x < subs1 implies #[trigger] subs@[x] != ind1 && subs@[x]
                != ind2 && 0 < subs@[x] && (subs@[x] as int) < n by {
                if x < subs0 {
                    if crossed1 {
                        assert(unreached_by(r0, disk0, new_blocks@[(d1 - d0) as int]));
                    }
                } else {
                    assert(unreached_by(r0, disk0, new_blocks@[base + x - subs0]));
                }
            }
        }
        // Write the single-indirect table whole.
        let ghost diska = vdisk(*cache, block_device.blocks());
        if d1 > DIRECT_BOUND {
            let mut entries: Vec<u32> = Vec::new();
            let mut k3: usize = 0;
            while k3 < INODE_INDIRECT1_COUNT
                invariant
                    k3 <= INODE_INDIRECT1_COUNT,
                    entries@.len() == k3,
                    ids@.len() == d1,
                    forall|k: int|
                        0 <= k < k3 ==> #[trigger] entries@[k] == if DIRECT_BOUND + k < d1 {
                            ids@[DIRECT_BOUND + k]
                        } else {
                            0u32
                        },
                decreases INODE_INDIRECT1_COUNT - k3,
            {
                if DIRECT_BOUND + k3 < d1 {
                    entries.push(ids[DIRECT_BOUND + k3]);
                } else {
                    entries.push(0u32);
                }
                k3 = k3 + 1;
            }
            let buf = build_table(&entries);
            proof {
                block_device.lemma_device_wf();
                crate::block_cache::lemma_vdisk_wf(*cache, block_device.blocks());
            }
            cache.cached_write(block_device, ind1 as usize, 0, &buf);
            proof {
                assert(vdisk(*cache, block_device.blocks())[ind1 as int] =~= buf@);
            }
        }
        let ghost diskb = vdisk(*cache, block_device.blocks());
        // Write the double-indirect table whole.
        if d1 > INDIRECT1_BOUND {
            let mut entries: Vec<u32> = Vec::new();
            let mut k3: usize = 0;
            while k3 < INODE_INDIRECT1_COUNT
                invariant
                    k3 <= INODE_INDIRECT1_COUNT,
                    entries@.len() == k3,
                    subs@.len() == subs1,
                    subs1 <= INODE_INDIRECT1_COUNT,
                    forall|k: int|
                        0 <= k < k3 ==> #[trigger] entries@[k] == if k < subs1 {
                            subs@[k]
                        } else {
                            0u32
                        },
                decreases INODE_INDIRECT1_COUNT - k3,
            {
                if k3 < subs1 {
                    entries.push(subs[k3]);
                } else {
                    entries.push(0u32);
                }
                k3 = k3 + 1;
            }
            let buf = build_table(&entries);
            proof {
                block_device.lemma_device_wf();
                crate::block_cache::lemma_vdisk_wf(*cache, block_device.blocks());
            }
            cache.cached_write(block_device, ind2 as usize, 0, &buf);
            proof {
                assert(vdisk(*cache, block_device.blocks())[ind2 as int] =~= buf@);
            }
        }
        // Write each sub-table whole.
        let ghost diskc0 = vdisk(*cache, block_device.blocks());
        let mut g2: usize = 0;
        while g2 < subs1
            invariant
                g2 <= subs1,
                subs@.len() == subs1,
                subs1 <= INODE_INDIRECT1_COUNT,
                ids@.len() == d1,
                d1 <= max_data_blocks(),
                (INDIRECT1_BOUND as int) < d1 || subs1 == 0,
                cache.wf(),
                cache.all_free(),
                block_device.device_wf(),
                block_device.blocks().len() == n,
                cache.ids_below(n),
                cache.coherent(block_device.blocks()),
                d1 > DIRECT_BOUND ==> forall|k: int|
                    0 <= k < INODE_INDIRECT1_COUNT ==> #[trigger] u32_from_le(
                        vdisk(*cache, block_device.blocks())[ind1 as int].subrange(
                            4 * k,
                            4 * k + 4,
                        ),
                    ) == if DIRECT_BOUND + k < d1 {
                        ids@[DIRECT_BOUND + k]
                    } else {
                        0u32
                    },
                d1 > INDIRECT1_BOUND ==> forall|k: int|
                    0 <= k < INODE_INDIRECT1_COUNT ==> #[trigger] u32_from_le(
                        vdisk(*cache, block_device.blocks())[ind2 as int].subrange(
                            4 * k,
                            4 * k + 4,
                        ),
                    ) == if k < subs1 {
                        subs@[k]
                    } else {
                        0u32
                    },
                forall|x: int, m: int|
                    0 <= x < g2 && 0 <= m < INODE_INDIRECT1_COUNT ==> #[trigger] u32_from_le(
                        vdisk(*cache, block_device.blocks())[subs@[x] as int].subrange(
                            4 * m,
                            4 * m + 4,
                        ),
                    ) == if INDIRECT1_BOUND + INODE_INDIRECT1_COUNT * x + m < d1 {
                        ids@[INDIRECT1_BOUND + INODE_INDIRECT1_COUNT * x + m]
                    } else {
                        0u32
                    },
                forall|b: int|
                    0 <= b < n && vdisk(*cache, block_device.blocks())[b] != disk0[b] ==> ((d1
                        > DIRECT_BOUND) && b == ind1 as int) || ((d1 > INDIRECT1_BOUND) && b
                        == ind2 as int) || (exists|x: int|
                        0 <= x < g2 && #[trigger] subs@[x] as int == b),
            decreases subs1 - g2,
        {
            let mut entries: Vec<u32> = Vec::new();
            let mut k3: usize = 0;
            proof {
                assert(INODE_INDIRECT1_COUNT as int * g2 as int + INODE_INDIRECT1_COUNT as int
                    <= INODE_INDIRECT1_COUNT as int * INODE_INDIRECT1_COUNT as int)
                    by (nonlinear_arith)
                    requires
                        0 <= (g2 as int) < INODE_INDIRECT1_COUNT as int,
                ;
            }
            while k3 < INODE_INDIRECT1_COUNT
                invariant
                    k3 <= INODE_INDIRECT1_COUNT,
                    g2 < subs1,
                    entries@.len() == k3,
                    ids@.len() == d1,
                    INDIRECT1_BOUND + INODE_INDIRECT1_COUNT * g2 + INODE_INDIRECT1_COUNT
                        <= INDIRECT1_BOUND + INODE_INDIRECT1_COUNT * INODE_INDIRECT1_COUNT,
                    forall|k: int|
                        0 <= k < k3 ==> #[trigger] entries@[k] == if INDIRECT1_BOUND
                            + INODE_INDIRECT1_COUNT * g2 + k < d1 {
                            ids@[INDIRECT1_BOUND + INODE_INDIRECT1_COUNT * g2 + k]
                        } else {
                            0u32
                        },
                decreases INODE_INDIRECT1_COUNT - k3,
            {
                let pos = INDIRECT1_BOUND + INODE_INDIRECT1_COUNT * g2 + k3;
                if pos < d1 {
                    entries.push(ids[pos]);
                } else {
                    entries.push(0u32);
                }
                k3 = k3 + 1;
            }
            let buf = build_table(&entries);
            proof {
                block_device.lemma_device_wf();
                crate::block_cache::lemma_vdisk_wf(*cache, block_device.blocks());
            }
            let ghost diskp = vdisk(*cache, block_device.blocks());
            let target = subs[g2];
            cache.cached_write(block_device, target as usize, 0, &buf);
            proof {
                assert(vdisk(*cache, block_device.blocks())[target as int] =~= buf@);
                assert forall|x: int| 0 <= x < g2 implies #[trigger] subs@[x] != subs@[g2 as int]
                by {}
            }
            g2 = g2 + 1;
        }
        // Install the grown record.
        let mut i4: usize = if d0 < DIRECT_BOUND {
            d0
        } else {
            DIRECT_BOUND
        };
        while i4 < d1 && i4 < DIRECT_BOUND
            invariant
                i4 <= DIRECT_BOUND,
                d0 <= i4 || i4 == DIRECT_BOUND,
                ids@.len() == d1,
                self.wf(),
                self@.size == old(self)@.size,
                self@.type_ == old(self)@.type_,
                self@.indirect1 == old(self)@.indirect1,
                self@.indirect2 == old(self)@.indirect2,
                forall|k: int| 0 <= k < d0 || i4 <= k < INODE_DIRECT_COUNT ==> self@.direct[k]
                    == old(self)@.direct[k],
                forall|k: int| d0 <= k < i4 ==> k < d1 && self@.direct[k] == ids@[k],
            decreases DIRECT_BOUND - i4,
        {
            self.direct[i4] = ids[i4];
            i4 = i4 + 1;
        }
        if d1 > DIRECT_BOUND {
            self.indirect1 = ind1;
        }
        if d1 > INDIRECT1_BOUND {
            self.indirect2 = ind2;
        }
        self.size = new_size;
        proof {
            let rf = self@;
            let diskf = vdisk(*cache, block_device.blocks());
            assert(data_blocks_spec(rf.size) == d1 as int);
            assert forall|i: int| 0 <= i < d1 implies #[trigger] block_id_spec(rf, diskf, i)
                == ids@[i] by {
                if i < DIRECT_BOUND as int {
                    if i < d0 {
                        assert(ids@[i] == block_id_spec(r0, disk0, i));
                    }
                } else if i < INDIRECT1_BOUND as int {
                    assert(u32_from_le(
                        diskf[ind1 as int].subrange(
                            4 * (i - DIRECT_BOUND),
                            4 * (i - DIRECT_BOUND) + 4,
                        ),
                    ) == ids@[i]);
                } else {
                    let j = i - INDIRECT1_BOUND as int;
                    let gg = j / INODE_INDIRECT1_COUNT as int;
                    let mm = j % INODE_INDIRECT1_COUNT as int;
                    lemma_div_strict(j, d1 as int - INDIRECT1_BOUND, INODE_INDIRECT1_COUNT as int);
                    vstd::arithmetic::div_mod::lemma_fundamental_div_mod(
                        j,
                        INODE_INDIRECT1_COUNT as int,
                    );
                    assert(u32_from_le(diskf[ind2 as int].subrange(4 * gg, 4 * gg + 4))
                        == subs@[gg]);
                    assert(indirect_entry(diskf, rf.indirect2, gg) == subs@[gg]);
                    assert(INDIRECT1_BOUND + INODE_INDIRECT1_COUNT as int * gg + mm == i);
                    assert(u32_from_le(diskf[subs@[gg] as int].subrange(4 * mm, 4 * mm + 4))
                        == ids@[i]);
                }
            }
            assert forall|i: int| 0 <= i < d0 implies block_id_spec(rf, diskf, i) == block_id_spec(
                r0,
                disk0,
                i,
            ) by {
                assert(ids@[i] == block_id_spec(r0, disk0, i));
            }
            assert forall|i: int| d0 <= i < d1 implies new_blocks@.contains(
                #[trigger] block_id_spec(rf, diskf, i),
            ) by {
                assert(block_id_spec(rf, diskf, i) == ids@[i]);
                assert(ids@[i] == new_blocks@[i - d0]);
            }
            assert forall|p: int| 0 <= p < r0.size implies inode_byte(rf, diskf, p) == inode_byte(
                r0,
                disk0,
                p,
            ) by {
                lemma_div_strict(p, r0.size as int, BLOCK_SIZE as int);
                let bi = p / BLOCK_SIZE as int;
                let bid = block_id_spec(r0, disk0, bi);
                assert(block_id_spec(rf, diskf, bi) == bid);
                assert(diskf[bid as int] == disk0[bid as int]) by {
                    if diskf[bid as int] != disk0[bid as int] {
                        if bid as int == ind1 as int {
                            if d0 > DIRECT_BOUND {
                                assert(bid != r0.indirect1);
                            } else if d1 > DIRECT_BOUND {
                                assert(unreached_by(r0, disk0, new_blocks@[(d1 - d0) as int]));
                            }
                        } else if bid as int == ind2 as int {
                            if d0 > INDIRECT1_BOUND {
                                assert(bid != r0.indirect2);
                            } else if d1 > INDIRECT1_BOUND {
                                assert(unreached_by(r0, disk0, new_blocks@[base - 1]));
                            }
                        } else {
                            let x = choose|x: int|
                                0 <= x < subs1 && #[trigger] subs@[x] as int == bid as int;
                            if x < subs0 {
                                assert(subs@[x] == indirect_entry(disk0, r0.indirect2, x));
                                assert(block_id_spec(r0, disk0, bi) != indirect_entry(
                                    disk0,
                                    r0.indirect2,
                                    x,
                                ));
                            } else {
                                assert(unreached_by(r0, disk0, new_blocks@[base + x - subs0]));
                            }
                        }
                    }
                }
            }
            if d1 > DIRECT_BOUND && d0 <= DIRECT_BOUND {
                assert(new_blocks@[(d1 - d0) as int] == rf.indirect1);
                assert(new_blocks@.contains(rf.indirect1));
            }
            if d1 > INDIRECT1_BOUND && d0 <= INDIRECT1_BOUND {
                assert(new_blocks@[base - 1] == rf.indirect2);
                assert(new_blocks@.contains(rf.indirect2));
            }
            assert forall|j: int| 0 <= j < sub_tables_spec(d1 as int) implies (0 <= j
                < sub_tables_spec(d0 as int) && #[trigger] indirect_entry(
                diskf,
                rf.indirect2,
                j,
            ) == indirect_entry(disk0, r0.indirect2, j)) || new_blocks@.contains(
                indirect_entry(diskf, rf.indirect2, j),
            ) by {
                assert(u32_from_le(diskf[ind2 as int].subrange(4 * j, 4 * j + 4)) == subs@[j]);
                assert(indirect_entry(diskf, rf.indirect2, j) == subs@[j]);
                if j >= subs0 {
                    assert(new_blocks@[base + j - subs0] == subs@[j]);
                }
            }
            assert forall|b: int|
                0 <= b < n && vdisk(*cache, block_device.blocks())[b] != disk0[b] implies (
            exists|k: int| 0 <= k < new_blocks@.len() && #[trigger] new_blocks@[k] as int == b)
                || (d0 as int > DIRECT_BOUND as int && b == r0.indirect1) || (d0 as int
                > INDIRECT1_BOUND as int && b == r0.indirect2) || (exists|j: int|
                0 <= j < sub_tables_spec(d0 as int) && #[trigger] indirect_entry(
                    disk0,
                    r0.indirect2,
                    j,
                ) as int == b) by {
                if b == ind1 as int {
                    if d0 <= DIRECT_BOUND && d1 > DIRECT_BOUND {
                        assert(new_blocks@[(d1 - d0) as int] as int == b);
                    }
                } else if b == ind2 as int {
                    if d0 <= INDIRECT1_BOUND && d1 > INDIRECT1_BOUND {
                        assert(new_blocks@[base - 1] as int == b);
                    }
                } else {
                    let x = choose|x: int| 0 <= x < subs1 && #[trigger] subs@[x] as int == b;
                    if x < subs0 {
                        assert(indirect_entry(disk0, r0.indirect2, x) as int == b);
                    } else {
                        assert(new_blocks@[base + x - subs0] as int == b);
                    }
                }
            }
        }
        Ok(())
    }

    /// Shrink the content to nothing and hand back every block it
    /// reached, data blocks and table blocks alike, so the caller can
    /// return them to the allocator; the record is left at size zero with
    /// every pointer unallocated.
    pub fn clear_size<D: BlockDevice>(
        &mut self,
        cache: &mut BlockCacheManager,
        block_device: &mut D,
    ) -> (v: Vec<u32>)
        requires
            old(cache).wf(),
            old(cache).all_free(),
            old(block_device).device_wf(),
            old(cache).ids_below(old(block_device).blocks().len() as int),
            old(cache).coherent(old(block_device).blocks()),
            old(self).wf(),
            inode_valid(
                old(self)@,
                vdisk(*old(cache), old(block_device).blocks()),
                old(block_device).blocks().len() as int,
            ),
        ensures
            final(cache).wf(),
            final(cache).all_free(),
            final(block_device).device_wf(),
            final(block_device).blocks().len() == old(block_device).blocks().len(),
            final(cache).ids_below(old(block_device).blocks().len() as int),
            final(cache).coherent(final(block_device).blocks()),
            vdisk(*final(cache), final(block_device).blocks()) == vdisk(
                *old(cache),
                old(block_device).blocks(),
            ),
            final(self).wf(),
            final(self)@.size == 0,
            final(self)@.indirect1 == 0,
            final(self)@.indirect2 == 0,
            final(self)@.type_ == old(self)@.type_,
            forall|i: int|
                0 <= i < INODE_DIRECT_COUNT ==> final(self)@.direct[i] == 0u32,
            v@.len() == total_blocks_spec(old(self)@.size),
            forall|k: int|
                0 <= k < v@.len() ==> #[trigger] v@[k] == reach_expected(
                    old(self)@,
                    vdisk(*old(cache), old(block_device).blocks()),
                    data_blocks_spec(old(self)@.size),
                    k,
                ),
            forall|k: int|
                0 <= k < v@.len() ==> 0 < #[trigger] v@[k] && (v@[k] as int) < old(
                    block_device,
                ).blocks().len(),
    {
        let ghost disk0 = vdisk(*old(cache), old(block_device).blocks());
        let ghost n = old(block_device).blocks().len() as int;
        proof {
            block_device.lemma_device_wf();
            crate::block_cache::lemma_vdisk_wf(*cache, block_device.blocks());
        }
        let d = Self::_data_blocks(self.size) as usize;
        let mut v: Vec<u32> = Vec::new();
        let mut i: usize = 0;
        while i < d
            invariant
                i <= d,
                d == data_blocks_spec(self@.size),
                v@.len() == i,
                cache.wf(),
                cache.all_free(),
                block_device.device_wf(),
                block_device.blocks().len() == n,
                cache.ids_below(n),
                cache.coherent(block_device.blocks()),
                vdisk(*cache, block_device.blocks()) == disk0,
                inode_valid(self@, disk0, n),
                self == old(self),
                forall|k: int|
                    0 <= k < i ==> #[trigger] v@[k] == reach_expected(self@, disk0, d as int, k),
                forall|k: int| 0 <= k < i ==> 0 < #[trigger] v@[k] && (v@[k] as int) < n,
            decreases d - i,
        {
            let id = self.get_block_id(i as u32, cache, block_device);
            v.push(id);
            i = i + 1;
        }
        let subcnt: usize = if d > INDIRECT1_BOUND {
            (d - INDIRECT1_BOUND + INODE_INDIRECT1_COUNT - 1) / INODE_INDIRECT1_COUNT
        } else {
            0
        };
        if d > DIRECT_BOUND {
            v.push(self.indirect1);
        }
        if d > INDIRECT1_BOUND {
            v.push(self.indirect2);
            let mut g: usize = 0;
            while g < subcnt
                invariant
                    g <= subcnt,
                    subcnt == sub_tables_spec(data_blocks_spec(self@.size)),
                    d == data_blocks_spec(self@.size),
                    (INDIRECT1_BOUND as int) < d,
                    v@.len() == d + 2 + g,
                    cache.wf(),
                    cache.all_free(),
                    block_device.device_wf(),
                    block_device.blocks().len() == n,
                    cache.ids_below(n),
                    cache.coherent(block_device.blocks()),
                    vdisk(*cache, block_device.blocks()) == disk0,
                    inode_valid(self@, disk0, n),
                    self == old(self),
                    forall|k: int|
                        0 <= k < v@.len() ==> #[trigger] v@[k] == reach_expected(
                            self@,
                            disk0,
                            d as int,
                            k,
                        ),
                    forall|k: int| 0 <= k < v@.len() ==> 0 < #[trigger] v@[k] && (v@[k] as int)
                        < n,
                decreases subcnt - g,
            {
                proof {
                    assert((d as int - INDIRECT1_BOUND + INODE_INDIRECT1_COUNT - 1)
                        / INODE_INDIRECT1_COUNT as int <= INODE_INDIRECT1_COUNT as int)
                        by (nonlinear_arith)
                        requires
                            (INDIRECT1_BOUND as int) < d as int,
                            d as int <= max_data_blocks(),
                    ;
                    block_device.lemma_device_wf();
                    crate::block_cache::lemma_vdisk_wf(*cache, block_device.blocks());
                }
                let b = cache.cached_read(block_device, self.indirect2 as usize, 4 * g, 4);
                let e = u32_of_le(&b);
                proof {
                    assert(b@ =~= disk0[self@.indirect2 as int].subrange(
                        4 * g as int,
                        4 * g as int + 4,
                    ));
                    assert(e == indirect_entry(disk0, self@.indirect2, g as int));
                    assert(0 < indirect_entry(disk0, self@.indirect2, g as int));
                }
                v.push(e);
                g = g + 1;
            }
        }
        self.initialize(
            if self.is_dir() {
                DiskInodeType::Directory
            } else {
                DiskInodeType::File
            },
        );
        v
    }
}

/// The block id expected at position `x` of a reachability walk: the `d`
/// data blocks first, then the single- and double-indirect tables, then
/// the sub-tables.
pub open spec fn reach_expected(ino: DiskInodeV, disk: Seq<Seq<u8>>, d: int, x: int) -> u32 {
    if x < d {
        block_id_spec(ino, disk, x)
    } else if x == d {
        ino.indirect1
    } else if x == d + 1 {
        ino.indirect2
    } else {
        indirect_entry(disk, ino.indirect2, x - d - 2)
    }
}

/// Whether every element of `v` differs from every other.
pub fn all_distinct(v: &Vec<u32>) -> (r: bool)
    ensures
        r ==> forall|a: int, b: int| 0 <= a < b < v@.len() ==> v@[a] != v@[b],
{
    let mut a: usize = 0;
    while a < v.len()
        invariant
            a <= v@.len(),
            forall|x: int, y: int| 0 <= x < y < v@.len() && x < a ==> v@[x] != v@[y],
        decreases v@.len() - a,
    {
        let mut b: usize = a + 1;
        while b < v.len()
            invariant
                a < b <= v@.len() || v@.len() <= a + 1,
                a < v@.len(),
                forall|y: int| a < y < b ==> v@[a as int] != v@[y],
            decreases v@.len() - b,
        {
            if v[a] == v[b] {
                return false;
            }
            b = b + 1;
        }
        a = a + 1;
    }
    true
}

impl DiskInode {
    /// Walk every block this record can reach, checking that each id is
    /// nonzero, on the device, and distinct from every other: a successful
    /// walk certifies the record as well laid out.
    #[verifier::loop_isolation(false)]
    #[verifier::rlimit(100)]
    pub fn check_valid<D: BlockDevice>(
        &self,
        cache: &mut BlockCacheManager,
        block_device: &mut D,
    ) -> (r: bool)
        requires
            old(cache).wf(),
            old(cache).all_free(),
            old(block_device).device_wf(),
            old(cache).ids_below(old(block_device).blocks().len() as int),
            old(cache).coherent(old(block_device).blocks()),
            self.wf(),
        ensures
            final(cache).wf(),
            final(cache).all_free(),
            final(block_device).device_wf(),
            final(block_device).blocks().len() == old(block_device).blocks().len(),
            final(cache).ids_below(old(block_device).blocks().len() as int),
            final(cache).coherent(final(block_device).blocks()),
            vdisk(*final(cache), final(block_device).blocks()) == vdisk(
                *old(cache),
                old(block_device).blocks(),
            ),
            r ==> inode_valid(
                self@,
                vdisk(*old(cache), old(block_device).blocks()),
                old(block_device).blocks().len() as int,
            ),
    {
        let ghost disk0 = vdisk(*old(cache), old(block_device).blocks());
        let n = block_device.num_blocks();
        let ghost nn = n as int;
        proof {
            block_device.lemma_device_wf();
            crate::block_cache::lemma_vdisk_wf(*cache, block_device.blocks());
        }
        let d = Self::_data_blocks(self.size) as usize;
        proof {
            assert(INODE_INDIRECT1_COUNT as int * INODE_INDIRECT1_COUNT as int == 16384)
                by (nonlinear_arith);
        }
        if d > INDIRECT1_BOUND + INODE_INDIRECT1_COUNT * INODE_INDIRECT1_COUNT {
            return false;
        }
        if d > DIRECT_BOUND {
            if self.indirect1 == 0 || self.indirect1 as usize >= n {
                return false;
            }
        }
        let subcnt: usize = if d > INDIRECT1_BOUND {
            (d - INDIRECT1_BOUND + INODE_INDIRECT1_COUNT - 1) / INODE_INDIRECT1_COUNT
        } else {
            0
        };
        proof {
            assert(subcnt == sub_tables_spec(d as int));
            if d > INDIRECT1_BOUND {
                assert((d as int - INDIRECT1_BOUND + INODE_INDIRECT1_COUNT - 1)
                    / INODE_INDIRECT1_COUNT as int <= INODE_INDIRECT1_COUNT as int)
                    by (nonlinear_arith)
                    requires
                        (INDIRECT1_BOUND as int) < d as int,
                        d as int <= max_data_blocks(),
                ;
            }
        }
        let mut subs: Vec<u32> = Vec::new();
        if d > INDIRECT1_BOUND {
            if self.indirect2 == 0 || self.indirect2 as usize >= n || self.indirect1
                == self.indirect2 {
                return false;
            }
            let mut g: usize = 0;
            while g < subcnt
                invariant
                    g <= subcnt,
                    subs@.len() == g,
                    cache.wf(),
                    cache.all_free(),
                    block_device.device_wf(),
                    block_device.blocks().len() == nn,
                    cache.ids_below(nn),
                    cache.coherent(block_device.blocks()),
                    vdisk(*cache, block_device.blocks()) == disk0,
                    forall|x: int|
                        0 <= x < g ==> subs@[x] == indirect_entry(disk0, self@.indirect2, x)
                            && 0 < subs@[x] && (subs@[x] as int) < nn,
                decreases subcnt - g,
            {
                let e_bytes = cache.cached_read(
                    block_device,
                    self.indirect2 as usize,
                    4 * g,
                    4,
                );
                let e = u32_of_le(&e_bytes);
                if e == 0 || e as usize >= n {
                    return false;
                }
                subs.push(e);
                g = g + 1;
            }
        }
        let mut all: Vec<u32> = Vec::new();
        let mut i: usize = 0;
        while i < d
            invariant
                i <= d,
                all@.len() == i,
                cache.wf(),
                cache.all_free(),
                block_device.device_wf(),
                block_device.blocks().len() == nn,
                cache.ids_below(nn),
                cache.coherent(block_device.blocks()),
                vdisk(*cache, block_device.blocks()) == disk0,
                forall|x: int|
                    0 <= x < i ==> all@[x] == block_id_spec(self@, disk0, x) && 0 < all@[x] && (
                    all@[x] as int) < nn,
            decreases d - i,
        {
            let id: u32 = if i < DIRECT_BOUND {
                self.direct[i]
            } else if i < INDIRECT1_BOUND {
                let b = cache.cached_read(
                    block_device,
                    self.indirect1 as usize,
                    4 * (i - DIRECT_BOUND),
                    4,
                );
                u32_of_le(&b)
            } else {
                let j = i - INDIRECT1_BOUND;
                proof {
                    lemma_div_strict(j as int, d as int - INDIRECT1_BOUND, INODE_INDIRECT1_COUNT as int);
                }
                let sub = subs[j / INODE_INDIRECT1_COUNT];
                let b = cache.cached_read(
                    block_device,
                    sub as usize,
                    4 * (j % INODE_INDIRECT1_COUNT),
                    4,
                );
                u32_of_le(&b)
            };
            if id == 0 || id as usize >= n {
                return false;
            }
            all.push(id);
            i = i + 1;
        }
        if d > DIRECT_BOUND {
            all.push(self.indirect1);
        } else {
            if self.indirect1 != 0 {
                return false;
            }
        }
        if d > INDIRECT1_BOUND {
            all.push(self.indirect2);
            let mut g: usize = 0;
            while g < subcnt
                invariant
                    g <= subcnt,
                    subs@.len() == subcnt,
                    all@.len() == d + 2 + g,
                    forall|x: int|
                        0 <= x < d + 2 + g ==> all@[x] == reach_expected(
                            self@,
                            disk0,
                            d as int,
                            x,
                        ) && 0 < all@[x] && (all@[x] as int) < nn,
                decreases subcnt - g,
            {
                all.push(subs[g]);
                g = g + 1;
            }
        } else {
            if self.indirect2 != 0 {
                return false;
            }
        }
        if !all_distinct(&all) {
            return false;
        }
        proof {
            let dd = d as int;
            let v = self@;
            let st = sub_tables_spec(dd);
            assert(data_blocks_spec(v.size) == dd);
            assert forall|i: int| 0 <= i < dd implies 0 < #[trigger] block_id_spec(v, disk0, i)
                && (block_id_spec(v, disk0, i) as int) < nn by {
                assert(all@[i] == block_id_spec(v, disk0, i));
            }
            assert forall|i1: int, i2: int| 0 <= i1 < i2 < dd implies block_id_spec(
                v,
                disk0,
                i1,
            ) != block_id_spec(v, disk0, i2) by {
                assert(all@[i1] == block_id_spec(v, disk0, i1));
                assert(all@[i2] == block_id_spec(v, disk0, i2));
                assert(all@[i1] != all@[i2]);
            }
            assert forall|i: int| 0 <= i < dd implies #[trigger] block_id_spec(v, disk0, i)
                != v.indirect1 && block_id_spec(v, disk0, i) != v.indirect2 by {
                assert(all@[i] == block_id_spec(v, disk0, i));
                if d > DIRECT_BOUND {
                    assert(all@[dd] == v.indirect1);
                    assert(all@[i] != all@[dd]);
                } else {
                    assert(v.indirect1 == 0);
                }
                if d > INDIRECT1_BOUND {
                    assert(all@[dd + 1] == v.indirect2);
                    assert(all@[i] != all@[dd + 1]);
                } else {
                    assert(v.indirect2 == 0);
                }
            }
            assert forall|j: int| 0 <= j < st implies 0 < #[trigger] indirect_entry(
                disk0,
                v.indirect2,
                j,
            ) && (indirect_entry(disk0, v.indirect2, j) as int) < nn && indirect_entry(
                disk0,
                v.indirect2,
                j,
            ) != v.indirect1 && indirect_entry(disk0, v.indirect2, j) != v.indirect2 by {
                assert(all@[dd + 2 + j] == indirect_entry(disk0, v.indirect2, j));
                assert(all@[dd] == v.indirect1);
                assert(all@[dd + 1] == v.indirect2);
                assert(all@[dd + 2 + j] != all@[dd]);
                assert(all@[dd + 2 + j] != all@[dd + 1]);
            }
            assert forall|j1: int, j2: int| 0 <= j1 < j2 < st implies indirect_entry(
                disk0,
                v.indirect2,
                j1,
            ) != indirect_entry(disk0, v.indirect2, j2) by {
                assert(all@[dd + 2 + j1] != all@[dd + 2 + j2]);
            }
            assert forall|i: int, j: int| 0 <= i < dd && 0 <= j < st implies #[trigger] block_id_spec(
                v,
                disk0,
                i,
            ) != #[trigger] indirect_entry(disk0, v.indirect2, j) by {
                assert(all@[i] == block_id_spec(v, disk0, i));
                assert(all@[dd + 2 + j] == indirect_entry(disk0, v.indirect2, j));
                assert(all@[i] != all@[dd + 2 + j]);
            }
            assert(inode_valid(v, disk0, nn));
        }
        true
    }
}

/// One 32-byte directory record: a NUL-padded name of at most
/// `NAME_LENGTH_LIMIT` bytes and the inode number it maps to.
pub struct DirEntry {
    /// The name field, always 28 bytes, NUL-padded past the name.
    pub name: Vec<u8>,
    /// The inode the name maps to.
    pub inode_number: u32,
}

/// The mathematical content of one directory record.
#[verifier::ext_equal]
pub ghost struct DirEntryV {
    /// The 28 stored name bytes.
    pub name: Seq<u8>,
    /// The inode the name maps to.
    pub inode_number: u32,
}

impl View for DirEntry {
    type V = DirEntryV;

    open spec fn view(&self) -> DirEntryV {
        DirEntryV { name: self.name@, inode_number: self.inode_number }
    }
}

/// The 32-byte serialization of a directory record.
pub open spec fn dir_entry_bytes(v: DirEntryV) -> Seq<u8> {
    v.name + u32_le_bytes(v.inode_number)
}

/// The directory record read out of 32 bytes.
pub open spec fn dir_entry_of_bytes(b: Seq<u8>) -> DirEntryV {
    DirEntryV {
        name: b.subrange(0, NAME_LENGTH_LIMIT + 1),
        inode_number: u32_from_le(b.subrange(NAME_LENGTH_LIMIT + 1, DIRENT_SIZE as int)),
    }
}

/// The stored name bytes for `name`: the name followed by NUL padding to
/// 28 bytes.
pub open spec fn padded_name(name: Seq<u8>) -> Seq<u8> {
    name + Seq::new((NAME_LENGTH_LIMIT + 1 - name.len()) as nat, |k: int| 0u8)
}

impl DirEntry {
    /// The name field always holds exactly 28 bytes.
    pub open spec fn wf(&self) -> bool {
        self.name@.len() == NAME_LENGTH_LIMIT + 1
    }

    /// An all-zero record: the empty name mapped to inode 0.
    pub fn empty() -> (r: Self)
        ensures
            r.wf(),
            r@.name =~= padded_name(Seq::<u8>::empty()),
            r@.inode_number == 0,
    {
        let mut name: Vec<u8> = Vec::new();
        let mut i: usize = 0;
        while i < NAME_LENGTH_LIMIT + 1
            invariant
                i <= NAME_LENGTH_LIMIT + 1,
                name@.len() == i,
                forall|k: int| 0 <= k < i ==> name@[k] == 0u8,
            decreases NAME_LENGTH_LIMIT + 1 - i,
        {
            name.push(0u8);
            i = i + 1;
        }
        let r = DirEntry { name, inode_number: 0 };
        proof {
            assert(r@.name =~= padded_name(Seq::<u8>::empty()));
        }
        r
    }

    /// A record mapping `name` (at most `NAME_LENGTH_LIMIT` bytes) to
    /// `inode_number`.
    pub fn new(name: &Vec<u8>, inode_number: u32) -> (r: Self)
        requires
            name@.len() <= NAME_LENGTH_LIMIT,
        ensures
            r.wf(),
            r@.name == padded_name(name@),
            r@.inode_number == inode_number,
    {
        let mut bytes: Vec<u8> = Vec::new();
        let mut i: usize = 0;
        while i < name.len()
            invariant
                i <= name@.len(),
                bytes@ == name@.subrange(0, i as int),
            decreases name@.len() - i,
        {
            bytes.push(name[i]);
            proof {
                assert(bytes@ =~= name@.subrange(0, i + 1));
            }
            i = i + 1;
        }
        while i < NAME_LENGTH_LIMIT + 1
            invariant
                name@.len() <= i <= NAME_LENGTH_LIMIT + 1,
                bytes@.len() == i,
                bytes@.subrange(0, name@.len() as int) == name@,
                forall|k: int| name@.len() <= k < i ==> bytes@[k] == 0u8,
            decreases NAME_LENGTH_LIMIT + 1 - i,
        {
            bytes.push(0u8);
            proof {
                assert(bytes@.subrange(0, name@.len() as int) =~= name@);
            }
            i = i + 1;
        }
        let r = DirEntry { name: bytes, inode_number };
        proof {
            assert(r@.name =~= padded_name(name@));
        }
        r
    }

    /// The bytes of the stored name before its first NUL.
    pub fn name(&self) -> (r: Vec<u8>)
        requires
            self.wf(),
        ensures
            r@.len() <= NAME_LENGTH_LIMIT + 1,
            forall|k: int| 0 <= k < r@.len() ==> r@[k] == self@.name[k] && self@.name[k] != 0u8,
            r@.len() < NAME_LENGTH_LIMIT + 1 ==> self@.name[r@.len() as int] == 0u8,
    {
        let mut r: Vec<u8> = Vec::new();
        let mut i: usize = 0;
        while i < NAME_LENGTH_LIMIT + 1
            invariant
                self.wf(),
                i <= NAME_LENGTH_LIMIT + 1,
                r@.len() == i,
                forall|k: int| 0 <= k < i ==> r@[k] == self@.name[k] && self@.name[k] != 0u8,
            decreases NAME_LENGTH_LIMIT + 1 - i,
        {
            if self.name[i] == 0 {
                return r;
            }
            r.push(self.name[i]);
            i = i + 1;
        }
        r
    }

    /// The inode number the record maps its name to.
    pub fn inode_number(&self) -> (r: u32)
        ensures
            r == self@.inode_number,
    {
        self.inode_number
    }

    /// Serialize the record as its 32 on-disk bytes.
    pub fn to_bytes(&self) -> (r: Vec<u8>)
        requires
            self.wf(),
        ensures
            r@ == dir_entry_bytes(self@),
            r@.len() == DIRENT_SIZE,
    {
        let mut r: Vec<u8> = Vec::new();
        let mut i: usize = 0;
        while i < NAME_LENGTH_LIMIT + 1
            invariant
                self.wf(),
                i <= NAME_LENGTH_LIMIT + 1,
                r@ == self@.name.subrange(0, i as int),
            decreases NAME_LENGTH_LIMIT + 1 - i,
        {
            r.push(self.name[i]);
            proof {
                assert(r@ =~= self@.name.subrange(0, i + 1));
            }
            i = i + 1;
        }
        let mut t = u32_to_le(self.inode_number);
        r.append(&mut t);
        proof {
            assert(r@ =~= dir_entry_bytes(self@));
        }
        r
    }

    /// Deserialize a record from its 32 on-disk bytes.
    pub fn of_bytes(b: &Vec<u8>) -> (r: Self)
        requires
            b@.len() == DIRENT_SIZE,
        ensures
            r@ == dir_entry_of_bytes(b@),
            r.wf(),
    {
        let mut name: Vec<u8> = Vec::new();
        let mut i: usize = 0;
        while i < NAME_LENGTH_LIMIT + 1
            invariant
                b@.len() == DIRENT_SIZE,
                i <= NAME_LENGTH_LIMIT + 1,
                name@ == b@.subrange(0, i as int),
            decreases NAME_LENGTH_LIMIT + 1 - i,
        {
            name.push(b[i]);
            proof {
                assert(name@ =~= b@.subrange(0, i + 1));
            }
            i = i + 1;
        }
        let inode_number = read_u32_field(b, NAME_LENGTH_LIMIT + 1);
        let r = DirEntry { name, inode_number };
        proof {
            assert(r@ =~= dir_entry_of_bytes(b@));
        }
        r
    }
}

/// Read the `u32` stored little-endian at byte offset `off` of `b`.
pub fn read_u32_field(b: &Vec<u8>, off: usize) -> (r: u32)
    requires
        off + 4 <= b@.len(),
    ensures
        r == u32_from_le(b@.subrange(off as int, off + 4)),
{
    let n = b.len();
    let ghost f = b@.subrange(off as int, off + 4);
    proof {
        assert(off + 4 <= n);
        assert(f[0] == b@[off as int]);
        assert(f[1] == b@[off + 1]);
        assert(f[2] == b@[off + 2]);
        assert(f[3] == b@[off + 3]);
    }
    b[off] as u32 + b[off + 1] as u32 * 0x100 + b[off + 2] as u32 * 0x1_0000 + b[off + 3] as u32
        * 0x100_0000
}

} // verus!
