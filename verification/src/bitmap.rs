//! The bit-per-unit allocator: a contiguous range of blocks in which every
//! bit says whether one allocatable unit is in use. Both the inode and the
//! data allocator are instances over different regions, and every access
//! goes through the block cache like any other block.
use vstd::prelude::*;

use vstd::arithmetic::div_mod::{lemma_fundamental_div_mod, lemma_fundamental_div_mod_converse};

use crate::block_cache::{vdisk, BlockCacheManager};
use crate::block_dev::BlockDevice;
use crate::{FsError, BLOCK_BITS, BLOCK_SIZE};

verus! {

/// Whether bit `k` of `byte` is set.
pub open spec fn bit_of_byte(byte: u8, k: int) -> bool {
    byte & (1u8 << (k as u8)) != 0
}

/// Whether allocation bit `b` of the bitmap starting at block `start` is
/// set in `disk`.
pub open spec fn bitmap_bit(disk: Seq<Seq<u8>>, start: int, b: int) -> bool {
    bit_of_byte(disk[start + (b / 8) / BLOCK_SIZE as int][(b / 8) % BLOCK_SIZE as int], b % 8)
}

/// A bit index splits uniquely into its block, its byte in the block, and
/// its position in the byte.
pub proof fn lemma_bit_index(blk: int, byi: int, m: int)
    requires
        0 <= blk,
        0 <= byi < BLOCK_SIZE,
        0 <= m < 8,
    ensures
        (blk * BLOCK_BITS + byi * 8 + m) / 8 == blk * BLOCK_SIZE + byi,
        (blk * BLOCK_BITS + byi * 8 + m) % 8 == m,
        ((blk * BLOCK_BITS + byi * 8 + m) / 8) / BLOCK_SIZE as int == blk,
        ((blk * BLOCK_BITS + byi * 8 + m) / 8) % BLOCK_SIZE as int == byi,
{
    let j = blk * BLOCK_BITS + byi * 8 + m;
    assert(blk * 4096 + byi * 8 + m == 8 * (blk * 512 + byi) + m) by (nonlinear_arith);
    assert(j == 8 * (blk * BLOCK_SIZE as int + byi) + m);
    lemma_fundamental_div_mod_converse(j, 8, blk * BLOCK_SIZE as int + byi, m);
    lemma_fundamental_div_mod_converse(
        blk * BLOCK_SIZE as int + byi,
        BLOCK_SIZE as int,
        blk,
        byi,
    );
}

/// A byte whose eight bits are all set can only be `0xff`, so a byte that
/// differs from `0xff` always has a clear bit for the scan to find.
proof fn lemma_all_bits_set(byte: u8)
    requires
        byte & 1u8 != 0,
        byte & 2u8 != 0,
        byte & 4u8 != 0,
        byte & 8u8 != 0,
        byte & 16u8 != 0,
        byte & 32u8 != 0,
        byte & 64u8 != 0,
        byte & 128u8 != 0,
    ensures
        byte == 0xffu8,
{
    assert(byte & 1u8 != 0 && byte & 2u8 != 0 && byte & 4u8 != 0 && byte & 8u8 != 0 && byte
        & 16u8 != 0 && byte & 32u8 != 0 && byte & 64u8 != 0 && byte & 128u8 != 0 ==> byte
        == 0xffu8) by (bit_vector);
}

/// Shifting 1 left by `k < 8` singles out bit `k`.
proof fn lemma_shift_values(k: u8)
    requires
        k < 8,
    ensures
        k == 0 ==> (1u8 << k) == 1u8,
        k == 1 ==> (1u8 << k) == 2u8,
        k == 2 ==> (1u8 << k) == 4u8,
        k == 3 ==> (1u8 << k) == 8u8,
        k == 4 ==> (1u8 << k) == 16u8,
        k == 5 ==> (1u8 << k) == 32u8,
        k == 6 ==> (1u8 << k) == 64u8,
        k == 7 ==> (1u8 << k) == 128u8,
{
    assert(k < 8 ==> ((k == 0 ==> (1u8 << k) == 1u8) && (k == 1 ==> (1u8 << k) == 2u8) && (k == 2
        ==> (1u8 << k) == 4u8) && (k == 3 ==> (1u8 << k) == 8u8) && (k == 4 ==> (1u8 << k)
        == 16u8) && (k == 5 ==> (1u8 << k) == 32u8) && (k == 6 ==> (1u8 << k) == 64u8) && (k == 7
        ==> (1u8 << k) == 128u8))) by (bit_vector);
}

/// Setting bit `k` by an or sets exactly that bit and keeps every other.
proof fn lemma_or_bit(byte: u8, k: u8, m: u8)
    requires
        k < 8,
        m < 8,
    ensures
        (byte | (1u8 << k)) & (1u8 << k) != 0,
        m != k ==> ((byte | (1u8 << k)) & (1u8 << m)) == (byte & (1u8 << m)),
{
    assert(k < 8 ==> (byte | (1u8 << k)) & (1u8 << k) != 0) by (bit_vector);
    assert(k < 8 && m < 8 && m != k ==> ((byte | (1u8 << k)) & (1u8 << m)) == (byte & (1u8 << m)))
        by (bit_vector);
}

/// Clearing bit `k` by a masked and clears exactly that bit and keeps
/// every other.
proof fn lemma_clear_bit(byte: u8, k: u8, m: u8)
    requires
        k < 8,
        m < 8,
    ensures
        (byte & !(1u8 << k)) & (1u8 << k) == 0,
        m != k ==> ((byte & !(1u8 << k)) & (1u8 << m)) == (byte & (1u8 << m)),
{
    assert(k < 8 ==> (byte & !(1u8 << k)) & (1u8 << k) == 0) by (bit_vector);
    assert(k < 8 && m < 8 && m != k ==> ((byte & !(1u8 << k)) & (1u8 << m)) == (byte & (1u8 << m)))
        by (bit_vector);
}

/// Sequential allocations never hand out the same bit until a matching
/// deallocation: an allocation leaves its bit set, and a later allocation
/// from the resulting state returns a bit that was still clear then.
pub proof fn lemma_alloc_exclusive(
    disk0: Seq<Seq<u8>>,
    disk1: Seq<Seq<u8>>,
    start: int,
    max: int,
    b1: int,
    b2: int,
)
    requires
        0 <= b1 < max,
        0 <= b2 < max,
        !bitmap_bit(disk0, start, b1),
        forall|j: int|
            0 <= j < max ==> (bitmap_bit(disk1, start, j) <==> (j == b1 || bitmap_bit(
                disk0,
                start,
                j,
            ))),
        !bitmap_bit(disk1, start, b2),
    ensures
        b1 != b2,
{
    assert(bitmap_bit(disk1, start, b1));
}

/// A bit-per-unit allocator over the `blocks` blocks starting at
/// `start_block_id`. A set bit means in use; a bit keeps its index for the
/// unit's whole lifetime.
#[derive(Clone, Copy)]
pub struct Bitmap {
    /// First block of the bitmap region.
    pub start_block_id: usize,
    /// Length of the bitmap region in blocks.
    pub blocks: usize,
}

impl Bitmap {
    /// How many units the region can address.
    pub open spec fn maximum_spec(&self) -> int {
        self.blocks * BLOCK_BITS as int
    }

    /// The region lies inside a device of `n` blocks and its bit count
    /// fits the machine.
    pub open spec fn in_range(&self, n: int) -> bool {
        &&& self.start_block_id + self.blocks <= n
        &&& self.start_block_id + self.blocks <= usize::MAX
        &&& self.maximum_spec() <= usize::MAX
    }

    /// An allocator over `blocks` blocks starting at `start_block_id`.
    pub fn new(start_block_id: usize, blocks: usize) -> (r: Self)
        ensures
            r.start_block_id == start_block_id,
            r.blocks == blocks,
    {
        Bitmap { start_block_id, blocks }
    }

    /// Scan the region in block order, each block in byte order, each byte
    /// from its lowest bit, set the first clear bit found and return its
    /// index; report `CapacityExhausted` when every bit of the region is
    /// already set.
    #[verifier::loop_isolation(false)]
    pub fn alloc_bit<D: BlockDevice>(
        &self,
        cache: &mut BlockCacheManager,
        block_device: &mut D,
    ) -> (r: Result<usize, FsError>)
        requires
            old(cache).wf(),
            old(cache).all_free(),
            old(block_device).device_wf(),
            old(cache).ids_below(old(block_device).blocks().len() as int),
            old(cache).coherent(old(block_device).blocks()),
            self.in_range(old(block_device).blocks().len() as int),
        ensures
            final(cache).wf(),
            final(cache).all_free(),
            final(block_device).device_wf(),
            final(block_device).blocks().len() == old(block_device).blocks().len(),
            final(cache).ids_below(old(block_device).blocks().len() as int),
            final(cache).coherent(final(block_device).blocks()),
            match r {
                Ok(b) => {
                    &&& b < self.maximum_spec()
                    &&& !bitmap_bit(
                        vdisk(*old(cache), old(block_device).blocks()),
                        self.start_block_id as int,
                        b as int,
                    )
                    &&& forall|j: int|
                        0 <= j < b ==> bitmap_bit(
                            vdisk(*old(cache), old(block_device).blocks()),
                            self.start_block_id as int,
                            j,
                        )
                    &&& forall|j: int|
                        0 <= j < self.maximum_spec() ==> (bitmap_bit(
                            vdisk(*final(cache), final(block_device).blocks()),
                            self.start_block_id as int,
                            j,
                        ) <==> (j == b as int || bitmap_bit(
                            vdisk(*old(cache), old(block_device).blocks()),
                            self.start_block_id as int,
                            j,
                        )))
                    &&& forall|x: int|
                        0 <= x < old(block_device).blocks().len() && x != self.start_block_id + (b
                            as int / 8) / BLOCK_SIZE as int ==> vdisk(
                            *final(cache),
                            final(block_device).blocks(),
                        )[x] == vdisk(*old(cache), old(block_device).blocks())[x]
                },
                Err(e) => {
                    &&& e == FsError::CapacityExhausted
                    &&& vdisk(*final(cache), final(block_device).blocks()) == vdisk(
                        *old(cache),
                        old(block_device).blocks(),
                    )
                    &&& forall|j: int|
                        0 <= j < self.maximum_spec() ==> bitmap_bit(
                            vdisk(*old(cache), old(block_device).blocks()),
                            self.start_block_id as int,
                            j,
                        )
                },
            },
    {
        let ghost disk0 = vdisk(*old(cache), old(block_device).blocks());
        let ghost n = old(block_device).blocks().len() as int;
        let ghost start = self.start_block_id as int;
        proof {
            block_device.lemma_device_wf();
            crate::block_cache::lemma_vdisk_wf(*cache, block_device.blocks());
        }
        let mut blk: usize = 0;
        while blk < self.blocks
            invariant
                blk <= self.blocks,
                cache.wf(),
                cache.all_free(),
                block_device.device_wf(),
                block_device.blocks().len() == n,
                cache.ids_below(n),
                cache.coherent(block_device.blocks()),
                vdisk(*cache, block_device.blocks()) == disk0,
                forall|j: int| 0 <= j < blk * BLOCK_BITS ==> bitmap_bit(disk0, start, j),
            decreases self.blocks - blk,
        {
            let data = cache.cached_read(block_device, self.start_block_id + blk, 0, BLOCK_SIZE);
            proof {
                assert(data@ =~= disk0[start + blk]);
            }
            let mut byi: usize = 0;
            while byi < BLOCK_SIZE
                invariant
                    byi <= BLOCK_SIZE,
                    cache.wf(),
                    cache.all_free(),
                    block_device.device_wf(),
                    block_device.blocks().len() == n,
                    cache.ids_below(n),
                    cache.coherent(block_device.blocks()),
                    vdisk(*cache, block_device.blocks()) == disk0,
                    forall|j: int|
                        0 <= j < blk * BLOCK_BITS + byi * 8 ==> bitmap_bit(disk0, start, j),
                decreases BLOCK_SIZE - byi,
            {
                let byte = data[byi];
                if byte != 0xff {
                    let mut k: u8 = 0;
                    while k < 8
                        invariant
                            k <= 8,
                            cache.wf(),
                            cache.all_free(),
                            block_device.device_wf(),
                            block_device.blocks().len() == n,
                            cache.ids_below(n),
                            cache.coherent(block_device.blocks()),
                            vdisk(*cache, block_device.blocks()) == disk0,
                            forall|m: u8| m < k ==> #[trigger] (byte & (1u8 << m)) != 0,
                        decreases 8 - k,
                    {
                        if byte & (1u8 << k) == 0 {
                            proof {
                                assert((blk as int) * 4096 + (byi as int) * 8 + (k as int) < (
                                self.blocks as int) * 4096) by (nonlinear_arith)
                                    requires
                                        (blk as int) < (self.blocks as int),
                                        0 <= (byi as int) < 512,
                                        0 <= (k as int) < 8,
                                        0 <= (blk as int),
                                ;
                            }
                            let bit = blk * BLOCK_BITS + byi * 8 + k as usize;
                            let newbyte = byte | (1u8 << k);
                            let mut one: Vec<u8> = Vec::new();
                            one.push(newbyte);
                            cache.cached_write(
                                block_device,
                                self.start_block_id + blk,
                                byi,
                                &one,
                            );
                            proof {
                                assert(one@ =~= seq![(byte | (1u8 << k))]);
                                self.lemma_alloc_post(
                                    disk0,
                                    vdisk(*cache, block_device.blocks()),
                                    n,
                                    blk as int,
                                    byi as int,
                                    k,
                                    byte,
                                );
                                assert forall|j: int| 0 <= j < bit implies bitmap_bit(
                                    disk0,
                                    start,
                                    j,
                                ) by {
                                    if j >= blk * BLOCK_BITS + byi * 8 {
                                        let m = j - (blk * BLOCK_BITS + byi * 8);
                                        lemma_bit_index(blk as int, byi as int, m);
                                        assert(byte & (1u8 << (m as u8)) != 0);
                                    }
                                }
                            }
                            return Ok(bit);
                        }
                        k = k + 1;
                    }
                    proof {
                        lemma_shift_values(0);
                        lemma_shift_values(1);
                        lemma_shift_values(2);
                        lemma_shift_values(3);
                        lemma_shift_values(4);
                        lemma_shift_values(5);
                        lemma_shift_values(6);
                        lemma_shift_values(7);
                        assert(byte & (1u8 << 0u8) != 0);
                        assert(byte & (1u8 << 1u8) != 0);
                        assert(byte & (1u8 << 2u8) != 0);
                        assert(byte & (1u8 << 3u8) != 0);
                        assert(byte & (1u8 << 4u8) != 0);
                        assert(byte & (1u8 << 5u8) != 0);
                        assert(byte & (1u8 << 6u8) != 0);
                        assert(byte & (1u8 << 7u8) != 0);
                        lemma_all_bits_set(byte);
                        assert(false);
                    }
                }
                proof {
                    assert forall|j: int|
                        0 <= j < blk * BLOCK_BITS + (byi + 1) * 8 implies bitmap_bit(
                        disk0,
                        start,
                        j,
                    ) by {
                        if j >= blk * BLOCK_BITS + byi * 8 {
                            let m = j - (blk * BLOCK_BITS + byi * 8);
                            lemma_bit_index(blk as int, byi as int, m);
                            assert(disk0[start + blk][byi as int] == 0xffu8);
                            let mu = m as u8;
                            assert(mu < 8 ==> 0xffu8 & (1u8 << mu) != 0) by (bit_vector);
                        }
                    }
                }
                byi = byi + 1;
            }
            blk = blk + 1;
        }
        proof {
            assert forall|j: int| 0 <= j < self.maximum_spec() implies bitmap_bit(
                disk0,
                start,
                j,
            ) by {
                assert(self.blocks * BLOCK_BITS as int == self.maximum_spec());
            }
        }
        Err(FsError::CapacityExhausted)
    }

    /// After setting bit `k` of byte `byi` of block `blk`, exactly the
    /// allocated bit changed, and only its bitmap block did.
    proof fn lemma_alloc_post(
        &self,
        disk0: Seq<Seq<u8>>,
        disk1: Seq<Seq<u8>>,
        n: int,
        blk: int,
        byi: int,
        k: u8,
        byte: u8,
    )
        requires
            self.in_range(n),
            disk0.len() == n,
            disk1.len() == n,
            forall|x: int| 0 <= x < n ==> (#[trigger] disk0[x]).len() == BLOCK_SIZE,
            0 <= blk < self.blocks,
            0 <= byi < BLOCK_SIZE,
            k < 8,
            byte == disk0[self.start_block_id + blk][byi],
            byte & (1u8 << k) == 0,
            disk1 == disk0.update(
                self.start_block_id + blk,
                crate::block_cache::splice_bytes(
                    disk0[self.start_block_id + blk],
                    byi,
                    seq![(byte | (1u8 << k))],
                ),
            ),
        ensures
            blk * BLOCK_BITS + byi * 8 + k < self.maximum_spec(),
            !bitmap_bit(disk0, self.start_block_id as int, blk * BLOCK_BITS + byi * 8 + k),
            forall|j: int|
                0 <= j < self.maximum_spec() ==> (bitmap_bit(disk1, self.start_block_id as int, j)
                    <==> (j == blk * BLOCK_BITS + byi * 8 + k as int || bitmap_bit(
                    disk0,
                    self.start_block_id as int,
                    j,
                ))),
            forall|x: int|
                0 <= x < n && x != self.start_block_id + blk ==> disk1[x] == disk0[x],
            (blk * BLOCK_BITS + byi * 8 + k as int) / 8 / BLOCK_SIZE as int == blk,
    {
        let b = blk * BLOCK_BITS as int + byi * 8 + k as int;
        let start = self.start_block_id as int;
        lemma_bit_index(blk, byi, k as int);
        assert(blk * 4096 + byi * 8 + (k as int) < (self.blocks as int) * 4096)
            by (nonlinear_arith)
            requires
                0 <= blk,
                blk < (self.blocks as int),
                0 <= byi < 512,
                (k as int) < 8,
        ;
        assert(b < self.maximum_spec());
        crate::block_cache::lemma_splice_frame(
            disk0[start + blk],
            byi,
            seq![(byte | (1u8 << k))],
        );
        assert(disk1[start + blk][byi] == (byte | (1u8 << k)));
        assert forall|j: int|
            0 <= j < self.maximum_spec() implies (bitmap_bit(disk1, start, j) <==> (j == b
            || bitmap_bit(disk0, start, j))) by {
            let bj = j / 8;
            let m = j % 8;
            lemma_fundamental_div_mod(j, 8);
            lemma_fundamental_div_mod(bj, BLOCK_SIZE as int);
            let xb = bj / BLOCK_SIZE as int;
            let byj = bj % BLOCK_SIZE as int;
            assert(8 * (self.blocks as int * BLOCK_SIZE as int) == self.blocks as int
                * BLOCK_BITS as int) by (nonlinear_arith);
            assert(bj < self.blocks * BLOCK_SIZE as int);
            assert(xb < self.blocks);
            assert(0 <= start + xb < n);
            if xb != blk {
                assert(disk1[start + xb] == disk0[start + xb]);
                assert(j != b);
            } else {
                if byj != byi {
                    assert(disk1[start + blk][byj] == disk0[start + blk][byj]);
                    assert(j != b);
                } else {
                    assert(j == 8 * (BLOCK_SIZE as int * blk + byi) + m);
                    if m == k as int {
                        assert(j == b);
                        lemma_or_bit(byte, k, k);
                    } else {
                        assert(j != b);
                        lemma_or_bit(byte, k, m as u8);
                    }
                }
            }
        }
    }

    /// Clear allocation bit `bit`. A bit that is already clear is a double
    /// free: the call fails with `InvariantViolation` and changes nothing.
    pub fn dealloc<D: BlockDevice>(
        &self,
        cache: &mut BlockCacheManager,
        block_device: &mut D,
        bit: usize,
    ) -> (r: Result<(), FsError>)
        requires
            old(cache).wf(),
            old(cache).all_free(),
            old(block_device).device_wf(),
            old(cache).ids_below(old(block_device).blocks().len() as int),
            old(cache).coherent(old(block_device).blocks()),
            self.in_range(old(block_device).blocks().len() as int),
            bit < self.maximum_spec(),
        ensures
            final(cache).wf(),
            final(cache).all_free(),
            final(block_device).device_wf(),
            final(block_device).blocks().len() == old(block_device).blocks().len(),
            final(cache).ids_below(old(block_device).blocks().len() as int),
            final(cache).coherent(final(block_device).blocks()),
            match r {
                Ok(_) => {
                    &&& bitmap_bit(
                        vdisk(*old(cache), old(block_device).blocks()),
                        self.start_block_id as int,
                        bit as int,
                    )
                    &&& forall|j: int|
                        0 <= j < self.maximum_spec() ==> (bitmap_bit(
                            vdisk(*final(cache), final(block_device).blocks()),
                            self.start_block_id as int,
                            j,
                        ) <==> (j != bit as int && bitmap_bit(
                            vdisk(*old(cache), old(block_device).blocks()),
                            self.start_block_id as int,
                            j,
                        )))
                    &&& forall|x: int|
                        0 <= x < old(block_device).blocks().len() && x != self.start_block_id + (
                        bit as int / 8) / BLOCK_SIZE as int ==> vdisk(
                            *final(cache),
                            final(block_device).blocks(),
                        )[x] == vdisk(*old(cache), old(block_device).blocks())[x]
                },
                Err(e) => {
                    &&& e == FsError::InvariantViolation
                    &&& !bitmap_bit(
                        vdisk(*old(cache), old(block_device).blocks()),
                        self.start_block_id as int,
                        bit as int,
                    )
                    &&& vdisk(*final(cache), final(block_device).blocks()) == vdisk(
                        *old(cache),
                        old(block_device).blocks(),
                    )
                },
            },
    {
        let ghost disk0 = vdisk(*old(cache), old(block_device).blocks());
        let ghost n = old(block_device).blocks().len() as int;
        let ghost start = self.start_block_id as int;
        proof {
            block_device.lemma_device_wf();
            crate::block_cache::lemma_vdisk_wf(*cache, block_device.blocks());
            lemma_fundamental_div_mod(bit as int, 8);
            lemma_fundamental_div_mod(bit as int / 8, BLOCK_SIZE as int);
            assert(8 * (self.blocks as int * BLOCK_SIZE as int) == self.blocks as int
                * BLOCK_BITS as int) by (nonlinear_arith);
        }
        let byte_idx = bit / 8;
        let blk = byte_idx / BLOCK_SIZE;
        let byi = byte_idx % BLOCK_SIZE;
        let k = (bit % 8) as u8;
        let data = cache.cached_read(block_device, self.start_block_id + blk, byi, 1);
        let byte = data[0];
        if byte & (1u8 << k) == 0 {
            return Err(FsError::InvariantViolation);
        }
        let newbyte = byte & !(1u8 << k);
        let mut one: Vec<u8> = Vec::new();
        one.push(newbyte);
        cache.cached_write(block_device, self.start_block_id + blk, byi, &one);
        proof {
            assert(one@ =~= seq![newbyte]);
            let disk1 = vdisk(*cache, block_device.blocks());
            crate::block_cache::lemma_splice_frame(disk0[start + blk], byi as int, one@);
            assert forall|j: int|
                0 <= j < self.maximum_spec() implies (bitmap_bit(disk1, start, j) <==> (j != bit
                as int && bitmap_bit(disk0, start, j))) by {
                let bj = j / 8;
                let m = j % 8;
                lemma_fundamental_div_mod(j, 8);
                lemma_fundamental_div_mod(bj, BLOCK_SIZE as int);
                let xb = bj / BLOCK_SIZE as int;
                let byj = bj % BLOCK_SIZE as int;
                assert(bj < self.blocks * BLOCK_SIZE as int);
                assert(xb < self.blocks);
                if xb != blk as int {
                    assert(disk1[start + xb] == disk0[start + xb]);
                    assert(j != bit as int);
                } else {
                    if byj != byi as int {
                        assert(disk1[start + blk][byj] == disk0[start + blk][byj]);
                        assert(j != bit as int);
                    } else {
                        assert(disk1[start + blk][byi as int] == newbyte);
                        if m == k as int {
                            assert(j == bit as int);
                            lemma_clear_bit(byte, k, k);
                        } else {
                            assert(j != bit as int);
                            lemma_clear_bit(byte, k, m as u8);
                        }
                    }
                }
            }
        }
        Ok(())
    }

    /// Total addressable units: region blocks times bits per block.
    pub fn maximum(&self) -> (r: usize)
        requires
            self.maximum_spec() <= usize::MAX,
        ensures
            r == self.maximum_spec(),
    {
        proof {
            assert(self.blocks * BLOCK_BITS as int == self.maximum_spec());
        }
        self.blocks * BLOCK_BITS
    }
}

} // verus!
