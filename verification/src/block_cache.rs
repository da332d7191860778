//! The in-memory caching layer: one buffered copy of one block with a dirty
//! flag, and a bounded pool of such buffers keyed by block id with a
//! liveness-gated first-in-first-out eviction policy.
//!
//! The pool together with the device presents a *virtual disk* ([`vdisk`]):
//! the device contents overlaid with every resident buffer. Every layer
//! above states its effect over that virtual disk; write-back ([`BlockCache::sync`],
//! eviction, [`BlockCacheManager::sync_all`]) moves content from the overlay
//! to the device without ever changing the virtual disk.
use vstd::prelude::*;

use crate::block_dev::BlockDevice;
use crate::{FsError, BLOCK_CACHE_SIZE, BLOCK_SIZE};

verus! {

/// `block` with the range starting at `offset` replaced by `data`.
pub open spec fn splice_bytes(block: Seq<u8>, offset: int, data: Seq<u8>) -> Seq<u8> {
    block.subrange(0, offset) + data + block.subrange(offset + data.len(), block.len() as int)
}

/// A splice keeps the length, replaces exactly the spliced range, and
/// leaves every byte outside it unchanged.
pub proof fn lemma_splice_frame(block: Seq<u8>, offset: int, data: Seq<u8>)
    requires
        0 <= offset,
        offset + data.len() <= block.len(),
    ensures
        splice_bytes(block, offset, data).len() == block.len(),
        forall|i: int|
            0 <= i < block.len() && !(offset <= i < offset + data.len())
                ==> #[trigger] splice_bytes(block, offset, data)[i] == block[i],
        forall|i: int|
            0 <= i < data.len() ==> #[trigger] splice_bytes(block, offset, data)[offset + i]
                == data[i],
{
}

/// One in-memory copy of one block. `modified` is true exactly when the
/// buffer differs from what the device currently persists.
pub struct BlockCache {
    /// The block this buffer mirrors.
    pub block_id: usize,
    /// The buffered content, always `BLOCK_SIZE` bytes.
    pub cache: Vec<u8>,
    /// Whether the buffer holds changes not yet written back.
    pub modified: bool,
}

impl BlockCache {
    /// The buffer always holds exactly one block.
    pub open spec fn wf(&self) -> bool {
        self.cache@.len() == BLOCK_SIZE
    }

    /// Eagerly fetch the block's content on construction.
    pub fn new<D: BlockDevice>(block_id: usize, block_device: &D) -> (r: Self)
        requires
            block_device.device_wf(),
            block_id < block_device.blocks().len(),
        ensures
            r.wf(),
            r.block_id == block_id,
            !r.modified,
            r.cache@ == block_device.blocks()[block_id as int],
    {
        let mut cache: Vec<u8> = Vec::new();
        block_device.read_block(block_id, &mut cache);
        proof {
            block_device.lemma_device_wf();
        }
        BlockCache { block_id, cache, modified: false }
    }

    /// Copy `len` bytes out of the buffer starting at `offset`, without
    /// marking the block dirty.
    pub fn read(&self, offset: usize, len: usize) -> (r: Vec<u8>)
        requires
            self.wf(),
            offset + len <= BLOCK_SIZE,
        ensures
            r@ == self.cache@.subrange(offset as int, offset + len),
    {
        let mut r: Vec<u8> = Vec::new();
        let mut j: usize = 0;
        while j < len
            invariant
                j <= len,
                offset + len <= BLOCK_SIZE,
                offset + len <= self.cache@.len(),
                r@ == self.cache@.subrange(offset as int, offset + j),
            decreases len - j,
        {
            r.push(self.cache[offset + j]);
            proof {
                assert(r@ =~= self.cache@.subrange(offset as int, offset + j + 1));
            }
            j = j + 1;
        }
        r
    }

    /// Overwrite the buffer starting at `offset` with `data` and mark the
    /// block dirty.
    pub fn modify(&mut self, offset: usize, data: &Vec<u8>)
        requires
            old(self).wf(),
            offset + data@.len() <= BLOCK_SIZE,
        ensures
            final(self).wf(),
            final(self).block_id == old(self).block_id,
            final(self).modified,
            final(self).cache@ == splice_bytes(old(self).cache@, offset as int, data@),
    {
        let mut j: usize = 0;
        while j < data.len()
            invariant
                j <= data@.len(),
                offset + data@.len() <= BLOCK_SIZE,
                self.wf(),
                self.block_id == old(self).block_id,
                self.modified == old(self).modified,
                self.cache@.len() == old(self).cache@.len(),
                forall|k: int|
                    0 <= k < self.cache@.len() && !(offset <= k < offset + j)
                        ==> self.cache@[k] == old(self).cache@[k],
                forall|k: int| 0 <= k < j ==> self.cache@[offset + k] == data@[k],
            decreases data@.len() - j,
        {
            self.cache[offset + j] = data[j];
            j = j + 1;
        }
        self.modified = true;
        proof {
            assert(self.cache@ =~= splice_bytes(old(self).cache@, offset as int, data@));
        }
    }

    /// Write the buffer back through the device if and only if it is dirty,
    /// then clear the flag. Idempotent.
    pub fn sync<D: BlockDevice>(&mut self, device: &mut D)
        requires
            old(self).wf(),
            old(device).device_wf(),
            old(self).block_id < old(device).blocks().len(),
        ensures
            final(self).wf(),
            final(self).block_id == old(self).block_id,
            final(self).cache@ == old(self).cache@,
            !final(self).modified,
            final(device).device_wf(),
            final(device).blocks() == if old(self).modified {
                old(device).blocks().update(old(self).block_id as int, old(self).cache@)
            } else {
                old(device).blocks()
            },
    {
        if self.modified {
            device.write_block(self.block_id, &self.cache);
            self.modified = false;
        }
    }
}

/// One pool slot: a buffered block, and how many callers currently hold a
/// handle on it. The open-handle count stands in for shared-ownership
/// counting: a slot is eviction-eligible exactly when its count is zero.
pub struct CacheEntry {
    /// The id this slot buffers; mirrors `cache.block_id`.
    pub block_id: usize,
    /// The buffered block.
    pub cache: BlockCache,
    /// How many checked-out handles are outstanding on this slot.
    pub handles: usize,
}

/// A bounded pool of block buffers in arrival order, at most one per block
/// id. Eviction scans in arrival order for the first slot no caller holds:
/// a liveness-gated first-in-first-out policy, not least-recently-used.
pub struct BlockCacheManager {
    /// The resident slots, oldest arrival first.
    pub entries: Vec<CacheEntry>,
}

impl BlockCacheManager {
    /// How many blocks are resident.
    pub open spec fn count(&self) -> int {
        self.entries@.len() as int
    }

    /// Structural invariant: the pool is bounded, buffers are well formed
    /// and keyed consistently, and no block is resident twice.
    pub open spec fn wf(&self) -> bool {
        &&& self.entries@.len() <= BLOCK_CACHE_SIZE
        &&& forall|i: int|
            0 <= i < self.entries@.len() ==> (#[trigger] self.entries@[i]).cache.wf()
                && self.entries@[i].cache.block_id == self.entries@[i].block_id
        &&& forall|i: int, j: int|
            0 <= i < j < self.entries@.len()
                ==> (#[trigger] self.entries@[i]).block_id != (#[trigger] self.entries@[j]).block_id
    }

    /// Whether block `id` currently has a resident buffer.
    pub open spec fn resident(&self, id: int) -> bool {
        exists|i: int|
            0 <= i < self.entries@.len() && (#[trigger] self.entries@[i]).block_id as int == id
    }

    /// The slot index of resident block `id`.
    pub open spec fn idx_of(&self, id: int) -> int {
        choose|i: int|
            0 <= i < self.entries@.len() && (#[trigger] self.entries@[i]).block_id as int == id
    }

    /// The buffered content of resident block `id`.
    pub open spec fn data_at(&self, id: int) -> Seq<u8> {
        self.entries@[self.idx_of(id)].cache.cache@
    }

    /// Whether resident block `id` holds changes not yet written back.
    pub open spec fn dirty_at(&self, id: int) -> bool {
        self.entries@[self.idx_of(id)].cache.modified
    }

    /// How many handles are outstanding on resident block `id`.
    pub open spec fn handles_at(&self, id: int) -> int {
        self.entries@[self.idx_of(id)].handles as int
    }

    /// No caller holds any handle.
    pub open spec fn all_free(&self) -> bool {
        forall|id: int| #[trigger] self.resident(id) ==> self.handles_at(id) == 0
    }

    /// Some resident block has no outstanding handle, so the pool can make
    /// room.
    pub open spec fn has_evictable(&self) -> bool {
        exists|id: int| #[trigger] self.resident(id) && self.handles_at(id) == 0
    }

    /// Every resident id addresses one of the first `n` device blocks.
    pub open spec fn ids_below(&self, n: int) -> bool {
        forall|id: int| #[trigger] self.resident(id) ==> 0 <= id < n
    }

    /// Every clean buffer agrees with the device: the dirty flag is the
    /// exact record of divergence.
    pub open spec fn coherent(&self, dev: Seq<Seq<u8>>) -> bool {
        forall|id: int|
            #[trigger] self.resident(id) && !self.dirty_at(id) ==> self.data_at(id) == dev[id]
    }

    /// An empty pool.
    pub fn new() -> (r: Self)
        ensures
            r.wf(),
            r.count() == 0,
            r.all_free(),
            forall|id: int| !r.resident(id),
    {
        let r = BlockCacheManager { entries: Vec::new() };
        proof {
            assert(forall|id: int| !r.resident(id));
        }
        r
    }
}

impl BlockCacheManager {
    /// Scan the pool in arrival order for the slot buffering `block_id`.
    fn find_entry(&self, block_id: usize) -> (r: Option<usize>)
        requires
            self.wf(),
        ensures
            match r {
                Some(i) => i < self.entries@.len() && self.entries@[i as int].block_id == block_id
                    && self.resident(block_id as int) && self.idx_of(block_id as int) == i,
                None => !self.resident(block_id as int),
            },
    {
        let mut i: usize = 0;
        while i < self.entries.len()
            invariant
                self.wf(),
                i <= self.entries@.len(),
                forall|k: int| 0 <= k < i ==> (#[trigger] self.entries@[k]).block_id != block_id,
            decreases self.entries@.len() - i,
        {
            if self.entries[i].block_id == block_id {
                proof {
                    lemma_idx_at(self, i as int);
                }
                return Some(i);
            }
            i = i + 1;
        }
        None
    }

    /// Scan the pool in arrival order for the first slot no caller holds.
    fn find_evictable(&self) -> (r: Option<usize>)
        requires
            self.wf(),
        ensures
            match r {
                Some(j) => j < self.entries@.len() && self.entries@[j as int].handles == 0
                    && (forall|k: int| 0 <= k < j ==> (#[trigger] self.entries@[k]).handles > 0),
                None => !self.has_evictable(),
            },
    {
        let mut j: usize = 0;
        while j < self.entries.len()
            invariant
                self.wf(),
                j <= self.entries@.len(),
                forall|k: int| 0 <= k < j ==> (#[trigger] self.entries@[k]).handles > 0,
            decreases self.entries@.len() - j,
        {
            if self.entries[j].handles == 0 {
                return Some(j);
            }
            j = j + 1;
        }
        proof {
            if self.has_evictable() {
                let id = choose|id: int| #[trigger]
                    self.resident(id) && self.handles_at(id) == 0;
                let k = self.idx_of(id);
                assert(0 <= k < self.entries@.len() && self.entries@[k].block_id as int == id);
            }
        }
        None
    }

    /// Obtain a handle on `block_id`, sharing the resident buffer if there
    /// is one, fetching the block otherwise, and evicting the oldest
    /// unheld slot first when the pool is full. Eviction writes the victim
    /// back, so the virtual disk never changes. Fails with
    /// `CapacityExhausted` exactly when the pool is full of held slots and
    /// the block is not among them.
    pub fn get_block_cache<D: BlockDevice>(&mut self, block_id: usize, device: &mut D) -> (r:
        Result<(), FsError>)
        requires
            old(self).wf(),
            old(device).device_wf(),
            block_id < old(device).blocks().len(),
            old(self).ids_below(old(device).blocks().len() as int),
            old(self).coherent(old(device).blocks()),
            old(self).resident(block_id as int) ==> old(self).handles_at(block_id as int)
                < usize::MAX,
        ensures
            final(self).wf(),
            final(device).device_wf(),
            final(device).blocks().len() == old(device).blocks().len(),
            final(self).ids_below(old(device).blocks().len() as int),
            final(self).coherent(final(device).blocks()),
            vdisk(*final(self), final(device).blocks()) == vdisk(
                *old(self),
                old(device).blocks(),
            ),
            r is Err <==> !old(self).resident(block_id as int) && old(self).count()
                == BLOCK_CACHE_SIZE && !old(self).has_evictable(),
            r is Err ==> r == Err::<(), FsError>(FsError::CapacityExhausted) && *final(self)
                == *old(self) && *final(device) == *old(device),
            r is Ok ==> final(self).resident(block_id as int)
                && final(self).data_at(block_id as int)
                    == vdisk(*old(self), old(device).blocks())[block_id as int]
                && final(self).handles_at(block_id as int)
                    == if old(self).resident(block_id as int) {
                        old(self).handles_at(block_id as int) + 1
                    } else {
                        1
                    },
            forall|x: int|
                x != block_id as int && #[trigger] final(self).resident(x)
                    ==> old(self).resident(x)
                        && final(self).data_at(x) == old(self).data_at(x)
                        && final(self).handles_at(x) == old(self).handles_at(x)
                        && final(self).dirty_at(x) == old(self).dirty_at(x),
            forall|x: int|
                #[trigger] old(self).resident(x) && old(self).handles_at(x) > 0
                    ==> final(self).resident(x),
    {
        let ghost m0 = *old(self);
        let ghost dev0 = old(device).blocks();
        match self.find_entry(block_id) {
            Some(i) => {
                proof {
                    lemma_idx_at(&m0, i as int);
                }
                let e = &mut self.entries[i];
                e.handles = e.handles + 1;
                proof {
                    lemma_update_entry(m0, *self, i as int, self.entries@[i as int]);
                    lemma_vdisk_same(m0, *self, dev0);
                }
                Ok(())
            },
            None => {
                if self.entries.len() == BLOCK_CACHE_SIZE {
                    match self.find_evictable() {
                        Some(j) => {
                            let ghost vid = m0.entries@[j as int].block_id as int;
                            proof {
                                lemma_idx_at(&m0, j as int);
                            }
                            let mut victim = self.entries.remove(j);
                            proof {
                                lemma_remove_entry(m0, *self, j as int);
                            }
                            victim.cache.sync(device);
                            proof {
                                assert(vdisk(*self, device.blocks()) =~= vdisk(m0, dev0)) by {
                                    assert forall|b: int| 0 <= b < dev0.len() implies vdisk(
                                        *self,
                                        device.blocks(),
                                    )[b] == vdisk(m0, dev0)[b] by {
                                        if b == vid {
                                            assert(vdisk(m0, dev0)[b] == m0.data_at(vid));
                                        }
                                    }
                                }
                            }
                        },
                        None => {
                            return Err(FsError::CapacityExhausted);
                        },
                    }
                }
                let ghost m1 = *self;
                let ghost dev1 = device.blocks();
                let cache = BlockCache::new(block_id, device);
                let entry = CacheEntry { block_id, cache, handles: 1 };
                let ghost e = entry;
                self.entries.push(entry);
                proof {
                    lemma_push_entry(m1, *self, e);
                    assert(vdisk(*self, device.blocks()) =~= vdisk(m1, dev1));
                }
                Ok(())
            },
        }
    }

    /// Give a handle back. The buffer stays resident; a slot whose count
    /// reaches zero merely becomes eligible for eviction.
    pub fn release_block_cache(&mut self, block_id: usize)
        requires
            old(self).wf(),
            old(self).resident(block_id as int),
            old(self).handles_at(block_id as int) > 0,
        ensures
            final(self).wf(),
            final(self).count() == old(self).count(),
            forall|x: int| final(self).resident(x) <==> old(self).resident(x),
            final(self).handles_at(block_id as int) == old(self).handles_at(block_id as int) - 1,
            forall|x: int|
                #[trigger] old(self).resident(x) && x != block_id as int ==> final(self).data_at(x)
                    == old(self).data_at(x) && final(self).dirty_at(x) == old(self).dirty_at(x)
                    && final(self).handles_at(x) == old(self).handles_at(x),
            final(self).data_at(block_id as int) == old(self).data_at(block_id as int),
            final(self).dirty_at(block_id as int) == old(self).dirty_at(block_id as int),
            forall|dev: Seq<Seq<u8>>| vdisk(*final(self), dev) == vdisk(*old(self), dev),
            forall|dev: Seq<Seq<u8>>|
                #[trigger] old(self).coherent(dev) ==> final(self).coherent(dev),
            forall|n: int| #[trigger] old(self).ids_below(n) ==> final(self).ids_below(n),
    {
        let ghost m0 = *old(self);
        let i = match self.find_entry(block_id) {
            Some(i) => i,
            None => {
                proof {
                    assert(false);
                }
                vstd::pervasive::unreached()
            },
        };
        let e = &mut self.entries[i];
        e.handles = e.handles - 1;
        proof {
            lemma_update_entry(m0, *self, i as int, self.entries@[i as int]);
            assert forall|dev: Seq<Seq<u8>>| vdisk(*self, dev) == vdisk(m0, dev) by {
                lemma_vdisk_same(m0, *self, dev);
            }
        }
    }

    /// Copy bytes out of the resident buffer of `block_id`, without marking
    /// it dirty.
    pub fn read(&self, block_id: usize, offset: usize, len: usize) -> (r: Vec<u8>)
        requires
            self.wf(),
            self.resident(block_id as int),
            offset + len <= BLOCK_SIZE,
        ensures
            r@ == self.data_at(block_id as int).subrange(offset as int, offset + len),
    {
        let i = match self.find_entry(block_id) {
            Some(i) => i,
            None => {
                proof {
                    assert(false);
                }
                vstd::pervasive::unreached()
            },
        };
        self.entries[i].cache.read(offset, len)
    }

    /// Overwrite bytes of the resident buffer of `block_id` and mark it
    /// dirty. Every handle on this block observes the change: there is one
    /// buffer per block id, never divergent copies.
    pub fn modify(&mut self, block_id: usize, offset: usize, data: &Vec<u8>)
        requires
            old(self).wf(),
            old(self).resident(block_id as int),
            offset + data@.len() <= BLOCK_SIZE,
        ensures
            final(self).wf(),
            final(self).count() == old(self).count(),
            forall|x: int| final(self).resident(x) <==> old(self).resident(x),
            final(self).data_at(block_id as int) == splice_bytes(
                old(self).data_at(block_id as int),
                offset as int,
                data@,
            ),
            final(self).dirty_at(block_id as int),
            final(self).handles_at(block_id as int) == old(self).handles_at(block_id as int),
            forall|x: int|
                #[trigger] old(self).resident(x) && x != block_id as int ==> final(self).data_at(x)
                    == old(self).data_at(x) && final(self).dirty_at(x) == old(self).dirty_at(x)
                    && final(self).handles_at(x) == old(self).handles_at(x),
            forall|dev: Seq<Seq<u8>>|
                (block_id as int) < dev.len() ==> #[trigger] vdisk(*final(self), dev) == vdisk(
                    *old(self),
                    dev,
                ).update(
                    block_id as int,
                    splice_bytes(old(self).data_at(block_id as int), offset as int, data@),
                ),
            forall|dev: Seq<Seq<u8>>|
                #[trigger] old(self).coherent(dev) ==> final(self).coherent(dev),
            forall|n: int| #[trigger] old(self).ids_below(n) ==> final(self).ids_below(n),
    {
        let ghost m0 = *old(self);
        let i = match self.find_entry(block_id) {
            Some(i) => i,
            None => {
                proof {
                    assert(false);
                }
                vstd::pervasive::unreached()
            },
        };
        let e = &mut self.entries[i];
        e.cache.modify(offset, data);
        proof {
            lemma_update_entry(m0, *self, i as int, self.entries@[i as int]);
            assert forall|dev: Seq<Seq<u8>>| (block_id as int) < dev.len() implies #[trigger] vdisk(
                *self,
                dev,
            ) == vdisk(m0, dev).update(
                block_id as int,
                splice_bytes(m0.data_at(block_id as int), offset as int, data@),
            ) by {
                assert(vdisk(*self, dev) =~= vdisk(m0, dev).update(
                    block_id as int,
                    splice_bytes(m0.data_at(block_id as int), offset as int, data@),
                ));
            }
        }
    }
    /// Write every dirty buffer back, oldest arrival first. Afterwards the
    /// device persists exactly the virtual disk.
    pub fn sync_all<D: BlockDevice>(&mut self, device: &mut D)
        requires
            old(self).wf(),
            old(device).device_wf(),
            old(self).ids_below(old(device).blocks().len() as int),
            old(self).coherent(old(device).blocks()),
        ensures
            final(self).wf(),
            final(device).device_wf(),
            final(device).blocks().len() == old(device).blocks().len(),
            final(self).ids_below(old(device).blocks().len() as int),
            final(self).coherent(final(device).blocks()),
            final(device).blocks() == vdisk(*old(self), old(device).blocks()),
            vdisk(*final(self), final(device).blocks()) == vdisk(*old(self), old(device).blocks()),
            final(self).count() == old(self).count(),
            forall|x: int| final(self).resident(x) <==> old(self).resident(x),
            forall|x: int|
                #[trigger] old(self).resident(x) ==> final(self).data_at(x) == old(self).data_at(x)
                    && final(self).handles_at(x) == old(self).handles_at(x),
    {
        let ghost m0 = *old(self);
        let ghost dev0 = old(device).blocks();
        proof {
            assert forall|k: int| 0 <= k < self.entries@.len() implies ((
            #[trigger] self.entries@[k]).block_id as int) < dev0.len() by {
                lemma_idx_at(self, k);
            }
        }
        let mut i: usize = 0;
        while i < self.entries.len()
            invariant
                self.wf(),
                device.device_wf(),
                device.blocks().len() == dev0.len(),
                self.entries@.len() == m0.entries@.len(),
                i <= self.entries@.len(),
                m0.wf(),
                forall|k: int|
                    0 <= k < self.entries@.len() ==> (#[trigger] self.entries@[k]).block_id
                        == m0.entries@[k].block_id && self.entries@[k].cache.cache@
                        == m0.entries@[k].cache.cache@ && self.entries@[k].handles
                        == m0.entries@[k].handles,
                forall|k: int|
                    0 <= k < self.entries@.len() ==> ((#[trigger] self.entries@[k]).block_id as int)
                        < dev0.len(),
                forall|k: int| 0 <= k < i ==> !(#[trigger] self.entries@[k]).cache.modified,
                forall|k: int|
                    0 <= k < i ==> device.blocks()[(#[trigger] self.entries@[k]).block_id as int]
                        == self.entries@[k].cache.cache@,
                vdisk(*self, device.blocks()) == vdisk(m0, dev0),
                self.coherent(device.blocks()),
            decreases self.entries@.len() - i,
        {
            let ghost mprev = *self;
            let ghost devprev = device.blocks();
            proof {
                lemma_idx_at(&mprev, i as int);
            }
            let e = &mut self.entries[i];
            e.cache.sync(device);
            proof {
                let ghost id_i = mprev.entries@[i as int].block_id as int;
                lemma_update_entry(mprev, *self, i as int, self.entries@[i as int]);
                if mprev.entries@[i as int].cache.modified {
                    lemma_vdisk_dev_update(
                        mprev,
                        devprev,
                        id_i,
                        mprev.entries@[i as int].cache.cache@,
                    );
                }
                lemma_vdisk_same(mprev, *self, device.blocks());
                assert forall|k: int|
                    0 <= k < i + 1 implies device.blocks()[(
                #[trigger] self.entries@[k]).block_id as int] == self.entries@[k].cache.cache@ by {
                    if k < i as int {
                        assert(self.entries@[k].block_id != mprev.entries@[i as int].block_id);
                    } else {
                        if !mprev.entries@[i as int].cache.modified {
                            assert(mprev.resident(id_i) && !mprev.dirty_at(id_i));
                            assert(mprev.data_at(id_i) == devprev[id_i]);
                        }
                    }
                }
                assert forall|x: int| #[trigger]
                    self.resident(x) && !self.dirty_at(x) implies self.data_at(x)
                    == device.blocks()[x] by {
                    let k = self.idx_of(x);
                    lemma_idx_at(self, k);
                    lemma_idx_at(&mprev, k);
                    if k != i as int {
                        assert(mprev.resident(x) && !mprev.dirty_at(x));
                        assert(x != id_i);
                    }
                }
            }
            i = i + 1;
        }
        proof {
            assert forall|x: int| m0.resident(x) implies self.resident(x) && self.data_at(x)
                == m0.data_at(x) && self.handles_at(x) == m0.handles_at(x) by {
                let k = m0.idx_of(x);
                lemma_idx_at(&m0, k);
                lemma_idx_at(self, k);
            }
            assert forall|x: int| self.resident(x) implies m0.resident(x) by {
                let k = self.idx_of(x);
                lemma_idx_at(self, k);
                lemma_idx_at(&m0, k);
            }
            assert(device.blocks() =~= vdisk(m0, dev0)) by {
                assert forall|b: int| 0 <= b < dev0.len() implies device.blocks()[b] == vdisk(
                    m0,
                    dev0,
                )[b] by {
                    assert(vdisk(*self, device.blocks())[b] == vdisk(m0, dev0)[b]);
                    if self.resident(b) {
                        let k = self.idx_of(b);
                        lemma_idx_at(self, k);
                        lemma_idx_at(&m0, k);
                    }
                }
            }
        }
    }

    /// Fetch-and-copy in one step: obtain the block, copy bytes out of it,
    /// give the handle back. With no handle outstanding this always
    /// succeeds, and the bytes come from the virtual disk.
    pub fn cached_read<D: BlockDevice>(
        &mut self,
        device: &mut D,
        block_id: usize,
        offset: usize,
        len: usize,
    ) -> (r: Vec<u8>)
        requires
            old(self).wf(),
            old(self).all_free(),
            old(device).device_wf(),
            old(self).ids_below(old(device).blocks().len() as int),
            old(self).coherent(old(device).blocks()),
            block_id < old(device).blocks().len(),
            offset + len <= BLOCK_SIZE,
        ensures
            final(self).wf(),
            final(self).all_free(),
            final(device).device_wf(),
            final(device).blocks().len() == old(device).blocks().len(),
            final(self).ids_below(old(device).blocks().len() as int),
            final(self).coherent(final(device).blocks()),
            vdisk(*final(self), final(device).blocks()) == vdisk(*old(self), old(device).blocks()),
            r@ == vdisk(*old(self), old(device).blocks())[block_id as int].subrange(
                offset as int,
                offset + len,
            ),
    {
        let ghost m0 = *old(self);
        let ghost dev0 = old(device).blocks();
        proof {
            if m0.count() == BLOCK_CACHE_SIZE {
                lemma_idx_at(&m0, 0);
            }
        }
        match self.get_block_cache(block_id, device) {
            Ok(_) => {},
            Err(_) => {
                proof {
                    assert(false);
                }
            },
        }
        let r = self.read(block_id, offset, len);
        self.release_block_cache(block_id);
        proof {
            assert(final(self).all_free()) by {
                assert forall|x: int| #[trigger] self.resident(x) implies self.handles_at(x)
                    == 0 by {
                    if x != block_id as int {
                        assert(m0.resident(x));
                    }
                }
            }
        }
        r
    }

    /// Fetch-and-overwrite in one step: obtain the block, splice `data`
    /// into it at `offset`, give the handle back. The virtual disk changes
    /// in exactly that one block.
    pub fn cached_write<D: BlockDevice>(
        &mut self,
        device: &mut D,
        block_id: usize,
        offset: usize,
        data: &Vec<u8>,
    )
        requires
            old(self).wf(),
            old(self).all_free(),
            old(device).device_wf(),
            old(self).ids_below(old(device).blocks().len() as int),
            old(self).coherent(old(device).blocks()),
            block_id < old(device).blocks().len(),
            offset + data@.len() <= BLOCK_SIZE,
        ensures
            final(self).wf(),
            final(self).all_free(),
            final(device).device_wf(),
            final(device).blocks().len() == old(device).blocks().len(),
            final(self).ids_below(old(device).blocks().len() as int),
            final(self).coherent(final(device).blocks()),
            vdisk(*final(self), final(device).blocks()) == vdisk(
                *old(self),
                old(device).blocks(),
            ).update(
                block_id as int,
                splice_bytes(
                    vdisk(*old(self), old(device).blocks())[block_id as int],
                    offset as int,
                    data@,
                ),
            ),
    {
        let ghost m0 = *old(self);
        let ghost dev0 = old(device).blocks();
        proof {
            if m0.count() == BLOCK_CACHE_SIZE {
                lemma_idx_at(&m0, 0);
            }
        }
        match self.get_block_cache(block_id, device) {
            Ok(_) => {},
            Err(_) => {
                proof {
                    assert(false);
                }
            },
        }
        let ghost m1 = *self;
        let ghost dev1 = device.blocks();
        self.modify(block_id, offset, data);
        let ghost m2 = *self;
        self.release_block_cache(block_id);
        proof {
            assert(vdisk(m1, dev1) == vdisk(m0, dev0));
            assert(vdisk(m2, dev1) == vdisk(m1, dev1).update(
                block_id as int,
                splice_bytes(m1.data_at(block_id as int), offset as int, data@),
            ));
            assert(m1.data_at(block_id as int) == vdisk(m0, dev0)[block_id as int]);
            assert(vdisk(*self, device.blocks()) == vdisk(m2, dev1));
            assert(final(self).all_free()) by {
                assert forall|x: int| #[trigger] self.resident(x) implies self.handles_at(x)
                    == 0 by {
                    if x != block_id as int {
                        assert(m2.resident(x));
                        assert(m1.resident(x));
                        assert(m0.resident(x));
                    }
                }
            }
        }
    }
}

/// Cache coherence: every handle on one block id shares the single
/// resident buffer, so what `modify` splices in through one handle is
/// exactly what a `read` of the same range through any other handle
/// returns — there are never divergent copies.
pub proof fn lemma_cache_coherence(
    m1: BlockCacheManager,
    m2: BlockCacheManager,
    id: int,
    offset: int,
    data: Seq<u8>,
    r: Seq<u8>,
)
    requires
        m1.resident(id),
        0 <= offset,
        offset + data.len() <= m1.data_at(id).len(),
        m2.data_at(id) == splice_bytes(m1.data_at(id), offset, data),
        r == m2.data_at(id).subrange(offset, offset + data.len()),
    ensures
        r == data,
{
    lemma_splice_frame(m1.data_at(id), offset, data);
    assert(r =~= data);
}

/// Eviction correctness: obtaining a block never changes the virtual
/// disk, so when a resident block leaves the pool its last buffered
/// content — dirty writes included — is what the device itself then
/// holds, before the slot is ever reused.
pub proof fn lemma_eviction_writes_back(
    m0: BlockCacheManager,
    m1: BlockCacheManager,
    dev0: Seq<Seq<u8>>,
    dev1: Seq<Seq<u8>>,
    e: int,
)
    requires
        vdisk(m1, dev1) == vdisk(m0, dev0),
        dev1.len() == dev0.len(),
        0 <= e < dev0.len(),
        m0.resident(e),
        !m1.resident(e),
    ensures
        dev1[e] == m0.data_at(e),
{
    assert(vdisk(m1, dev1)[e] == dev1[e]);
    assert(vdisk(m0, dev0)[e] == m0.data_at(e));
}

/// The slot holding block `id` is the one `idx_of` picks, and it is unique;
/// conversely every slot is found under its own id.
pub proof fn lemma_idx_at(m: &BlockCacheManager, k: int)
    requires
        m.wf(),
        0 <= k < m.entries@.len(),
    ensures
        m.resident(m.entries@[k].block_id as int),
        m.idx_of(m.entries@[k].block_id as int) == k,
{
    let id = m.entries@[k].block_id as int;
    assert(m.resident(id));
    let j = m.idx_of(id);
    assert(0 <= j < m.entries@.len() && m.entries@[j].block_id as int == id);
    if j < k {
        assert(m.entries@[j].block_id != m.entries@[k].block_id);
    } else if k < j {
        assert(m.entries@[k].block_id != m.entries@[j].block_id);
    }
}

/// Replacing the slot at `i` by an entry for the same block id changes
/// nothing but that block's buffered content, dirty flag and handle count.
pub proof fn lemma_update_entry(m1: BlockCacheManager, m2: BlockCacheManager, i: int, e: CacheEntry)
    requires
        m1.wf(),
        0 <= i < m1.entries@.len(),
        e.block_id == m1.entries@[i].block_id,
        e.cache.block_id == e.block_id,
        e.cache.wf(),
        m2.entries@ == m1.entries@.update(i, e),
    ensures
        m2.wf(),
        m2.count() == m1.count(),
        forall|x: int| m2.resident(x) <==> m1.resident(x),
        m2.idx_of(e.block_id as int) == i,
        m2.data_at(e.block_id as int) == e.cache.cache@,
        m2.dirty_at(e.block_id as int) == e.cache.modified,
        m2.handles_at(e.block_id as int) == e.handles as int,
        forall|x: int|
            #[trigger] m1.resident(x) && x != e.block_id as int ==> m2.data_at(x) == m1.data_at(x)
                && m2.dirty_at(x) == m1.dirty_at(x) && m2.handles_at(x) == m1.handles_at(x),
{
    assert(forall|k: int|
        0 <= k < m2.entries@.len() ==> (#[trigger] m2.entries@[k]).block_id
            == m1.entries@[k].block_id);
    assert(m2.wf());
    assert forall|x: int| m2.resident(x) <==> m1.resident(x) by {
        if m1.resident(x) {
            let k = m1.idx_of(x);
            assert(m2.entries@[k].block_id as int == x);
        }
        if m2.resident(x) {
            let k = m2.idx_of(x);
            assert(m1.entries@[k].block_id as int == x);
        }
    }
    lemma_idx_at(&m2, i);
    assert forall|x: int| #[trigger]
        m1.resident(x) && x != e.block_id as int implies m2.data_at(x) == m1.data_at(x)
        && m2.dirty_at(x) == m1.dirty_at(x) && m2.handles_at(x) == m1.handles_at(x) by {
        let k = m1.idx_of(x);
        lemma_idx_at(&m1, k);
        assert(m2.entries@[k].block_id as int == x);
        lemma_idx_at(&m2, k);
        assert(k != i);
        assert(m2.entries@[k] == m1.entries@[k]);
    }
}

/// Removing the slot at `j` evicts exactly that block and leaves every other
/// resident block untouched.
pub proof fn lemma_remove_entry(m1: BlockCacheManager, m2: BlockCacheManager, j: int)
    requires
        m1.wf(),
        0 <= j < m1.entries@.len(),
        m2.entries@ == m1.entries@.remove(j),
    ensures
        m2.wf(),
        m2.count() == m1.count() - 1,
        !m2.resident(m1.entries@[j].block_id as int),
        forall|x: int|
            x != m1.entries@[j].block_id as int ==> (m2.resident(x) <==> m1.resident(x)),
        forall|x: int|
            #[trigger] m2.resident(x) ==> m2.data_at(x) == m1.data_at(x) && m2.dirty_at(x)
                == m1.dirty_at(x) && m2.handles_at(x) == m1.handles_at(x),
{
    let vid = m1.entries@[j].block_id as int;
    assert(forall|k: int|
        0 <= k < m2.entries@.len() ==> #[trigger] m2.entries@[k] == if k < j {
            m1.entries@[k]
        } else {
            m1.entries@[k + 1]
        });
    assert(m2.wf());
    assert forall|x: int| x != vid implies (m2.resident(x) <==> m1.resident(x)) by {
        if m1.resident(x) {
            let k = m1.idx_of(x);
            if k < j {
                assert(m2.entries@[k].block_id as int == x);
            } else {
                assert(k != j);
                assert(m2.entries@[k - 1].block_id as int == x);
            }
        }
        if m2.resident(x) {
            let k = m2.idx_of(x);
            if k < j {
                assert(m1.entries@[k].block_id as int == x);
            } else {
                assert(m1.entries@[k + 1].block_id as int == x);
            }
        }
    }
    if m2.resident(vid) {
        let k = m2.idx_of(vid);
        assert(0 <= k < m2.entries@.len() && m2.entries@[k].block_id as int == vid);
        if k < j {
            assert(m1.entries@[k].block_id != m1.entries@[j].block_id);
        } else {
            assert(m1.entries@[k + 1].block_id != m1.entries@[j].block_id);
        }
        assert(false);
    }
    assert forall|x: int| #[trigger]
        m2.resident(x) implies m2.data_at(x) == m1.data_at(x) && m2.dirty_at(x) == m1.dirty_at(x)
        && m2.handles_at(x) == m1.handles_at(x) by {
        let k = m2.idx_of(x);
        lemma_idx_at(&m2, k);
        let k1: int = if k < j {
            k
        } else {
            k + 1
        };
        assert(m1.entries@[k1].block_id as int == x);
        lemma_idx_at(&m1, k1);
        assert(m2.entries@[k] == m1.entries@[k1]);
    }
}

/// Appending a slot for a block not yet resident makes exactly that block
/// resident and leaves every other resident block untouched.
pub proof fn lemma_push_entry(m1: BlockCacheManager, m2: BlockCacheManager, e: CacheEntry)
    requires
        m1.wf(),
        m1.count() < BLOCK_CACHE_SIZE,
        !m1.resident(e.block_id as int),
        e.cache.block_id == e.block_id,
        e.cache.wf(),
        m2.entries@ == m1.entries@.push(e),
    ensures
        m2.wf(),
        m2.count() == m1.count() + 1,
        m2.resident(e.block_id as int),
        m2.idx_of(e.block_id as int) == m1.count(),
        m2.data_at(e.block_id as int) == e.cache.cache@,
        m2.dirty_at(e.block_id as int) == e.cache.modified,
        m2.handles_at(e.block_id as int) == e.handles as int,
        forall|x: int| x != e.block_id as int ==> (m2.resident(x) <==> m1.resident(x)),
        forall|x: int|
            #[trigger] m1.resident(x) ==> m2.data_at(x) == m1.data_at(x) && m2.dirty_at(x)
                == m1.dirty_at(x) && m2.handles_at(x) == m1.handles_at(x),
{
    let n = m1.entries@.len() as int;
    assert(forall|k: int| 0 <= k < n ==> #[trigger] m2.entries@[k] == m1.entries@[k]);
    assert(m2.entries@[n] == e);
    assert forall|i: int, j: int| 0 <= i < j < m2.entries@.len() implies (
    #[trigger] m2.entries@[i]).block_id != (#[trigger] m2.entries@[j]).block_id by {
        if j == n {
            if m2.entries@[i].block_id == e.block_id {
                assert(m1.resident(e.block_id as int));
            }
        }
    }
    assert(m2.wf());
    lemma_idx_at(&m2, n);
    assert forall|x: int| x != e.block_id as int implies (m2.resident(x) <==> m1.resident(
        x,
    )) by {
        if m1.resident(x) {
            let k = m1.idx_of(x);
            assert(m2.entries@[k].block_id as int == x);
        }
        if m2.resident(x) {
            let k = m2.idx_of(x);
            assert(k != n);
            assert(m1.entries@[k].block_id as int == x);
        }
    }
    assert forall|x: int| #[trigger]
        m1.resident(x) implies m2.data_at(x) == m1.data_at(x) && m2.dirty_at(x) == m1.dirty_at(x)
        && m2.handles_at(x) == m1.handles_at(x) by {
        let k = m1.idx_of(x);
        lemma_idx_at(&m1, k);
        assert(m2.entries@[k].block_id as int == x);
        lemma_idx_at(&m2, k);
    }
}

/// The device contents as seen through the cache: resident buffers shadow
/// their device blocks.
pub open spec fn vdisk(m: BlockCacheManager, dev: Seq<Seq<u8>>) -> Seq<Seq<u8>> {
    Seq::new(
        dev.len(),
        |b: int|
            if m.resident(b) {
                m.data_at(b)
            } else {
                dev[b]
            },
    )
}

/// Two pool states with the same resident blocks and the same buffered
/// contents present the same virtual disk over any device contents.
pub proof fn lemma_vdisk_same(m1: BlockCacheManager, m2: BlockCacheManager, dev: Seq<Seq<u8>>)
    requires
        forall|id: int| m1.resident(id) <==> m2.resident(id),
        forall|id: int| #[trigger] m1.resident(id) ==> m1.data_at(id) == m2.data_at(id),
    ensures
        vdisk(m1, dev) == vdisk(m2, dev),
{
    assert(vdisk(m1, dev) =~= vdisk(m2, dev));
}

/// Every block of the virtual disk is `BLOCK_SIZE` bytes long.
pub proof fn lemma_vdisk_wf(m: BlockCacheManager, dev: Seq<Seq<u8>>)
    requires
        m.wf(),
        forall|i: int| 0 <= i < dev.len() ==> (#[trigger] dev[i]).len() == BLOCK_SIZE,
    ensures
        vdisk(m, dev).len() == dev.len(),
        forall|b: int| 0 <= b < dev.len() ==> (#[trigger] vdisk(m, dev)[b]).len() == BLOCK_SIZE,
{
    assert forall|b: int| 0 <= b < dev.len() implies (#[trigger] vdisk(m, dev)[b]).len()
        == BLOCK_SIZE by {
        if m.resident(b) {
            let j = m.idx_of(b);
            assert(0 <= j < m.entries@.len() && m.entries@[j].block_id as int == b);
            assert(m.entries@[j].cache.wf());
        }
    }
}

/// Rewriting the device under a resident block does not change the virtual
/// disk: the buffer shadows it either way.
pub proof fn lemma_vdisk_dev_update(m: BlockCacheManager, dev: Seq<Seq<u8>>, b: int, content: Seq<u8>)
    requires
        0 <= b < dev.len(),
        m.resident(b),
    ensures
        vdisk(m, dev.update(b, content)) == vdisk(m, dev),
{
    assert(vdisk(m, dev.update(b, content)) =~= vdisk(m, dev));
}

} // verus!
