//! The block cache: at most `CACHE_SIZE` resident blocks in front of a device.
//!
//! All file-system I/O goes through the cache. What the file system sees is
//! the *logical disk*: for each block the cached copy if there is one, else
//! what the device holds. Loading and evicting never change the logical disk;
//! only the `modify_*` operations do.
use crate::block_dev::{spec_valid_blocks, BlockDevice, BLOCK_SIZE};
use crate::codec::{
    get_u32, get_u64, set_u32, set_u64, spec_get_u32, spec_get_u64, spec_set_u32, spec_set_u64,
    spec_splice, splice,
};
use vstd::prelude::*;

verus! {

/// Largest number of blocks resident at once.
pub const CACHE_SIZE: usize = 16;

/// One resident block.
pub struct BlockCache {
    block_id: usize,
    cache: Vec<u8>,
    modified: bool,
}

impl BlockCache {
    /// The number of the block this entry holds.
    pub closed spec fn spec_block_id(&self) -> int {
        self.block_id as int
    }

    /// The bytes of the entry.
    pub closed spec fn view(&self) -> Seq<u8> {
        self.cache@
    }

    /// Has the entry been changed since it was loaded or written back?
    pub closed spec fn spec_modified(&self) -> bool {
        self.modified
    }

    /// Loads block `block_id` from `device` into a fresh entry.
    pub fn new<D: BlockDevice>(block_id: usize, device: &D) -> (entry: Self)
        requires
            spec_valid_blocks(device.blocks()),
            block_id < device.blocks().len(),
        ensures
            entry.spec_block_id() == block_id,
            entry@ == device.blocks()[block_id as int],
            !entry.spec_modified(),
    {
        let mut cache: Vec<u8> = vec![0u8; 512];
        device.read_block(block_id, cache.as_mut_slice());
        BlockCache { block_id, cache, modified: false }
    }

    /// The number of the block this entry holds.
    pub fn block_id(&self) -> (id: usize)
        ensures
            id == self.spec_block_id(),
    {
        self.block_id
    }

    /// Reads the `u32` at byte `offset`.
    pub fn read_u32(&self, offset: usize) -> (v: u32)
        requires
            self@.len() == BLOCK_SIZE,
            offset + 4 <= BLOCK_SIZE,
        ensures
            v == spec_get_u32(self@, offset as int),
    {
        get_u32(self.cache.as_slice(), offset)
    }

    /// Reads the `u64` at byte `offset`.
    pub fn read_u64(&self, offset: usize) -> (v: u64)
        requires
            self@.len() == BLOCK_SIZE,
            offset + 8 <= BLOCK_SIZE,
        ensures
            v == spec_get_u64(self@, offset as int),
    {
        get_u64(self.cache.as_slice(), offset)
    }

    /// Copies `len` bytes from byte `offset` of the entry to `dst[dst_off..]`.
    pub fn read_bytes(&self, offset: usize, dst: &mut [u8], dst_off: usize, len: usize)
        requires
            self@.len() == BLOCK_SIZE,
            offset + len <= BLOCK_SIZE,
            dst_off + len <= old(dst)@.len(),
        ensures
            final(dst)@ == spec_splice(
                old(dst)@,
                dst_off as int,
                self@.subrange(offset as int, offset + len),
            ),
    {
        splice(dst, dst_off, vstd::slice::slice_subrange(self.cache.as_slice(), offset, offset + len));
    }

    /// Stores `v` at byte `offset` and marks the entry as changed.
    pub fn modify_u32(&mut self, offset: usize, v: u32)
        requires
            old(self)@.len() == BLOCK_SIZE,
            offset + 4 <= BLOCK_SIZE,
        ensures
            final(self)@ == spec_set_u32(old(self)@, offset as int, v),
            final(self).spec_block_id() == old(self).spec_block_id(),
            final(self).spec_modified(),
    {
        set_u32(self.cache.as_mut_slice(), offset, v);
        self.modified = true;
    }

    /// Stores `v` at byte `offset` and marks the entry as changed.
    pub fn modify_u64(&mut self, offset: usize, v: u64)
        requires
            old(self)@.len() == BLOCK_SIZE,
            offset + 8 <= BLOCK_SIZE,
        ensures
            final(self)@ == spec_set_u64(old(self)@, offset as int, v),
            final(self).spec_block_id() == old(self).spec_block_id(),
            final(self).spec_modified(),
    {
        set_u64(self.cache.as_mut_slice(), offset, v);
        self.modified = true;
    }

    /// Copies `src` to byte `offset` of the entry and marks it as changed.
    pub fn modify_bytes(&mut self, offset: usize, src: &[u8])
        requires
            old(self)@.len() == BLOCK_SIZE,
            offset + src@.len() <= BLOCK_SIZE,
        ensures
            final(self)@ == spec_splice(old(self)@, offset as int, src@),
            final(self).spec_block_id() == old(self).spec_block_id(),
            final(self).spec_modified(),
    {
        splice(self.cache.as_mut_slice(), offset, src);
        self.modified = true;
    }

    /// Writes the entry back to `device` if it was changed.
    pub fn sync<D: BlockDevice>(&mut self, device: &mut D)
        requires
            spec_valid_blocks(old(device).blocks()),
            old(self).spec_block_id() < old(device).blocks().len(),
            old(self)@.len() == BLOCK_SIZE,
        ensures
            final(self)@ == old(self)@,
            final(self).spec_block_id() == old(self).spec_block_id(),
            !final(self).spec_modified(),
            final(device).blocks() == (if old(self).spec_modified() {
                old(device).blocks().update(old(self).spec_block_id(), old(self)@)
            } else {
                old(device).blocks()
            }),
    {
        if self.modified {
            self.modified = false;
            device.write_block(self.block_id, self.cache.as_slice());
        }
    }
}

/// Has `queue` an entry for block `b`?
pub open spec fn spec_cached(queue: Seq<BlockCache>, b: int) -> bool {
    exists|i: int| 0 <= i < queue.len() && (#[trigger] queue[i]).spec_block_id() == b
}

/// The place in `queue` of the entry for block `b`.
pub open spec fn spec_slot(queue: Seq<BlockCache>, b: int) -> int {
    choose|i: int| 0 <= i < queue.len() && (#[trigger] queue[i]).spec_block_id() == b
}

/// The logical disk made of `queue` in front of `device_blocks`.
pub open spec fn spec_overlay(queue: Seq<BlockCache>, device_blocks: Seq<Seq<u8>>) -> Seq<Seq<u8>> {
    Seq::new(
        device_blocks.len(),
        |b: int|
            if spec_cached(queue, b) {
                queue[spec_slot(queue, b)]@
            } else {
                device_blocks[b]
            },
    )
}

/// Are the entries of `queue` consistent with `device_blocks`?
pub open spec fn spec_queue_inv(queue: Seq<BlockCache>, device_blocks: Seq<Seq<u8>>) -> bool {
    &&& queue.len() <= CACHE_SIZE
    &&& forall|i: int|
        0 <= i < queue.len() ==> {
            &&& 0 <= (#[trigger] queue[i]).spec_block_id() < device_blocks.len()
            &&& queue[i]@.len() == BLOCK_SIZE
            &&& (!queue[i].spec_modified() ==> queue[i]@ == device_blocks[queue[i].spec_block_id()])
        }
    &&& forall|i: int, j: int|
        0 <= i < queue.len() && 0 <= j < queue.len() && i != j ==> (#[trigger] queue[i]).spec_block_id()
            != (#[trigger] queue[j]).spec_block_id()
}

/// The registry of resident blocks, oldest first, with the device behind it.
pub struct BlockCacheManager<D: BlockDevice> {
    device: D,
    queue: Vec<BlockCache>,
}

impl<D: BlockDevice> BlockCacheManager<D> {
    /// What the device itself holds, which may lag behind the logical disk.
    pub closed spec fn spec_device_blocks(&self) -> Seq<Seq<u8>> {
        self.device.blocks()
    }

    /// The resident entries, oldest first.
    pub closed spec fn spec_queue(&self) -> Seq<BlockCache> {
        self.queue@
    }

    /// The logical disk: the cached copy of a block where there is one, else
    /// the device's.
    pub open spec fn view(&self) -> Seq<Seq<u8>> {
        spec_overlay(self.spec_queue(), self.spec_device_blocks())
    }

    /// The cache's invariant.
    pub open spec fn wf(&self) -> bool {
        &&& spec_valid_blocks(self.spec_device_blocks())
        &&& spec_queue_inv(self.spec_queue(), self.spec_device_blocks())
    }

    /// The logical disk of a well-formed cache is made of whole blocks, as
    /// many as the device has.
    pub proof fn lemma_view_valid(&self)
        requires
            self.wf(),
        ensures
            spec_valid_blocks(self@),
            self@.len() == self.spec_device_blocks().len(),
    {
        let q = self.spec_queue();
        assert forall|b: int| 0 <= b < self@.len() implies (#[trigger] self@[b]).len()
            == BLOCK_SIZE by {
            if spec_cached(q, b) {
                let i = spec_slot(q, b);
                assert(q[i]@.len() == BLOCK_SIZE);
            } else {
                assert(self.spec_device_blocks()[b].len() == BLOCK_SIZE);
            }
        }
    }

    /// An empty cache in front of `device`.
    pub fn new(device: D) -> (manager: Self)
        requires
            spec_valid_blocks(device.blocks()),
        ensures
            manager.wf(),
            manager@ == device.blocks(),
            manager.spec_device_blocks() == device.blocks(),
            manager.spec_queue().len() == 0,
    {
        let manager = BlockCacheManager { device, queue: Vec::new() };
        assert(manager@ =~= device.blocks());
        manager
    }

    /// The place in the queue of the entry for `block_id`, if it is resident.
    fn find(&self, block_id: usize) -> (found: Option<usize>)
        ensures
            match found {
                Some(i) => i < self.spec_queue().len() && self.spec_queue()[i as int].spec_block_id()
                    == block_id,
                None => !spec_cached(self.spec_queue(), block_id as int),
            },
    {
        let mut i: usize = 0;
        while i < self.queue.len()
            invariant
                i <= self.queue.len(),
                forall|k: int| 0 <= k < i ==> (#[trigger] self.queue[k]).spec_block_id() != block_id,
            decreases self.queue.len() - i,
        {
            if self.queue[i].block_id() == block_id {
                return Some(i);
            }
            i += 1;
        }
        None
    }

    /// Makes block `block_id` resident and returns its place in the queue.
    ///
    /// A resident block is returned as it is. Otherwise the block is loaded
    /// from the device; when the cache is full, the oldest entry leaves first,
    /// written back if it was changed. The logical disk stays as it was.
    pub fn get_block_cache(&mut self, block_id: usize) -> (slot: usize)
        requires
            old(self).wf(),
            block_id < old(self)@.len(),
        ensures
            final(self).wf(),
            final(self)@ == old(self)@,
            slot < final(self).spec_queue().len(),
            final(self).spec_queue()[slot as int].spec_block_id() == block_id,
            final(self).spec_queue()[slot as int]@ == old(self)@[block_id as int],
            spec_cached(old(self).spec_queue(), block_id as int) ==> final(self).spec_queue() == old(self).spec_queue() && final(self).spec_device_blocks() == old(self).spec_device_blocks(),
            !spec_cached(old(self).spec_queue(), block_id as int) ==> {
                &&& !final(self).spec_queue()[slot as int].spec_modified()
                &&& slot == final(self).spec_queue().len() - 1
                &&& final(self).spec_queue().drop_last() == (if old(self).spec_queue().len()
                    == CACHE_SIZE {
                    old(self).spec_queue().drop_first()
                } else {
                    old(self).spec_queue()
                })
                &&& final(self).spec_device_blocks() == (if old(self).spec_queue().len()
                    == CACHE_SIZE && old(self).spec_queue()[0].spec_modified() {
                    old(self).spec_device_blocks().update(
                        old(self).spec_queue()[0].spec_block_id(),
                        old(self).spec_queue()[0]@,
                    )
                } else {
                    old(self).spec_device_blocks()
                })
            },
    {
        if let Some(i) = self.find(block_id) {
            proof {
                let q = self.spec_queue();
                let s = spec_slot(q, block_id as int);
                assert(q[i as int].spec_block_id() == block_id);
                assert(s == i);
            }
            return i;
        }
        let ghost q0 = self.queue@;
        let ghost d0 = self.device.blocks();
        let ghost v0 = self@;
        if self.queue.len() == CACHE_SIZE {
            let mut oldest = self.queue.remove(0);
            let ghost e = oldest.spec_block_id();
            assert(oldest == q0[0]);
            oldest.sync(&mut self.device);
            proof {
                let q1 = self.queue@;
                let d1 = self.device.blocks();
                assert forall|i: int| 0 <= i < q1.len() implies (#[trigger] q1[i]) == q0[i + 1] by {}
                assert(!spec_cached(q1, e)) by {
                    if spec_cached(q1, e) {
                        let i = spec_slot(q1, e);
                        assert(q1[i] == q0[i + 1]);
                        assert(q0[i + 1].spec_block_id() == q0[0].spec_block_id());
                    }
                }
                assert forall|b: int| 0 <= b < d0.len() && b != e implies spec_cached(q1, b)
                    == spec_cached(q0, b) by {
                    if spec_cached(q0, b) {
                        let i = spec_slot(q0, b);
                        assert(i != 0);
                        assert(q1[i - 1] == q0[i]);
                    }
                    if spec_cached(q1, b) {
                        let i = spec_slot(q1, b);
                        assert(q1[i] == q0[i + 1]);
                    }
                }
                assert forall|b: int| 0 <= b < d0.len() implies self@[b] == v0[b] by {
                    if b == e {
                        assert(q0[0].spec_block_id() == e);
                        assert(spec_cached(q0, e));
                        assert(spec_slot(q0, e) == 0);
                    } else if spec_cached(q0, b) {
                        let i = spec_slot(q0, b);
                        let j = spec_slot(q1, b);
                        assert(q1[j] == q0[j + 1]);
                        assert(j + 1 == i);
                    } else {
                    }
                }
                assert(self@ =~= v0);
                assert(spec_valid_blocks(d1)) by {
                    assert forall|b: int| 0 <= b < d1.len() implies (#[trigger] d1[b]).len()
                        == BLOCK_SIZE by {
                        assert(d0[b].len() == BLOCK_SIZE);
                    }
                }
                assert(spec_queue_inv(q1, d1)) by {
                    assert forall|i: int| 0 <= i < q1.len() implies {
                        &&& 0 <= (#[trigger] q1[i]).spec_block_id() < d1.len()
                        &&& q1[i]@.len() == BLOCK_SIZE
                        &&& (!q1[i].spec_modified() ==> q1[i]@ == d1[q1[i].spec_block_id()])
                    } by {
                        assert(q1[i] == q0[i + 1]);
                        assert(q0[i + 1].spec_block_id() != q0[0].spec_block_id());
                    }
                    assert forall|i: int, j: int|
                        0 <= i < q1.len() && 0 <= j < q1.len() && i != j implies (#[trigger] q1[i]).spec_block_id()
                        != (#[trigger] q1[j]).spec_block_id() by {
                        assert(q1[i] == q0[i + 1]);
                        assert(q1[j] == q0[j + 1]);
                    }
                }
            }
        }
        let ghost q1 = self.queue@;
        let ghost d1 = self.device.blocks();
        assert(!spec_cached(q1, block_id as int)) by {
            if spec_cached(q1, block_id as int) {
                let i = spec_slot(q1, block_id as int);
                if q0.len() == CACHE_SIZE {
                    assert(q1[i] == q0[i + 1]);
                } else {
                    assert(q1[i] == q0[i]);
                }
            }
        }
        let entry = BlockCache::new(block_id, &self.device);
        self.queue.push(entry);
        proof {
            let q2 = self.queue@;
            let last = q2.len() - 1;
            assert(q2[last] == entry);
            assert forall|i: int| 0 <= i < q1.len() implies (#[trigger] q2[i]) == q1[i] by {}
            assert(spec_cached(q2, block_id as int));
            assert(spec_slot(q2, block_id as int) == last) by {
                let s = spec_slot(q2, block_id as int);
                if s != last {
                    assert(q2[s] == q1[s]);
                    assert(spec_cached(q1, block_id as int));
                }
            }
            assert forall|b: int| 0 <= b < d1.len() && b != block_id implies spec_cached(q2, b)
                == spec_cached(q1, b) && (spec_cached(q1, b) ==> spec_slot(q2, b) == spec_slot(
                q1,
                b,
            )) by {
                if spec_cached(q1, b) {
                    let i = spec_slot(q1, b);
                    assert(q2[i] == q1[i]);
                    let j = spec_slot(q2, b);
                    assert(j != last);
                    assert(q2[j] == q1[j]);
                }
                if spec_cached(q2, b) {
                    let j = spec_slot(q2, b);
                    assert(j != last);
                    assert(q2[j] == q1[j]);
                }
            }
            assert(self@ =~= v0);
            assert(q2.drop_last() =~= q1);
            if q0.len() == CACHE_SIZE {
                assert(q1 =~= q0.drop_first());
            }
            assert(spec_queue_inv(q2, d1)) by {
                assert forall|i: int| 0 <= i < q2.len() implies {
                    &&& 0 <= (#[trigger] q2[i]).spec_block_id() < d1.len()
                    &&& q2[i]@.len() == BLOCK_SIZE
                    &&& (!q2[i].spec_modified() ==> q2[i]@ == d1[q2[i].spec_block_id()])
                } by {
                    if i < last {
                        assert(q2[i] == q1[i]);
                    } else {
                        assert(d1[block_id as int].len() == BLOCK_SIZE);
                    }
                }
                assert forall|i: int, j: int|
                    0 <= i < q2.len() && 0 <= j < q2.len() && i != j implies (#[trigger] q2[i]).spec_block_id()
                    != (#[trigger] q2[j]).spec_block_id() by {
                    if i < last {
                        assert(q2[i] == q1[i]);
                    }
                    if j < last {
                        assert(q2[j] == q1[j]);
                    }
                }
            }
        }
        self.queue.len() - 1
    }

    /// Replacing one entry by a changed copy of itself replaces one block of
    /// the logical disk.
    proof fn lemma_entry_changed(
        q0: Seq<BlockCache>,
        q1: Seq<BlockCache>,
        d: Seq<Seq<u8>>,
        slot: int,
    )
        requires
            spec_queue_inv(q0, d),
            0 <= slot < q0.len(),
            q1.len() == q0.len(),
            forall|i: int| 0 <= i < q0.len() && i != slot ==> q1[i] == q0[i],
            q1[slot].spec_block_id() == q0[slot].spec_block_id(),
            q1[slot]@.len() == BLOCK_SIZE,
            q1[slot].spec_modified() || q1[slot]@ == d[q0[slot].spec_block_id()],
        ensures
            spec_queue_inv(q1, d),
            spec_overlay(q1, d) == spec_overlay(q0, d).update(
                q0[slot].spec_block_id(),
                q1[slot]@,
            ),
    {
        let e = q0[slot].spec_block_id();
        assert forall|b: int| 0 <= b < d.len() implies spec_cached(q1, b) == spec_cached(q0, b)
            && (spec_cached(q0, b) ==> spec_slot(q1, b) == spec_slot(q0, b)) by {
            if spec_cached(q0, b) {
                let i = spec_slot(q0, b);
                assert(q1[i].spec_block_id() == b);
                let j = spec_slot(q1, b);
                assert(q0[j].spec_block_id() == b);
            }
            if spec_cached(q1, b) {
                let j = spec_slot(q1, b);
                assert(q0[j].spec_block_id() == b);
            }
        }
        assert(spec_cached(q0, e));
        assert(spec_slot(q0, e) == slot);
        assert(spec_overlay(q1, d) =~= spec_overlay(q0, d).update(e, q1[slot]@));
        assert forall|i: int, j: int|
            0 <= i < q1.len() && 0 <= j < q1.len() && i != j implies (#[trigger] q1[i]).spec_block_id()
            != (#[trigger] q1[j]).spec_block_id() by {
            assert(q1[i].spec_block_id() == q0[i].spec_block_id());
            assert(q1[j].spec_block_id() == q0[j].spec_block_id());
        }
        assert forall|i: int| 0 <= i < q1.len() implies {
            &&& 0 <= (#[trigger] q1[i]).spec_block_id() < d.len()
            &&& q1[i]@.len() == BLOCK_SIZE
            &&& (!q1[i].spec_modified() ==> q1[i]@ == d[q1[i].spec_block_id()])
        } by {
            if i != slot {
                assert(q1[i] == q0[i]);
            }
        }
    }

    /// Reads the `u32` at byte `offset` of block `block_id`.
    pub fn read_u32(&mut self, block_id: usize, offset: usize) -> (v: u32)
        requires
            old(self).wf(),
            block_id < old(self)@.len(),
            offset + 4 <= BLOCK_SIZE,
        ensures
            final(self).wf(),
            final(self)@ == old(self)@,
            v == spec_get_u32(old(self)@[block_id as int], offset as int),
    {
        proof {
            self.lemma_view_valid();
        }
        let slot: usize = self.get_block_cache(block_id);
        self.queue[slot].read_u32(offset)
    }

    /// Reads the `u64` at byte `offset` of block `block_id`.
    pub fn read_u64(&mut self, block_id: usize, offset: usize) -> (v: u64)
        requires
            old(self).wf(),
            block_id < old(self)@.len(),
            offset + 8 <= BLOCK_SIZE,
        ensures
            final(self).wf(),
            final(self)@ == old(self)@,
            v == spec_get_u64(old(self)@[block_id as int], offset as int),
    {
        proof {
            self.lemma_view_valid();
        }
        let slot: usize = self.get_block_cache(block_id);
        self.queue[slot].read_u64(offset)
    }

    /// Copies `len` bytes from byte `offset` of block `block_id` to
    /// `dst[dst_off..]`.
    pub fn read_bytes(
        &mut self,
        block_id: usize,
        offset: usize,
        dst: &mut [u8],
        dst_off: usize,
        len: usize,
    )
        requires
            old(self).wf(),
            block_id < old(self)@.len(),
            offset + len <= BLOCK_SIZE,
            dst_off + len <= old(dst)@.len(),
        ensures
            final(self).wf(),
            final(self)@ == old(self)@,
            final(dst)@ == spec_splice(
                old(dst)@,
                dst_off as int,
                old(self)@[block_id as int].subrange(offset as int, offset + len),
            ),
    {
        proof {
            self.lemma_view_valid();
        }
        let slot: usize = self.get_block_cache(block_id);
        self.queue[slot].read_bytes(offset, dst, dst_off, len);
    }

    /// Stores `v` at byte `offset` of block `block_id`.
    pub fn modify_u32(&mut self, block_id: usize, offset: usize, v: u32)
        requires
            old(self).wf(),
            block_id < old(self)@.len(),
            offset + 4 <= BLOCK_SIZE,
        ensures
            final(self).wf(),
            final(self)@ == old(self)@.update(
                block_id as int,
                spec_set_u32(old(self)@[block_id as int], offset as int, v),
            ),
    {
        proof {
            self.lemma_view_valid();
        }
        let slot: usize = self.get_block_cache(block_id);
        let ghost q0 = self.queue@;
        self.queue[slot].modify_u32(offset, v);
        proof {
            Self::lemma_entry_changed(q0, self.queue@, self.device.blocks(), slot as int);
        }
    }

    /// Stores `v` at byte `offset` of block `block_id`.
    pub fn modify_u64(&mut self, block_id: usize, offset: usize, v: u64)
        requires
            old(self).wf(),
            block_id < old(self)@.len(),
            offset + 8 <= BLOCK_SIZE,
        ensures
            final(self).wf(),
            final(self)@ == old(self)@.update(
                block_id as int,
                spec_set_u64(old(self)@[block_id as int], offset as int, v),
            ),
    {
        proof {
            self.lemma_view_valid();
        }
        let slot: usize = self.get_block_cache(block_id);
        let ghost q0 = self.queue@;
        self.queue[slot].modify_u64(offset, v);
        proof {
            Self::lemma_entry_changed(q0, self.queue@, self.device.blocks(), slot as int);
        }
    }

    /// Copies `src` to byte `offset` of block `block_id`.
    pub fn modify_bytes(&mut self, block_id: usize, offset: usize, src: &[u8])
        requires
            old(self).wf(),
            block_id < old(self)@.len(),
            offset + src@.len() <= BLOCK_SIZE,
        ensures
            final(self).wf(),
            final(self)@ == old(self)@.update(
                block_id as int,
                spec_splice(old(self)@[block_id as int], offset as int, src@),
            ),
    {
        proof {
            self.lemma_view_valid();
        }
        let slot: usize = self.get_block_cache(block_id);
        let ghost q0 = self.queue@;
        self.queue[slot].modify_bytes(offset, src);
        proof {
            Self::lemma_entry_changed(q0, self.queue@, self.device.blocks(), slot as int);
        }
    }

    /// Writes every changed entry back to the device.
    ///
    /// Afterwards the device holds the logical disk, which stays as it was.
    pub fn sync_all(&mut self)
        requires
            old(self).wf(),
        ensures
            final(self).wf(),
            final(self)@ == old(self)@,
            final(self).spec_device_blocks() == old(self)@,
            final(self).spec_queue().len() == old(self).spec_queue().len(),
            forall|i: int|
                0 <= i < old(self).spec_queue().len() ==> {
                    &&& (#[trigger] final(self).spec_queue()[i]).spec_block_id() == old(self).spec_queue()[i].spec_block_id()
                    &&& final(self).spec_queue()[i]@ == old(self).spec_queue()[i]@
                    &&& !final(self).spec_queue()[i].spec_modified()
                },
    {
        let ghost v0 = self@;
        let n: usize = self.queue.len();
        let mut i: usize = 0;
        while i < n
            invariant
                i <= n,
                n == self.queue.len(),
                n == old(self).spec_queue().len(),
                self.wf(),
                self@ == v0,
                forall|k: int|
                    0 <= k < n ==> {
                        &&& (#[trigger] self.queue[k]).spec_block_id() == old(self).spec_queue()[k].spec_block_id()
                        &&& self.queue[k]@ == old(self).spec_queue()[k]@
                    },
                forall|k: int| 0 <= k < i ==> !(#[trigger] self.queue[k]).spec_modified(),
            decreases n - i,
        {
            let ghost q0 = self.queue@;
            let ghost d0 = self.device.blocks();
            self.queue[i].sync(&mut self.device);
            proof {
                let q1 = self.queue@;
                let d1 = self.device.blocks();
                let e = q0[i as int].spec_block_id();
                assert(spec_valid_blocks(d1)) by {
                    assert forall|b: int| 0 <= b < d1.len() implies (#[trigger] d1[b]).len()
                        == BLOCK_SIZE by {
                        assert(d0[b].len() == BLOCK_SIZE);
                    }
                }
                assert(spec_queue_inv(q0, d1)) by {
                    assert forall|k: int| 0 <= k < q0.len() implies {
                        &&& 0 <= (#[trigger] q0[k]).spec_block_id() < d1.len()
                        &&& q0[k]@.len() == BLOCK_SIZE
                        &&& (!q0[k].spec_modified() ==> q0[k]@ == d1[q0[k].spec_block_id()])
                    } by {
                        if k != i {
                            assert(q0[k].spec_block_id() != q0[i as int].spec_block_id());
                        }
                    }
                }
                assert(spec_overlay(q0, d1) =~= spec_overlay(q0, d0)) by {
                    assert(spec_cached(q0, e));
                }
                Self::lemma_entry_changed(q0, q1, d1, i as int);
                assert(self@ =~= v0) by {
                    assert(spec_slot(q0, e) == i);
                }
            }
            i += 1;
        }
        proof {
            let q = self.queue@;
            let d = self.device.blocks();
            assert forall|b: int| 0 <= b < d.len() implies d[b] == v0[b] by {
                if spec_cached(q, b) {
                    let s = spec_slot(q, b);
                    assert(!q[s].spec_modified());
                }
            }
            assert(d =~= v0);
        }
    }

    /// The device behind the cache.
    pub fn device(&self) -> (device: &D)
        ensures
            device.blocks() == self.spec_device_blocks(),
    {
        &self.device
    }

    /// Gives the device back, dropping the cache.
    ///
    /// Changes that were not written back are lost: call `sync_all` first.
    pub fn into_device(self) -> (device: D)
        ensures
            device.blocks() == self.spec_device_blocks(),
    {
        self.device
    }
}

} // verus!
