//! The disk inode: size, type and the index of a file's blocks.
//!
//! The blocks of a file are found through 28 direct slots, then through one
//! indirect block, then through a doubly indirect block. When a file grows,
//! block ids are consumed in one fixed order; the same order is the one in
//! which `clear_size` hands them back:
//!
//! ```text
//! direct[0..28], indirect1, its 128 entries, indirect2,
//! then for each indirect block behind indirect2: its id, its 128 entries
//! ```
use crate::block_cache::BlockCacheManager;
use crate::block_dev::{spec_valid_blocks, BlockDevice, BLOCK_SIZE};
use crate::codec::{
    lemma_get_set_u32_other, lemma_get_set_u32_same, spec_get_u32, spec_set_u32, spec_splice,
};
use crate::codec::{lemma_auto_u32_le, spec_u32_to_le_bytes, u32_to_le_bytes};
use crate::layout::{
    DIRECT_BOUND, INDIRECT1_BOUND, INDIRECT2_BOUND, INODE_DIRECT_COUNT, INODE_INDIRECT1_COUNT,
    MAX_FILE_SIZE,
};
use vstd::prelude::*;

verus! {

/// What an inode stands for.
#[derive(PartialEq, Eq, Structural, Clone, Copy, Debug)]
pub enum DiskInodeType {
    File,
    Directory,
}

/// An inode as it is held in memory.
pub struct DiskInode {
    pub size: u32,
    pub direct: [u32; 28],
    pub indirect1: u32,
    pub indirect2: u32,
    pub type_: DiskInodeType,
}

/// The mathematical value of an inode.
pub struct DiskInodeView {
    pub size: int,
    pub direct: Seq<u32>,
    pub indirect1: u32,
    pub indirect2: u32,
    pub type_: DiskInodeType,
}

/// Number of data blocks that hold `size` bytes.
pub open spec fn spec_data_blocks(size: int) -> int {
    (size + 511) / 512
}

/// Number of blocks, index blocks included, that a file of `data` data blocks
/// takes.
pub open spec fn spec_total_for(data: int) -> int {
    data + (if data > 28 {
        1int
    } else {
        0int
    }) + (if data > 156 {
        1 + (data - 156 + 127) / 128
    } else {
        0int
    })
}

/// Number of blocks, index blocks included, that a file of `size` bytes takes.
pub open spec fn spec_total_blocks(size: int) -> int {
    spec_total_for(spec_data_blocks(size))
}

/// Entry `i` of the index block `block` on `disk`.
pub open spec fn spec_entry(disk: Seq<Seq<u8>>, block: u32, i: int) -> u32 {
    spec_get_u32(disk[block as int], 4 * i)
}

/// The place of data block `k` in the order in which block ids are consumed.
pub open spec fn spec_data_pos(k: int) -> int {
    if k < 28 {
        k
    } else if k < 156 {
        k + 1
    } else {
        158 + ((k - 156) / 128) * 129 + 1 + (k - 156) % 128
    }
}

impl DiskInodeView {
    /// The block id at place `p` of the order in which block ids are
    /// consumed.
    pub open spec fn spec_item(self, disk: Seq<Seq<u8>>, p: int) -> u32 {
        if p < 28 {
            self.direct[p]
        } else if p == 28 {
            self.indirect1
        } else if p < 157 {
            spec_entry(disk, self.indirect1, p - 29)
        } else if p == 157 {
            self.indirect2
        } else {
            let group = (p - 158) / 129;
            let rest = (p - 158) % 129;
            let level1 = spec_entry(disk, self.indirect2, group);
            if rest == 0 {
                level1
            } else {
                spec_entry(disk, level1, rest - 1)
            }
        }
    }

    /// The id of data block `k` of the file.
    pub open spec fn spec_block_id(self, disk: Seq<Seq<u8>>, k: int) -> u32 {
        if k < 28 {
            self.direct[k]
        } else if k < 156 {
            spec_entry(disk, self.indirect1, k - 28)
        } else {
            spec_entry(disk, spec_entry(disk, self.indirect2, (k - 156) / 128), (k - 156) % 128)
        }
    }

    /// All blocks of the file, index blocks included, in the order in which
    /// their ids were consumed.
    pub open spec fn spec_blocks(self, disk: Seq<Seq<u8>>) -> Seq<u32> {
        Seq::new(spec_total_blocks(self.size) as nat, |p: int| self.spec_item(disk, p))
    }

    /// Byte `i` of the file.
    pub open spec fn spec_byte(self, disk: Seq<Seq<u8>>, i: int) -> u8 {
        disk[self.spec_block_id(disk, i / 512) as int][i % 512]
    }

    /// The bytes of the file.
    pub open spec fn spec_content(self, disk: Seq<Seq<u8>>) -> Seq<u8> {
        Seq::new(self.size as nat, |i: int| self.spec_byte(disk, i))
    }

    /// The bytes of the data blocks of the file: those of the file, and
    /// behind them what the last block holds beyond the end of the file.
    pub open spec fn spec_raw(self, disk: Seq<Seq<u8>>) -> Seq<u8> {
        Seq::new((spec_data_blocks(self.size) * 512) as nat, |i: int| self.spec_byte(disk, i))
    }

    /// Does the last data block hold zeros beyond the end of the file?
    pub open spec fn spec_tail_zero(self, disk: Seq<Seq<u8>>) -> bool {
        forall|i: int|
            self.size <= i < spec_data_blocks(self.size) * 512 ==> (#[trigger] self.spec_byte(
                disk,
                i,
            )) == 0
    }

    /// Do the first `total` places of the order hold ids of blocks of `disk`,
    /// no id twice?
    pub open spec fn spec_items_ok(self, disk: Seq<Seq<u8>>, total: int) -> bool {
        &&& forall|p: int| 0 <= p < total ==> (#[trigger] self.spec_item(disk, p)) < disk.len()
        &&& forall|p: int, q: int|
            0 <= p < total && 0 <= q < total && p != q ==> (#[trigger] self.spec_item(disk, p))
                != (#[trigger] self.spec_item(disk, q))
    }

    /// Is the inode well-formed on `disk`: a size within the limit, and
    /// blocks that exist and are used once?
    pub open spec fn wf(self, disk: Seq<Seq<u8>>) -> bool {
        &&& 0 <= self.size <= MAX_FILE_SIZE
        &&& self.direct.len() == 28
        &&& self.spec_items_ok(disk, spec_total_blocks(self.size))
    }
}

impl View for DiskInode {
    type V = DiskInodeView;

    open spec fn view(&self) -> DiskInodeView {
        DiskInodeView {
            size: self.size as int,
            direct: self.direct@,
            indirect1: self.indirect1,
            indirect2: self.indirect2,
            type_: self.type_,
        }
    }
}

/// A data block has a place of its own in the order, behind the index blocks
/// that lead to it.
pub proof fn lemma_data_pos(v: DiskInodeView, disk: Seq<Seq<u8>>, k: int, data: int)
    requires
        0 <= k < data,
    ensures
        0 <= spec_data_pos(k) < spec_total_for(data),
        v.spec_item(disk, spec_data_pos(k)) == v.spec_block_id(disk, k),
        k >= 28 ==> 28 < spec_total_for(data),
        k >= 156 ==> 157 < spec_total_for(data) && 158 + ((k - 156) / 128) * 129 < spec_total_for(
            data,
        ),
        k >= 156 ==> v.spec_item(disk, 158 + ((k - 156) / 128) * 129) == spec_entry(
            disk,
            v.indirect2,
            (k - 156) / 128,
        ),
{
    if k >= 156 {
        let g = (k - 156) / 128;
        let r = (k - 156) % 128;
        let p = 158 + g * 129 + 1 + r;
        assert((p - 158) / 129 == g && (p - 158) % 129 == r + 1) by {
            assert(p - 158 == g * 129 + (r + 1));
            lemma_div_mod_129(g, r + 1);
        }
        let pg = 158 + g * 129;
        assert((pg - 158) / 129 == g && (pg - 158) % 129 == 0) by {
            lemma_div_mod_129(g, 0);
        }
        let d = data - 156;
        assert(k - 156 < d);
        assert(g <= (d - 1) / 128);
        assert((d + 127) / 128 >= g + 1);
    }
}

/// Division and remainder by 129 of `g * 129 + r`.
pub proof fn lemma_div_mod_129(g: int, r: int)
    requires
        0 <= g,
        0 <= r < 129,
    ensures
        (g * 129 + r) / 129 == g,
        (g * 129 + r) % 129 == r,
{
    assert((g * 129 + r) / 129 == g && (g * 129 + r) % 129 == r) by (nonlinear_arith)
        requires
            0 <= g,
            0 <= r < 129,
    ;
}

/// Is `p` the place of an index block in the order?
pub open spec fn spec_is_index_pos(p: int) -> bool {
    p == 28 || p == 157 || (p >= 158 && (p - 158) % 129 == 0)
}

/// The places of data blocks are not those of index blocks, and two data
/// blocks have two places.
pub proof fn lemma_data_pos_distinct(k: int, j: int)
    requires
        0 <= k,
        0 <= j,
    ensures
        !spec_is_index_pos(spec_data_pos(k)),
        k != j ==> spec_data_pos(k) != spec_data_pos(j),
{
    if k >= 156 {
        lemma_div_mod_129((k - 156) / 128, 1 + (k - 156) % 128);
    }
    if j >= 156 {
        lemma_div_mod_129((j - 156) / 128, 1 + (j - 156) % 128);
    }
}

/// The index of a file reads the same on two disks that agree on the file's
/// index blocks.
pub proof fn lemma_items_frame(
    v: DiskInodeView,
    disk0: Seq<Seq<u8>>,
    disk1: Seq<Seq<u8>>,
    total: int,
)
    requires
        forall|p: int|
            0 <= p < total && spec_is_index_pos(p) ==> disk1[(#[trigger] v.spec_item(disk0, p)) as int]
                == disk0[v.spec_item(disk0, p) as int],
    ensures
        forall|p: int| 0 <= p < total ==> (#[trigger] v.spec_item(disk1, p)) == v.spec_item(disk0, p),
{
    assert forall|p: int| 0 <= p < total implies (#[trigger] v.spec_item(disk1, p)) == v.spec_item(
        disk0,
        p,
    ) by {
        if 28 < p < 157 {
            assert(spec_is_index_pos(28));
            assert(disk1[v.spec_item(disk0, 28) as int] == disk0[v.spec_item(disk0, 28) as int]);
        } else if p > 157 {
            assert(spec_is_index_pos(157));
            assert(disk1[v.spec_item(disk0, 157) as int] == disk0[v.spec_item(disk0, 157) as int]);
            let g = (p - 158) / 129;
            let pg = 158 + g * 129;
            lemma_div_mod_129(g, 0);
            assert(spec_is_index_pos(pg));
            assert(pg <= p);
            assert(disk1[v.spec_item(disk0, pg) as int] == disk0[v.spec_item(disk0, pg) as int]);
        }
    }
}

/// On a well-formed inode every data block exists, is no index block, and is
/// no other data block.
pub proof fn lemma_data_blocks_apart(v: DiskInodeView, disk: Seq<Seq<u8>>, k: int)
    requires
        v.wf(disk),
        0 <= k < spec_data_blocks(v.size),
    ensures
        v.spec_block_id(disk, k) < disk.len(),
        forall|p: int|
            0 <= p < spec_total_blocks(v.size) && spec_is_index_pos(p) ==> (#[trigger] v.spec_item(
                disk,
                p,
            )) != v.spec_block_id(disk, k),
        forall|j: int|
            0 <= j < spec_data_blocks(v.size) && j != k ==> (#[trigger] v.spec_block_id(disk, j))
                != v.spec_block_id(disk, k),
{
    let data = spec_data_blocks(v.size);
    let total = spec_total_blocks(v.size);
    lemma_data_pos(v, disk, k, data);
    lemma_data_pos_distinct(k, 0);
    let pk = spec_data_pos(k);
    assert(v.spec_item(disk, pk) < disk.len());
    assert forall|p: int| 0 <= p < total && spec_is_index_pos(p) implies (#[trigger] v.spec_item(
        disk,
        p,
    )) != v.spec_block_id(disk, k) by {
        assert(p != pk);
        assert(v.spec_item(disk, p) != v.spec_item(disk, pk));
    }
    assert forall|j: int| 0 <= j < data && j != k implies (#[trigger] v.spec_block_id(disk, j))
        != v.spec_block_id(disk, k) by {
        lemma_data_pos(v, disk, j, data);
        lemma_data_pos_distinct(k, j);
        let pj = spec_data_pos(j);
        assert(v.spec_item(disk, pj) != v.spec_item(disk, pk));
    }
}

/// The index blocks that lead to data block `k` of a well-formed inode exist.
pub proof fn lemma_lookup_in_range(v: DiskInodeView, disk: Seq<Seq<u8>>, k: int)
    requires
        v.wf(disk),
        0 <= k < spec_data_blocks(v.size),
    ensures
        k < INDIRECT2_BOUND,
        k >= 28 && k < 156 ==> v.indirect1 < disk.len(),
        k >= 156 ==> v.indirect2 < disk.len() && spec_entry(disk, v.indirect2, (k - 156) / 128)
            < disk.len(),
        v.spec_block_id(disk, k) < disk.len(),
{
    let data = spec_data_blocks(v.size);
    lemma_data_pos(v, disk, k, data);
    if k >= 156 {
        let p = 158 + ((k - 156) / 128) * 129;
        assert(v.spec_item(disk, p) < disk.len());
        assert(v.spec_item(disk, 157) < disk.len());
    }
    if k >= 28 {
        assert(v.spec_item(disk, 28) < disk.len());
    }
    assert(v.spec_item(disk, spec_data_pos(k)) < disk.len());
}

/// What data block `k` holds after `src` was written at `offset` of a file of
/// which the bytes before `end` exist: the bytes of the block that lie in
/// `offset..end` come from `src`, the others stay.
pub open spec fn spec_block_written(
    block: Seq<u8>,
    k: int,
    offset: int,
    src: Seq<u8>,
    end: int,
) -> Seq<u8> {
    let lo = if offset > 512 * k {
        offset
    } else {
        512 * k
    };
    let hi = if end < 512 * (k + 1) {
        end
    } else {
        512 * (k + 1)
    };
    spec_splice(block, lo - 512 * k, spec_window(src, lo - offset, hi - lo))
}

/// Are the items of `list` ids of blocks of `disk`, no id twice?
pub open spec fn spec_distinct_blocks(list: Seq<u32>, disk: Seq<Seq<u8>>) -> bool {
    &&& forall|p: int| 0 <= p < list.len() ==> (#[trigger] list[p]) < disk.len()
    &&& forall|p: int, q: int|
        0 <= p < list.len() && 0 <= q < list.len() && p != q ==> (#[trigger] list[p]) != (
        #[trigger] list[q])
}

/// Is entry `i` of the index block at place `pb` the slot that holds the
/// item at place `p`?
pub open spec fn spec_slot_of(pb: int, i: int, p: int) -> bool {
    &&& 0 <= i < 128
    &&& {
        ||| pb == 28 && p == 29 + i
        ||| pb == 157 && p == 158 + 129 * i
        ||| pb >= 158 && (pb - 158) % 129 == 0 && p == pb + 1 + i
    }
}

/// Storing the next item in its slot of an index block adds it to the order
/// and leaves the items before it as they were.
pub proof fn lemma_write_slot(
    v: DiskInodeView,
    disk1: Seq<Seq<u8>>,
    disk2: Seq<Seq<u8>>,
    list: Seq<u32>,
    next: int,
    pb: int,
    i: int,
    val: u32,
)
    requires
        spec_valid_blocks(disk1),
        spec_distinct_blocks(list, disk1),
        0 <= pb < next < list.len(),
        spec_slot_of(pb, i, next),
        forall|p: int| 0 <= p < next ==> (#[trigger] v.spec_item(disk1, p)) == list[p],
        disk2 == disk1.update(list[pb] as int, spec_set_u32(disk1[list[pb] as int], 4 * i, val)),
    ensures
        forall|p: int| 0 <= p < next ==> (#[trigger] v.spec_item(disk2, p)) == list[p],
        v.spec_item(disk2, next) == val,
        spec_valid_blocks(disk2),
{
    let blk = list[pb];
    assert(blk < disk1.len());
    assert(disk1[blk as int].len() == BLOCK_SIZE);
    lemma_get_set_u32_same(disk1[blk as int], 4 * i, val);
    assert forall|b: int| 0 <= b < disk2.len() implies (#[trigger] disk2[b]).len()
        == BLOCK_SIZE by {
        assert(disk1[b].len() == BLOCK_SIZE);
    }
    assert(v.spec_item(disk1, pb) == blk);
    assert forall|p: int| 0 <= p < next implies (#[trigger] v.spec_item(disk2, p)) == list[p] by {
        assert(v.spec_item(disk1, p) == list[p]);
        if 28 < p < 157 {
            assert(v.spec_item(disk1, 28) == list[28]);
            if pb == 28 {
                lemma_get_set_u32_other(disk1[blk as int], 4 * i, val, 4 * (p - 29));
            } else {
                assert(list[28] != list[pb]);
            }
        } else if p > 157 {
            assert(v.spec_item(disk1, 157) == list[157]);
            let g = (p - 158) / 129;
            let r = (p - 158) % 129;
            let pg = 158 + g * 129;
            lemma_div_mod_129(g, 0);
            assert(v.spec_item(disk1, pg) == list[pg]);
            let level1 = spec_entry(disk1, v.indirect2, g);
            assert(level1 == list[pg]);
            if pb == 157 {
                assert(g != i);
                lemma_get_set_u32_other(disk1[blk as int], 4 * i, val, 4 * g);
            } else {
                assert(list[157] != list[pb]);
            }
            assert(spec_entry(disk2, v.indirect2, g) == level1);
            if r != 0 {
                if pb == pg {
                    lemma_get_set_u32_other(disk1[blk as int], 4 * i, val, 4 * (r - 1));
                } else {
                    assert(list[pg] != list[pb]);
                }
            }
        }
    }
    if pb == 28 {
    } else if pb == 157 {
        lemma_div_mod_129(i, 0);
    } else {
        let g = (pb - 158) / 129;
        assert(pb - 158 == g * 129);
        lemma_div_mod_129(g, 1 + i);
        lemma_div_mod_129(g, 0);
        assert(v.spec_item(disk1, 157) == list[157]);
        assert(list[157] != list[pb]);
        assert(spec_entry(disk1, v.indirect2, g) == v.spec_item(disk1, pb));
    }
}

/// `block` with its first `m` entries set to 0.
pub open spec fn spec_zero_entries(block: Seq<u8>, m: int) -> Seq<u8>
    decreases m,
{
    if m <= 0 {
        block
    } else {
        spec_set_u32(spec_zero_entries(block, m - 1), 4 * (m - 1), 0)
    }
}

/// Setting the first `m` entries to 0 keeps the length and the entries from
/// `m` on.
pub proof fn lemma_zero_entries(block: Seq<u8>, m: int, i: int)
    requires
        block.len() == BLOCK_SIZE,
        0 <= m <= 128,
        m <= i < 128,
    ensures
        spec_zero_entries(block, m).len() == BLOCK_SIZE,
        spec_get_u32(spec_zero_entries(block, m), 4 * i) == spec_get_u32(block, 4 * i),
    decreases m,
{
    if m > 0 {
        lemma_zero_entries(block, m - 1, i);
        lemma_get_set_u32_other(spec_zero_entries(block, m - 1), 4 * (m - 1), 0, 4 * i);
    }
}

/// The byte that stands for an inode type on disk.
pub open spec fn spec_type_byte(type_: DiskInodeType) -> u8 {
    match type_ {
        DiskInodeType::File => 0u8,
        DiskInodeType::Directory => 1u8,
    }
}

/// The first `n` direct slots, each stored little-endian, one after another.
pub open spec fn spec_direct_bytes(direct: Seq<u32>, n: int) -> Seq<u8>
    decreases n,
{
    if n <= 0 {
        Seq::empty()
    } else {
        spec_direct_bytes(direct, n - 1) + spec_u32_to_le_bytes(direct[n - 1])
    }
}

/// The 125 bytes of an inode on disk: size, 28 direct slots, the two index
/// slots, each a little-endian `u32`, and the type byte.
pub open spec fn spec_inode_bytes(v: DiskInodeView) -> Seq<u8> {
    spec_u32_to_le_bytes(v.size as u32) + spec_direct_bytes(v.direct, 28) + spec_u32_to_le_bytes(
        v.indirect1,
    ) + spec_u32_to_le_bytes(v.indirect2) + seq![spec_type_byte(v.type_)]
}

/// The inode stored at byte offset `off` of `block`.
pub open spec fn spec_decode_inode(block: Seq<u8>, off: int) -> DiskInodeView {
    DiskInodeView {
        size: spec_get_u32(block, off) as int,
        direct: Seq::new(28, |i: int| spec_get_u32(block, off + 4 + 4 * i)),
        indirect1: spec_get_u32(block, off + 116),
        indirect2: spec_get_u32(block, off + 120),
        type_: if block[off + 124] == 1u8 {
            DiskInodeType::Directory
        } else {
            DiskInodeType::File
        },
    }
}

/// Length of the stored direct slots, and where each of them lies.
pub proof fn lemma_direct_bytes(direct: Seq<u32>, n: int, i: int)
    requires
        0 <= i < n,
    ensures
        spec_direct_bytes(direct, n).len() == 4 * n,
        spec_direct_bytes(direct, n).subrange(4 * i, 4 * i + 4) == spec_u32_to_le_bytes(direct[i]),
    decreases n,
{
    lemma_auto_u32_le();
    lemma_direct_len(direct, n - 1);
    let a = spec_direct_bytes(direct, n - 1);
    let b = spec_u32_to_le_bytes(direct[n - 1]);
    assert(spec_direct_bytes(direct, n) == a + b);
    if i < n - 1 {
        lemma_direct_bytes(direct, n - 1, i);
        assert((a + b).subrange(4 * i, 4 * i + 4) =~= a.subrange(4 * i, 4 * i + 4));
    } else {
        assert((a + b).subrange(4 * i, 4 * i + 4) =~= b);
    }
}

/// Length of the stored direct slots.
pub proof fn lemma_direct_len(direct: Seq<u32>, n: int)
    requires
        0 <= n,
    ensures
        spec_direct_bytes(direct, n).len() == 4 * n,
    decreases n,
{
    lemma_auto_u32_le();
    if n > 0 {
        lemma_direct_len(direct, n - 1);
    }
}

/// An inode is read back as it was stored.
pub proof fn lemma_inode_round_trip(block: Seq<u8>, off: int, v: DiskInodeView)
    requires
        0 <= off,
        off + 128 <= block.len(),
        0 <= v.size <= u32::MAX,
        v.direct.len() == 28,
    ensures
        spec_inode_bytes(v).len() == 125,
        spec_decode_inode(spec_splice(block, off, spec_inode_bytes(v)), off) == v,
{
    lemma_auto_u32_le();
    lemma_direct_len(v.direct, 28);
    let enc = spec_inode_bytes(v);
    let d = spec_direct_bytes(v.direct, 28);
    let stored = spec_splice(block, off, enc);
    assert(enc.len() == 125);
    assert(stored.subrange(off, off + 4) =~= spec_u32_to_le_bytes(v.size as u32));
    assert(stored.subrange(off + 116, off + 120) =~= spec_u32_to_le_bytes(v.indirect1));
    assert(stored.subrange(off + 120, off + 124) =~= spec_u32_to_le_bytes(v.indirect2));
    assert(stored[off + 124] == spec_type_byte(v.type_));
    let got = spec_decode_inode(stored, off);
    assert forall|i: int| 0 <= i < 28 implies got.direct[i] == v.direct[i] by {
        lemma_direct_bytes(v.direct, 28, i);
        assert(stored.subrange(off + 4 + 4 * i, off + 4 + 4 * i + 4) =~= d.subrange(
            4 * i,
            4 * i + 4,
        ));
    }
    assert(got.direct =~= v.direct);
}

/// The inode at `off` reads the same in two blocks that agree on the 125
/// bytes from `off` on.
pub proof fn lemma_decode_frame(block1: Seq<u8>, block2: Seq<u8>, off: int)
    requires
        0 <= off,
        off + 128 <= block1.len(),
        block1.len() == block2.len(),
        forall|i: int| off <= i < off + 125 ==> block1[i] == block2[i],
    ensures
        spec_decode_inode(block1, off) == spec_decode_inode(block2, off),
{
    assert(block1.subrange(off, off + 4) =~= block2.subrange(off, off + 4));
    assert(block1.subrange(off + 116, off + 120) =~= block2.subrange(off + 116, off + 120));
    assert(block1.subrange(off + 120, off + 124) =~= block2.subrange(off + 120, off + 124));
    let a = spec_decode_inode(block1, off);
    let b = spec_decode_inode(block2, off);
    assert forall|i: int| 0 <= i < 28 implies a.direct[i] == b.direct[i] by {
        assert(block1.subrange(off + 4 + 4 * i, off + 4 + 4 * i + 4) =~= block2.subrange(
            off + 4 + 4 * i,
            off + 4 + 4 * i + 4,
        ));
    }
    assert(a.direct =~= b.direct);
}

/// The place of a data block that a file does not have yet lies behind all
/// places that the file uses.
pub proof fn lemma_data_pos_beyond(k: int, data: int)
    requires
        0 <= data <= k,
    ensures
        spec_total_for(data) <= spec_data_pos(k),
{
    if k >= 156 {
        let g = (k - 156) / 128;
        let r = (k - 156) % 128;
        if data > 156 {
            let d = data - 156;
            let gd = (d + 127) / 128;
            assert(d <= k - 156);
            assert(d + gd <= 129 * g + 1 + r) by {
                assert(d <= 128 * g + r);
                assert(gd <= g + 1);
                if gd == g + 1 {
                    assert(d > 128 * g);
                }
            }
        }
    }
}

/// What growing a file does to the bytes of its data blocks, given what
/// `increase_size` promises: the inode as it was still reads as it did, the
/// bytes of the old data blocks stay, and the new data blocks hold what
/// they held.
pub proof fn lemma_grown(
    v0: DiskInodeView,
    v1: DiskInodeView,
    disk0: Seq<Seq<u8>>,
    disk1: Seq<Seq<u8>>,
    new_blocks: Seq<u32>,
)
    requires
        v0.wf(disk0),
        v1.wf(disk1),
        v0.size <= v1.size,
        disk1.len() == disk0.len(),
        spec_distinct_blocks(v0.spec_blocks(disk0) + new_blocks, disk0),
        v1.spec_blocks(disk1) == v0.spec_blocks(disk0) + new_blocks,
        forall|b: int|
            0 <= b < disk0.len() && (forall|p: int|
                0 <= p < spec_total_blocks(v1.size) && spec_is_index_pos(p) ==> (
                #[trigger] v1.spec_item(disk1, p)) != b) ==> (#[trigger] disk1[b]) == disk0[b],
    ensures
        forall|p: int|
            0 <= p < spec_total_blocks(v0.size) ==> (#[trigger] v0.spec_item(disk1, p))
                == v0.spec_item(disk0, p),
        v0.spec_raw(disk1) == v0.spec_raw(disk0),
        forall|i: int|
            0 <= i < spec_data_blocks(v0.size) * 512 ==> (#[trigger] v1.spec_byte(disk1, i))
                == v0.spec_byte(disk0, i),
        forall|k: int|
            spec_data_blocks(v0.size) <= k < spec_data_blocks(v1.size) ==> {
                &&& spec_total_blocks(v0.size) <= spec_data_pos(k) < spec_total_blocks(v1.size)
                &&& (#[trigger] v1.spec_block_id(disk1, k)) == new_blocks[spec_data_pos(k)
                    - spec_total_blocks(v0.size)]
                &&& disk1[v1.spec_block_id(disk1, k) as int] == disk0[v1.spec_block_id(
                    disk1,
                    k,
                ) as int]
            },
{
    let t0 = spec_total_blocks(v0.size);
    let t1 = spec_total_blocks(v1.size);
    let d0 = spec_data_blocks(v0.size);
    let d1 = spec_data_blocks(v1.size);
    let list = v0.spec_blocks(disk0) + new_blocks;
    assert(list.len() == t1);
    assert forall|p: int| 0 <= p < t1 implies (#[trigger] v1.spec_item(disk1, p)) == list[p] by {
        assert(v1.spec_blocks(disk1)[p] == list[p]);
    }
    assert forall|p: int| 0 <= p < t0 implies (#[trigger] v0.spec_item(disk0, p)) == list[p] by {
        assert(v0.spec_blocks(disk0)[p] == list[p]);
    }
    if d0 > 0 {
        lemma_data_pos(v0, disk0, d0 - 1, d0);
    }
    // the old inode reads its items as the new one does
    assert forall|p: int| 0 <= p < t0 implies (#[trigger] v0.spec_item(disk1, p)) == v0.spec_item(
        disk0,
        p,
    ) by {
        assert(v1.spec_item(disk1, p) == list[p]);
        if p < 28 {
        } else {
            assert(v1.spec_item(disk1, 28) == list[28]);
            assert(v0.spec_item(disk0, 28) == list[28]);
            if p > 157 {
                assert(v1.spec_item(disk1, 157) == list[157]);
                assert(v0.spec_item(disk0, 157) == list[157]);
            }
        }
    }
    // data blocks are no index blocks, so they are as they were
    assert forall|k: int| 0 <= k < d1 implies {
        &&& 0 <= spec_data_pos(k) < t1
        &&& (#[trigger] v1.spec_block_id(disk1, k)) == list[spec_data_pos(k)]
        &&& disk1[v1.spec_block_id(disk1, k) as int] == disk0[v1.spec_block_id(disk1, k) as int]
    } by {
        lemma_data_pos(v1, disk1, k, d1);
        lemma_data_pos_distinct(k, 0);
        let pk = spec_data_pos(k);
        let b = v1.spec_block_id(disk1, k) as int;
        assert(v1.spec_item(disk1, pk) == list[pk]);
        assert forall|p: int| 0 <= p < t1 && spec_is_index_pos(p) implies (
        #[trigger] v1.spec_item(disk1, p)) != b by {
            assert(v1.spec_item(disk1, p) != v1.spec_item(disk1, pk));
        }
        assert(list[pk] < disk0.len());
    }
    assert forall|i: int| 0 <= i < d0 * 512 implies (#[trigger] v1.spec_byte(disk1, i))
        == v0.spec_byte(disk0, i) by {
        let k = i / 512;
        lemma_data_pos(v0, disk0, k, d0);
        assert(v1.spec_block_id(disk1, k) == list[spec_data_pos(k)]);
        assert(v0.spec_item(disk0, spec_data_pos(k)) == list[spec_data_pos(k)]);
    }
    assert forall|i: int| 0 <= i < d0 * 512 implies v0.spec_byte(disk1, i) == v0.spec_byte(
        disk0,
        i,
    ) by {
        let k = i / 512;
        lemma_data_pos(v0, disk0, k, d0);
        lemma_data_pos(v0, disk1, k, d0);
        assert(v0.spec_item(disk1, spec_data_pos(k)) == v0.spec_item(disk0, spec_data_pos(k)));
        assert(v1.spec_block_id(disk1, k) == list[spec_data_pos(k)]);
        assert(v0.spec_item(disk0, spec_data_pos(k)) == list[spec_data_pos(k)]);
    }
    assert(v0.spec_raw(disk1) =~= v0.spec_raw(disk0));
    assert forall|k: int| d0 <= k < d1 implies {
        &&& t0 <= spec_data_pos(k) < t1
        &&& (#[trigger] v1.spec_block_id(disk1, k)) == new_blocks[spec_data_pos(k) - t0]
        &&& disk1[v1.spec_block_id(disk1, k) as int] == disk0[v1.spec_block_id(disk1, k) as int]
    } by {
        lemma_data_pos_beyond(k, d0);
        assert(v1.spec_block_id(disk1, k) == list[spec_data_pos(k)]);
    }
}

impl DiskInode {
    /// An empty file: size 0, all slots 0.
    pub fn new(type_: DiskInodeType) -> (inode: Self)
        ensures
            inode.size == 0,
            inode.indirect1 == 0,
            inode.indirect2 == 0,
            inode.type_ == type_,
            forall|i: int| 0 <= i < 28 ==> inode.direct[i] == 0,
    {
        DiskInode { size: 0, direct: [0u32; 28], indirect1: 0, indirect2: 0, type_ }
    }

    /// Makes the inode an empty file or directory.
    pub fn initialize(&mut self, type_: DiskInodeType)
        ensures
            final(self).size == 0,
            final(self).indirect1 == 0,
            final(self).indirect2 == 0,
            final(self).type_ == type_,
            forall|i: int| 0 <= i < 28 ==> final(self).direct[i] == 0,
    {
        self.size = 0;
        self.direct = [0u32; 28];
        self.indirect1 = 0;
        self.indirect2 = 0;
        self.type_ = type_;
    }

    /// Is the inode a directory?
    pub fn is_dir(&self) -> (r: bool)
        ensures
            r == (self.type_ == DiskInodeType::Directory),
    {
        self.type_ == DiskInodeType::Directory
    }

    /// Is the inode a file?
    pub fn is_file(&self) -> (r: bool)
        ensures
            r == (self.type_ == DiskInodeType::File),
    {
        self.type_ == DiskInodeType::File
    }

    /// Number of data blocks that hold `size` bytes.
    pub fn _data_blocks(size: u32) -> (r: u32)
        ensures
            r == spec_data_blocks(size as int),
    {
        ((size as u64 + BLOCK_SIZE as u64 - 1) / (BLOCK_SIZE as u64)) as u32
    }

    /// Number of data blocks of the file.
    pub fn data_blocks(&self) -> (r: u32)
        ensures
            r == spec_data_blocks(self.size as int),
    {
        Self::_data_blocks(self.size)
    }

    /// Number of blocks, index blocks included, that a file of `size` bytes
    /// takes.
    pub fn total_blocks(size: u32) -> (r: u32)
        ensures
            r == spec_total_blocks(size as int),
    {
        let data_blocks: usize = Self::_data_blocks(size) as usize;
        let mut total: usize = data_blocks;
        if data_blocks > DIRECT_BOUND {
            total += 1;
        }
        if data_blocks > INDIRECT1_BOUND {
            total += 1;
            total += (data_blocks - INDIRECT1_BOUND + INODE_INDIRECT1_COUNT - 1)
                / INODE_INDIRECT1_COUNT;
        }
        total as u32
    }

    /// Number of blocks to add for the file to grow to `new_size` bytes.
    pub fn blocks_num_needed(&self, new_size: u32) -> (r: u32)
        requires
            new_size >= self.size,
        ensures
            r == spec_total_blocks(new_size as int) - spec_total_blocks(self.size as int),
    {
        Self::total_blocks(new_size) - Self::total_blocks(self.size)
    }

    /// The id of data block `inner_id` of the file.
    pub fn get_block_id<D: BlockDevice>(
        &self,
        inner_id: u32,
        cache: &mut BlockCacheManager<D>,
    ) -> (id: u32)
        requires
            old(cache).wf(),
            inner_id < INDIRECT2_BOUND,
            inner_id >= DIRECT_BOUND && inner_id < INDIRECT1_BOUND ==> self.indirect1 < old(cache)@.len(),
            inner_id >= INDIRECT1_BOUND ==> self.indirect2 < old(cache)@.len() && spec_entry(
                old(cache)@,
                self.indirect2,
                (inner_id - 156) / 128,
            ) < old(cache)@.len(),
        ensures
            final(cache).wf(),
            final(cache)@ == old(cache)@,
            id == self@.spec_block_id(old(cache)@, inner_id as int),
    {
        let inner_id: usize = inner_id as usize;
        if inner_id < DIRECT_BOUND {
            self.direct[inner_id]
        } else if inner_id < INDIRECT1_BOUND {
            cache.read_u32(self.indirect1 as usize, 4 * (inner_id - DIRECT_BOUND))
        } else {
            let inner_id: usize = inner_id - INDIRECT1_BOUND;
            let indirect1_block_id: u32 = cache.read_u32(
                self.indirect2 as usize,
                4 * (inner_id / INODE_INDIRECT1_COUNT),
            );
            cache.read_u32(indirect1_block_id as usize, 4 * (inner_id % INODE_INDIRECT1_COUNT))
        }
    }

    /// Copies the bytes of the file from `offset` on into `buf`, as many as
    /// `buf` takes and the file has, and returns their number.
    pub fn read_at<D: BlockDevice>(
        &self,
        offset: usize,
        buf: &mut [u8],
        cache: &mut BlockCacheManager<D>,
    ) -> (n: usize)
        requires
            old(cache).wf(),
            self@.wf(old(cache)@),
            offset + old(buf)@.len() <= usize::MAX,
        ensures
            final(cache).wf(),
            final(cache)@ == old(cache)@,
            n == spec_clip(offset as int, old(buf)@.len() as int, self.size as int),
            final(buf)@ == spec_splice(
                old(buf)@,
                0,
                spec_window(self@.spec_content(old(cache)@), offset as int, n as int),
            ),
    {
        let ghost disk = cache@;
        let ghost content = self@.spec_content(disk);
        let len: usize = buf.len();
        let mut start: usize = offset;
        let end: usize = if offset + len < self.size as usize {
            offset + len
        } else {
            self.size as usize
        };
        if start >= end {
            assert(buf@ =~= spec_splice(buf@, 0, spec_window(content, offset as int, 0)));
            return 0;
        }
        let mut start_block: usize = start / BLOCK_SIZE;
        let mut read_size: usize = 0;
        loop
            invariant_except_break
                start < end,
                start == offset + read_size,
                start_block == start / 512,
                buf@ == spec_splice(old(buf)@, 0, spec_window(content, offset as int, start - offset)),
            invariant
                cache.wf(),
                cache@ == disk,
                self@.wf(disk),
                content == self@.spec_content(disk),
                len == old(buf)@.len(),
                buf@.len() == len,
                end <= offset + len,
                end <= self.size,
                offset <= start <= end,
            ensures
                read_size == end - offset,
                buf@ == spec_splice(old(buf)@, 0, spec_window(content, offset as int, end - offset)),
            decreases end - start,
        {
            let end_current_block: usize = if (start_block + 1) * BLOCK_SIZE < end {
                (start_block + 1) * BLOCK_SIZE
            } else {
                end
            };
            let block_read_size: usize = end_current_block - start;
            proof {
                cache.lemma_view_valid();
                lemma_lookup_in_range(self@, disk, start_block as int);
            }
            let block_id: u32 = self.get_block_id(start_block as u32, cache);
            let ghost buf_before = buf@;
            cache.read_bytes(
                block_id as usize,
                start % BLOCK_SIZE,
                buf,
                read_size,
                block_read_size,
            );
            proof {
                let src = disk[block_id as int].subrange(
                    (start % 512) as int,
                    (start % 512) + block_read_size,
                );
                assert(buf@ == spec_splice(buf_before, read_size as int, src));
                let goal = spec_splice(
                    old(buf)@,
                    0,
                    spec_window(content, offset as int, end_current_block - offset),
                );
                assert forall|i: int| 0 <= i < len implies buf@[i] == goal[i] by {
                    if read_size <= i < read_size + block_read_size {
                        let fi = offset + i;
                        assert(fi / 512 == start_block as int);
                        assert(fi % 512 == start % 512 + (i - read_size));
                        assert(content[fi] == self@.spec_byte(disk, fi));
                    } else if i < read_size {
                        assert(buf@[i] == buf_before[i]);
                    } else {
                        assert(buf@[i] == buf_before[i]);
                    }
                }
                assert(buf@ =~= goal);
            }
            read_size += block_read_size;
            if end_current_block == end {
                break;
            }
            start_block += 1;
            start = end_current_block;
        }
        read_size
    }

    /// Grows the file to `new_size` bytes, taking the ids of the blocks it
    /// needs from `new_blocks` in order: for the free direct slots, then for
    /// the indirect block and its entries, then for the doubly indirect block
    /// and, for each indirect block behind it, for that block and its entries.
    #[verifier::loop_isolation(false)]
    #[verifier::rlimit(50)]
    pub fn increase_size<D: BlockDevice>(
        &mut self,
        new_size: u32,
        new_blocks: Vec<u32>,
        cache: &mut BlockCacheManager<D>,
    )
        requires
            old(cache).wf(),
            old(self)@.wf(old(cache)@),
            old(self).size <= new_size <= MAX_FILE_SIZE,
            new_blocks.len() == spec_total_blocks(new_size as int) - spec_total_blocks(
                old(self).size as int,
            ),
            spec_distinct_blocks(old(self)@.spec_blocks(old(cache)@) + new_blocks@, old(cache)@),
        ensures
            final(cache).wf(),
            final(cache)@.len() == old(cache)@.len(),
            final(self).size == new_size,
            final(self).type_ == old(self).type_,
            final(self)@.spec_blocks(final(cache)@) == old(self)@.spec_blocks(old(cache)@)
                + new_blocks@,
            final(self)@.wf(final(cache)@),
            forall|b: int|
                0 <= b < old(cache)@.len() && (forall|p: int|
                    0 <= p < spec_total_blocks(new_size as int) && spec_is_index_pos(p) ==> (
                    #[trigger] final(self)@.spec_item(final(cache)@, p)) != b) ==> (
                #[trigger] final(cache)@[b]) == old(cache)@[b],
            forall|i: int|
                spec_data_blocks(new_size as int) <= i < 28 ==> final(self).direct[i] == old(self).direct[i],
            spec_data_blocks(new_size as int) <= 28 ==> final(self).indirect1 == old(self).indirect1,
            spec_data_blocks(new_size as int) <= 156 ==> final(self).indirect2 == old(self).indirect2,
    {
        let ghost disk0 = cache@;
        let ghost v0 = self@;
        let ghost t0 = spec_total_blocks(self.size as int);
        let ghost t1 = spec_total_blocks(new_size as int);
        let ghost d1 = spec_data_blocks(new_size as int);
        let ghost list = v0.spec_blocks(disk0) + new_blocks@;
        let ghost mut pos: int = t0;
        proof {
            cache.lemma_view_valid();
            assert forall|p: int| 0 <= p < t0 implies (#[trigger] self@.spec_item(cache@, p))
                == list[p] by {
                assert(list[p] == v0.spec_blocks(disk0)[p]);
            }
            assert(list.len() == t1);
        }
        let mut current_blocks: u32 = self.data_blocks();
        self.size = new_size;
        let mut total_blocks: u32 = self.data_blocks();
        let mut next: usize = 0;
        // the free direct slots
        while current_blocks < total_blocks && current_blocks < INODE_DIRECT_COUNT as u32
            invariant
                cache@ == disk0,
                self.size == new_size,
                self.type_ == v0.type_,
                self.indirect1 == v0.indirect1,
                self.indirect2 == v0.indirect2,
                total_blocks == d1,
                current_blocks <= total_blocks,
                t0 <= pos <= t1,
                next == pos - t0,
                current_blocks <= 28 ==> pos == current_blocks,
                current_blocks > 28 ==> pos == t0 && current_blocks == spec_data_blocks(v0.size),
                forall|p: int| 0 <= p < pos ==> (#[trigger] self@.spec_item(cache@, p)) == list[p],
                forall|i: int| current_blocks <= i < 28 ==> self.direct[i] == v0.direct[i],
            decreases total_blocks - current_blocks,
        {
            let ghost before = self@;
            self.direct[current_blocks as usize] = new_blocks[next];
            proof {
                assert(new_blocks@[next as int] == list[pos]);
                assert forall|p: int| 0 <= p < pos + 1 implies (#[trigger] self@.spec_item(
                    cache@,
                    p,
                )) == list[p] by {
                    if p < pos {
                        assert(before.spec_item(cache@, p) == list[p]);
                    }
                }
                pos = pos + 1;
            }
            next += 1;
            current_blocks += 1;
        }
        if total_blocks <= INODE_DIRECT_COUNT as u32 {
            proof {
                assert(self@.spec_blocks(cache@) =~= list);
            }
            return ;
        }
        // the indirect block
        if current_blocks == INODE_DIRECT_COUNT as u32 {
            let ghost before = self@;
            self.indirect1 = new_blocks[next];
            proof {
                assert(new_blocks@[next as int] == list[pos]);
                assert forall|p: int| 0 <= p < pos + 1 implies (#[trigger] self@.spec_item(
                    cache@,
                    p,
                )) == list[p] by {
                    if p < pos {
                        assert(before.spec_item(cache@, p) == list[p]);
                    }
                }
                pos = pos + 1;
            }
            next += 1;
        }
        current_blocks -= INODE_DIRECT_COUNT as u32;
        total_blocks -= INODE_DIRECT_COUNT as u32;
        assert(self@.spec_item(cache@, 28) == list[28]);
        assert(list[28] < disk0.len());
        assert forall|i: int| 0 <= i < 28 implies self.direct[i] == list[i] by {
            assert(self@.spec_item(cache@, i) == list[i]);
        }
        while current_blocks < total_blocks && current_blocks < INODE_INDIRECT1_COUNT as u32
            invariant
                cache.wf(),
                cache@.len() == disk0.len(),
                spec_valid_blocks(cache@),
                self.size == new_size,
                self.type_ == v0.type_,
                self.indirect1 == list[28],
                self.indirect2 == v0.indirect2,
                forall|i: int| 0 <= i < 28 ==> self.direct[i] == list[i],
                total_blocks == d1 - 28,
                current_blocks <= total_blocks,
                t0 <= pos <= t1,
                28 < pos,
                next == pos - t0,
                current_blocks <= 128 ==> pos == 29 + current_blocks,
                current_blocks > 128 ==> pos == t0 && current_blocks == spec_data_blocks(v0.size)
                    - 28,
                forall|p: int| 0 <= p < pos ==> (#[trigger] self@.spec_item(cache@, p)) == list[p],
                forall|b: int|
                    0 <= b < disk0.len() && b != list[28] ==> (#[trigger] cache@[b]) == disk0[b],
            decreases total_blocks - current_blocks,
        {
            let ghost disk1 = cache@;
            let val: u32 = new_blocks[next];
            cache.modify_u32(self.indirect1 as usize, 4 * (current_blocks as usize), val);
            proof {
                assert(val == list[pos]);
                lemma_write_slot(self@, disk1, cache@, list, pos, 28, current_blocks as int, val);
                pos = pos + 1;
            }
            next += 1;
            current_blocks += 1;
        }
        if total_blocks <= INODE_INDIRECT1_COUNT as u32 {
            proof {
                assert(self@.spec_blocks(cache@) =~= list);
                assert(spec_is_index_pos(28));
                assert forall|b: int|
                    0 <= b < disk0.len() && (forall|p: int|
                        0 <= p < t1 && spec_is_index_pos(p) ==> (#[trigger] self@.spec_item(
                            cache@,
                            p,
                        )) != b) implies (#[trigger] cache@[b]) == disk0[b] by {
                    assert(self@.spec_item(cache@, 28) != b);
                }
            }
            return ;
        }
        // the doubly indirect block
        if current_blocks == INODE_INDIRECT1_COUNT as u32 {
            let ghost before = self@;
            self.indirect2 = new_blocks[next];
            proof {
                assert(new_blocks@[next as int] == list[pos]);
                assert forall|p: int| 0 <= p < pos + 1 implies (#[trigger] self@.spec_item(
                    cache@,
                    p,
                )) == list[p] by {
                    if p < pos {
                        assert(before.spec_item(cache@, p) == list[p]);
                    }
                }
                pos = pos + 1;
            }
            next += 1;
        }
        current_blocks -= INODE_INDIRECT1_COUNT as u32;
        total_blocks -= INODE_INDIRECT1_COUNT as u32;
        let mut a0: usize = current_blocks as usize / INODE_INDIRECT1_COUNT;
        let mut b0: usize = current_blocks as usize % INODE_INDIRECT1_COUNT;
        let a1: usize = total_blocks as usize / INODE_INDIRECT1_COUNT;
        let b1: usize = total_blocks as usize % INODE_INDIRECT1_COUNT;
        assert(self@.spec_item(cache@, 157) == list[157]);
        assert(list[157] < disk0.len());
        assert(pos == 158 + 129 * a0 + (if b0 == 0 {
            0int
        } else {
            1 + b0
        }));
        assert(t1 == 158 + 129 * a1 + (if b1 == 0 {
            0int
        } else {
            1 + b1
        }));
        while (a0 < a1) || (a0 == a1 && b0 < b1)
            invariant
                cache.wf(),
                cache@.len() == disk0.len(),
                spec_valid_blocks(cache@),
                self.size == new_size,
                self.type_ == v0.type_,
                self.indirect1 == list[28],
                self.indirect2 == list[157],
                forall|i: int| 0 <= i < 28 ==> self.direct[i] == list[i],
                a0 < a1 || (a0 == a1 && b0 <= b1),
                a1 <= 128,
                b0 < 128,
                b1 < 128,
                a1 == 128 ==> b1 == 0,
                t0 <= pos <= t1,
                157 < pos,
                next == pos - t0,
                pos == 158 + 129 * a0 + (if b0 == 0 {
                    0int
                } else {
                    1 + b0
                }),
                t1 == 158 + 129 * a1 + (if b1 == 0 {
                    0int
                } else {
                    1 + b1
                }),
                forall|p: int| 0 <= p < pos ==> (#[trigger] self@.spec_item(cache@, p)) == list[p],
                forall|b: int|
                    0 <= b < disk0.len() && (forall|p: int|
                        0 <= p < pos && spec_is_index_pos(p) ==> (#[trigger] list[p]) != b) ==> (
                    #[trigger] cache@[b]) == disk0[b],
            decreases t1 - pos,
        {
            let ghost group = 158 + 129 * a0;
            if b0 == 0 {
                let ghost disk1 = cache@;
                let val: u32 = new_blocks[next];
                cache.modify_u32(self.indirect2 as usize, 4 * a0, val);
                proof {
                    assert(val == list[pos]);
                    lemma_write_slot(self@, disk1, cache@, list, pos, 157, a0 as int, val);
                    assert(spec_is_index_pos(157));
                    assert forall|b: int|
                        0 <= b < disk0.len() && (forall|p: int|
                            0 <= p < pos + 1 && spec_is_index_pos(p) ==> (#[trigger] list[p])
                                != b) implies (#[trigger] cache@[b]) == disk0[b] by {
                        assert(list[157] != b);
                        assert(forall|p: int|
                            0 <= p < pos && spec_is_index_pos(p) ==> (#[trigger] list[p]) != b);
                        assert(disk1[b] == disk0[b]);
                    }
                    pos = pos + 1;
                }
                next += 1;
            }
            proof {
                lemma_div_mod_129(a0 as int, 0);
                assert(self@.spec_item(cache@, group) == list[group]);
                assert(list[group] < disk0.len());
            }
            let level1: u32 = cache.read_u32(self.indirect2 as usize, 4 * a0);
            assert(level1 == list[group]);
            let ghost disk1 = cache@;
            let val: u32 = new_blocks[next];
            cache.modify_u32(level1 as usize, 4 * b0, val);
            proof {
                assert(val == list[pos]);
                lemma_write_slot(self@, disk1, cache@, list, pos, group, b0 as int, val);
                assert(spec_is_index_pos(group));
                assert forall|b: int|
                    0 <= b < disk0.len() && (forall|p: int|
                        0 <= p < pos + 1 && spec_is_index_pos(p) ==> (#[trigger] list[p])
                            != b) implies (#[trigger] cache@[b]) == disk0[b] by {
                    assert(list[group] != b);
                    assert(forall|p: int|
                        0 <= p < pos && spec_is_index_pos(p) ==> (#[trigger] list[p]) != b);
                    assert(disk1[b] == disk0[b]);
                }
                pos = pos + 1;
            }
            next += 1;
            b0 += 1;
            if b0 == INODE_INDIRECT1_COUNT {
                b0 = 0;
                a0 += 1;
            }
        }
        proof {
            assert(pos == t1);
            assert(self@.spec_blocks(cache@) =~= list);
            assert forall|b: int|
                0 <= b < disk0.len() && (forall|p: int|
                    0 <= p < t1 && spec_is_index_pos(p) ==> (#[trigger] self@.spec_item(cache@, p))
                        != b) implies (#[trigger] cache@[b]) == disk0[b] by {
                assert forall|p: int| 0 <= p < pos && spec_is_index_pos(p) implies (
                #[trigger] list[p]) != b by {
                    assert(self@.spec_item(cache@, p) == list[p]);
                }
            }
        }
    }

    /// Empties the file and returns the ids of all its blocks, index blocks
    /// included, in the order in which `increase_size` consumed them.
    ///
    /// The direct slots that were in use and the two index slots are set to
    /// 0, and so are the used entries of the indirect block.
    #[verifier::loop_isolation(false)]
    #[verifier::rlimit(50)]
    pub fn clear_size<D: BlockDevice>(&mut self, cache: &mut BlockCacheManager<D>) -> (freed: Vec<
        u32,
    >)
        requires
            old(cache).wf(),
            old(self)@.wf(old(cache)@),
        ensures
            final(cache).wf(),
            final(cache)@.len() == old(cache)@.len(),
            freed@ == old(self)@.spec_blocks(old(cache)@),
            freed@.len() == spec_total_blocks(old(self).size as int),
            final(self).size == 0,
            final(self).type_ == old(self).type_,
            forall|i: int|
                0 <= i < 28 ==> final(self).direct[i] == (if i < spec_data_blocks(
                    old(self).size as int,
                ) {
                    0u32
                } else {
                    old(self).direct[i]
                }),
            final(self).indirect1 == (if spec_data_blocks(old(self).size as int) > 28 {
                0u32
            } else {
                old(self).indirect1
            }),
            final(self).indirect2 == (if spec_data_blocks(old(self).size as int) > 156 {
                0u32
            } else {
                old(self).indirect2
            }),
            final(cache)@ == (if spec_data_blocks(old(self).size as int) > 28 {
                old(cache)@.update(
                    old(self).indirect1 as int,
                    spec_zero_entries(
                        old(cache)@[old(self).indirect1 as int],
                        if spec_data_blocks(old(self).size as int) - 28 < 128 {
                            spec_data_blocks(old(self).size as int) - 28
                        } else {
                            128
                        },
                    ),
                )
            } else {
                old(cache)@
            }),
    {
        let ghost disk0 = cache@;
        let ghost v0 = self@;
        let ghost t0 = spec_total_blocks(self.size as int);
        let ghost d0 = spec_data_blocks(self.size as int);
        proof {
            cache.lemma_view_valid();
        }
        let mut v: Vec<u32> = Vec::new();
        let mut data_blocks: usize = self.data_blocks() as usize;
        self.size = 0;
        let mut current_block: usize = 0;
        // the direct slots
        while current_block < data_blocks && current_block < INODE_DIRECT_COUNT
            invariant
                cache@ == disk0,
                self.size == 0,
                self.type_ == v0.type_,
                self.indirect1 == v0.indirect1,
                self.indirect2 == v0.indirect2,
                data_blocks == d0,
                current_block <= 28,
                current_block <= data_blocks,
                v@.len() == current_block,
                forall|p: int| 0 <= p < current_block ==> v@[p] == v0.spec_item(disk0, p),
                forall|i: int|
                    0 <= i < 28 ==> self.direct[i] == (if i < current_block {
                        0u32
                    } else {
                        v0.direct[i]
                    }),
            decreases data_blocks - current_block,
        {
            v.push(self.direct[current_block]);
            self.direct[current_block] = 0;
            current_block += 1;
        }
        if data_blocks <= INODE_DIRECT_COUNT {
            proof {
                assert(v@ =~= v0.spec_blocks(disk0));
            }
            return v;
        }
        // the indirect block
        let indirect1: u32 = self.indirect1;
        let ghost block1 = disk0[indirect1 as int];
        proof {
            assert(v0.spec_item(disk0, 28) == indirect1);
            assert(indirect1 < disk0.len());
        }
        v.push(indirect1);
        data_blocks -= INODE_DIRECT_COUNT;
        current_block = 0;
        assert(cache@ =~= disk0.update(indirect1 as int, spec_zero_entries(block1, 0)));
        while current_block < data_blocks && current_block < INODE_INDIRECT1_COUNT
            invariant
                cache.wf(),
                cache@ == disk0.update(
                    indirect1 as int,
                    spec_zero_entries(block1, current_block as int),
                ),
                self.size == 0,
                self.type_ == v0.type_,
                self.indirect1 == v0.indirect1,
                self.indirect2 == v0.indirect2,
                data_blocks == d0 - 28,
                current_block <= 128,
                current_block <= data_blocks,
                v@.len() == 29 + current_block,
                forall|p: int| 0 <= p < 29 + current_block ==> v@[p] == v0.spec_item(disk0, p),
                forall|i: int| 0 <= i < 28 ==> self.direct[i] == 0,
            decreases data_blocks - current_block,
        {
            proof {
                lemma_zero_entries(block1, current_block as int, current_block as int);
            }
            let entry: u32 = cache.read_u32(indirect1 as usize, 4 * current_block);
            cache.modify_u32(indirect1 as usize, 4 * current_block, 0);
            assert(entry == v0.spec_item(disk0, 29 + current_block));
            v.push(entry);
            current_block += 1;
            assert(cache@ =~= disk0.update(
                indirect1 as int,
                spec_zero_entries(block1, current_block as int),
            ));
        }
        self.indirect1 = 0;
        if data_blocks <= INODE_INDIRECT1_COUNT {
            proof {
                assert(v@ =~= v0.spec_blocks(disk0));
            }
            return v;
        }
        // the doubly indirect block
        let indirect2: u32 = self.indirect2;
        let ghost disk1 = cache@;
        proof {
            assert(v0.spec_item(disk0, 157) == indirect2);
            assert(indirect2 < disk0.len());
            assert(indirect2 != indirect1) by {
                assert(v0.spec_item(disk0, 157) != v0.spec_item(disk0, 28));
            }
        }
        v.push(indirect2);
        data_blocks -= INODE_INDIRECT1_COUNT;
        let a1: usize = data_blocks / INODE_INDIRECT1_COUNT;
        let b1: usize = data_blocks % INODE_INDIRECT1_COUNT;
        assert(t0 == 158 + 129 * a1 + (if b1 == 0 {
            0int
        } else {
            1 + b1
        }));
        let mut a0: usize = 0;
        while a0 < a1 || (a0 == a1 && b1 > 0)
            invariant
                cache.wf(),
                cache@ == disk1,
                self.size == 0,
                self.type_ == v0.type_,
                self.indirect1 == 0,
                self.indirect2 == v0.indirect2,
                forall|i: int| 0 <= i < 28 ==> self.direct[i] == 0,
                a0 <= a1 + 1,
                a0 == a1 + 1 ==> b1 > 0,
                a1 <= 128,
                a1 == 128 ==> b1 == 0,
                v@.len() == (if a0 <= a1 {
                    158 + 129 * a0
                } else {
                    t0
                }),
                forall|p: int| 0 <= p < v@.len() ==> v@[p] == v0.spec_item(disk0, p),
            decreases a1 + 1 - a0,
        {
            let ghost group = 158 + 129 * a0;
            let count: usize = if a0 < a1 {
                INODE_INDIRECT1_COUNT
            } else {
                b1
            };
            proof {
                lemma_div_mod_129(a0 as int, 0);
                assert(v0.spec_item(disk0, group) < disk0.len());
            }
            let level1: u32 = cache.read_u32(indirect2 as usize, 4 * a0);
            proof {
                assert(level1 == v0.spec_item(disk0, group));
                assert(level1 != indirect1) by {
                    assert(v0.spec_item(disk0, group) != v0.spec_item(disk0, 28));
                }
            }
            v.push(level1);
            let mut b0: usize = 0;
            while b0 < count
                invariant
                    cache.wf(),
                    cache@ == disk1,
                    b0 <= count <= 128,
                    v@.len() == group + 1 + b0,
                    forall|p: int| 0 <= p < v@.len() ==> v@[p] == v0.spec_item(disk0, p),
                decreases count - b0,
            {
                proof {
                    lemma_div_mod_129(a0 as int, 1 + b0);
                }
                let entry: u32 = cache.read_u32(level1 as usize, 4 * b0);
                assert(entry == v0.spec_item(disk0, group + 1 + b0));
                v.push(entry);
                b0 += 1;
            }
            a0 += 1;
        }
        self.indirect2 = 0;
        proof {
            assert(v@.len() == t0);
            assert(v@ =~= v0.spec_blocks(disk0));
        }
        v
    }

    /// Reads the inode stored at byte `offset` of block `block_id`.
    pub fn load<D: BlockDevice>(
        cache: &mut BlockCacheManager<D>,
        block_id: usize,
        offset: usize,
    ) -> (inode: Self)
        requires
            old(cache).wf(),
            block_id < old(cache)@.len(),
            offset + 128 <= BLOCK_SIZE,
        ensures
            final(cache).wf(),
            final(cache)@ == old(cache)@,
            inode@ == spec_decode_inode(old(cache)@[block_id as int], offset as int),
    {
        let ghost block = cache@[block_id as int];
        let mut inode = DiskInode::new(DiskInodeType::File);
        inode.size = cache.read_u32(block_id, offset);
        let mut i: usize = 0;
        while i < INODE_DIRECT_COUNT
            invariant
                i <= 28,
                cache.wf(),
                cache@ == old(cache)@,
                block_id < cache@.len(),
                offset + 128 <= BLOCK_SIZE,
                block == cache@[block_id as int],
                inode.size == spec_get_u32(block, offset as int),
                inode.type_ == DiskInodeType::File,
                forall|k: int|
                    0 <= k < i ==> inode.direct[k] == spec_get_u32(block, offset + 4 + 4 * k),
            decreases 28 - i,
        {
            inode.direct[i] = cache.read_u32(block_id, offset + 4 + 4 * i);
            i += 1;
        }
        inode.indirect1 = cache.read_u32(block_id, offset + 116);
        inode.indirect2 = cache.read_u32(block_id, offset + 120);
        let mut type_byte: Vec<u8> = vec![0u8; 1];
        cache.read_bytes(block_id, offset + 124, type_byte.as_mut_slice(), 0, 1);
        if type_byte[0] == 1 {
            inode.type_ = DiskInodeType::Directory;
        }
        proof {
            cache.lemma_view_valid();
            assert(type_byte@[0] == block.subrange(offset + 124, offset + 125)[0]);
            assert(inode@.direct =~= spec_decode_inode(block, offset as int).direct);
        }
        inode
    }

    /// The 125 bytes of the inode on disk.
    pub fn to_bytes(&self) -> (bytes: Vec<u8>)
        ensures
            bytes@ == spec_inode_bytes(self@),
    {
        let mut bytes: Vec<u8> = u32_to_le_bytes(self.size);
        let ghost head = bytes@;
        let mut i: usize = 0;
        while i < INODE_DIRECT_COUNT
            invariant
                i <= 28,
                head == spec_u32_to_le_bytes(self.size),
                bytes@ == head + spec_direct_bytes(self.direct@, i as int),
            decreases 28 - i,
        {
            let le = u32_to_le_bytes(self.direct[i]);
            let ghost before = bytes@;
            bytes.extend_from_slice(le.as_slice());
            i += 1;
            assert(bytes@ =~= head + spec_direct_bytes(self.direct@, i as int));
        }
        let le1 = u32_to_le_bytes(self.indirect1);
        bytes.extend_from_slice(le1.as_slice());
        let le2 = u32_to_le_bytes(self.indirect2);
        bytes.extend_from_slice(le2.as_slice());
        let type_byte: u8 = match self.type_ {
            DiskInodeType::File => 0,
            DiskInodeType::Directory => 1,
        };
        bytes.push(type_byte);
        assert(bytes@ =~= spec_inode_bytes(self@));
        bytes
    }

    /// Writes the inode to byte `offset` of block `block_id`.
    pub fn store<D: BlockDevice>(
        &self,
        cache: &mut BlockCacheManager<D>,
        block_id: usize,
        offset: usize,
    )
        requires
            old(cache).wf(),
            block_id < old(cache)@.len(),
            offset + 128 <= BLOCK_SIZE,
        ensures
            final(cache).wf(),
            final(cache)@ == old(cache)@.update(
                block_id as int,
                spec_splice(old(cache)@[block_id as int], offset as int, spec_inode_bytes(self@)),
            ),
            spec_decode_inode(final(cache)@[block_id as int], offset as int) == self@,
    {
        proof {
            cache.lemma_view_valid();
            lemma_inode_round_trip(cache@[block_id as int], offset as int, self@);
        }
        let bytes = self.to_bytes();
        cache.modify_bytes(block_id, offset, bytes.as_slice());
    }

    /// Copies `buf` over the bytes of the file from `offset` on, as far as
    /// the file reaches, and returns the number of bytes copied. The size of
    /// the file stays: grow the file first.
    pub fn write_at<D: BlockDevice>(
        &mut self,
        offset: usize,
        buf: &[u8],
        cache: &mut BlockCacheManager<D>,
    ) -> (n: usize)
        requires
            old(cache).wf(),
            old(self)@.wf(old(cache)@),
            offset + buf@.len() <= usize::MAX,
        ensures
            *final(self) == *old(self),
            final(cache).wf(),
            final(cache)@.len() == old(cache)@.len(),
            n == spec_clip(offset as int, buf@.len() as int, old(self).size as int),
            final(self)@.wf(final(cache)@),
            forall|p: int|
                0 <= p < spec_total_blocks(old(self).size as int) ==> (#[trigger] old(self)@.spec_item(final(cache)@, p)) == old(self)@.spec_item(old(cache)@, p),
            forall|k: int|
                offset / 512 <= k && k * 512 < offset + n ==> final(cache)@[(#[trigger] old(self)@.spec_block_id(old(cache)@, k)) as int] == spec_block_written(
                    old(cache)@[old(self)@.spec_block_id(old(cache)@, k) as int],
                    k,
                    offset as int,
                    buf@,
                    offset + n,
                ),
            forall|b: int|
                0 <= b < old(cache)@.len() && (forall|k: int|
                    offset / 512 <= k && k * 512 < offset + n ==> (#[trigger] old(self)@.spec_block_id(old(cache)@, k)) != b) ==> (#[trigger] final(cache)@[b])
                    == old(cache)@[b],
            final(self)@.spec_content(final(cache)@) == spec_splice(
                old(self)@.spec_content(old(cache)@),
                offset as int,
                buf@.subrange(0, n as int),
            ),
    {
        let ghost disk0 = cache@;
        let ghost v = self@;
        let ghost total = spec_total_blocks(self.size as int);
        let ghost data = spec_data_blocks(self.size as int);
        let len: usize = buf.len();
        let mut start: usize = offset;
        let end: usize = if offset + len < self.size as usize {
            offset + len
        } else {
            self.size as usize
        };
        if start >= end {
            assert(v.spec_content(disk0) =~= spec_splice(
                v.spec_content(disk0),
                offset as int,
                buf@.subrange(0, 0),
            ));
            return 0;
        }
        let first_block: usize = start / BLOCK_SIZE;
        let mut start_block: usize = first_block;
        let mut write_size: usize = 0;
        loop
            invariant_except_break
                start < end,
                start == offset + write_size,
                start_block == start / 512,
                start == (if offset > 512 * start_block {
                    offset as int
                } else {
                    512 * start_block
                }),
                forall|b: int|
                    0 <= b < disk0.len() && (forall|k: int|
                        first_block <= k < start_block ==> (#[trigger] v.spec_block_id(disk0, k))
                            != b) ==> (#[trigger] cache@[b]) == disk0[b],
                forall|k: int|
                    first_block <= k < start_block ==> cache@[(#[trigger] v.spec_block_id(
                        disk0,
                        k,
                    )) as int] == spec_block_written(
                        disk0[v.spec_block_id(disk0, k) as int],
                        k,
                        offset as int,
                        buf@,
                        end as int,
                    ),
            invariant
                *self == *old(self),
                v == self@,
                first_block == offset / 512,
                cache.wf(),
                cache@.len() == disk0.len(),
                v.wf(disk0),
                spec_valid_blocks(disk0),
                len == buf@.len(),
                end <= offset + len,
                end <= self.size,
                offset <= start <= end,
                first_block <= start_block,
                total == spec_total_blocks(self.size as int),
                data == spec_data_blocks(self.size as int),
            ensures
                write_size == end - offset,
                forall|b: int|
                    0 <= b < disk0.len() && (forall|k: int|
                        first_block <= k && k * 512 < end ==> (#[trigger] v.spec_block_id(disk0, k))
                            != b) ==> (#[trigger] cache@[b]) == disk0[b],
                forall|k: int|
                    first_block <= k && k * 512 < end ==> cache@[(#[trigger] v.spec_block_id(
                        disk0,
                        k,
                    )) as int] == spec_block_written(
                        disk0[v.spec_block_id(disk0, k) as int],
                        k,
                        offset as int,
                        buf@,
                        end as int,
                    ),
            decreases end - start,
        {
            let end_current_block: usize = if (start_block + 1) * BLOCK_SIZE < end {
                (start_block + 1) * BLOCK_SIZE
            } else {
                end
            };
            let block_write_size: usize = end_current_block - start;
            let ghost disk1 = cache@;
            proof {
                cache.lemma_view_valid();
                lemma_lookup_in_range(v, disk0, start_block as int);
                lemma_data_blocks_apart(v, disk0, start_block as int);
                Self::lemma_index_kept(v, disk0, disk1, first_block as int, start_block as int);
                lemma_data_pos(v, disk0, start_block as int, data);
                lemma_data_pos(v, disk1, start_block as int, data);
                assert(v.spec_item(disk1, 28) == v.spec_item(disk0, 28));
                if start_block >= 156 {
                    let pg = 158 + ((start_block - 156) / 128) * 129;
                    assert(v.spec_item(disk1, 157) == v.spec_item(disk0, 157));
                    assert(v.spec_item(disk1, pg) == v.spec_item(disk0, pg));
                }
                assert(v.spec_item(disk1, spec_data_pos(start_block as int)) == v.spec_item(
                    disk0,
                    spec_data_pos(start_block as int),
                ));
            }
            let block_id: u32 = self.get_block_id(start_block as u32, cache);
            assert(block_id == v.spec_block_id(disk0, start_block as int));
            let src = vstd::slice::slice_subrange(buf, write_size, write_size + block_write_size);
            cache.modify_bytes(block_id as usize, start % BLOCK_SIZE, src);
            proof {
                let disk2 = cache@;
                let bid = block_id as int;
                // the block was untouched so far
                assert(disk1[bid] == disk0[bid]) by {
                    assert forall|k: int| first_block <= k < start_block implies (
                    #[trigger] v.spec_block_id(disk0, k)) != bid by {}
                }
                assert(src@ =~= spec_window(buf@, start - offset, block_write_size as int));
                assert(disk2[bid] =~= spec_block_written(
                    disk0[bid],
                    start_block as int,
                    offset as int,
                    buf@,
                    end as int,
                ));
                assert forall|k: int| first_block <= k < start_block + 1 implies disk2[(
                #[trigger] v.spec_block_id(disk0, k)) as int] == spec_block_written(
                    disk0[v.spec_block_id(disk0, k) as int],
                    k,
                    offset as int,
                    buf@,
                    end as int,
                ) by {
                    if k < start_block {
                        lemma_lookup_in_range(v, disk0, k);
                        assert(v.spec_block_id(disk0, k) != bid);
                        assert(disk2[v.spec_block_id(disk0, k) as int] == disk1[v.spec_block_id(
                            disk0,
                            k,
                        ) as int]);
                    }
                }
                assert forall|b: int|
                    0 <= b < disk0.len() && (forall|k: int|
                        first_block <= k < start_block + 1 ==> (#[trigger] v.spec_block_id(
                            disk0,
                            k,
                        )) != b) implies (#[trigger] disk2[b]) == disk0[b] by {
                    assert(v.spec_block_id(disk0, start_block as int) != b);
                    assert(forall|k: int|
                        first_block <= k < start_block ==> (#[trigger] v.spec_block_id(disk0, k))
                            != b);
                    assert(disk1[b] == disk0[b]);
                }
            }
            write_size += block_write_size;
            if end_current_block == end {
                break;
            }
            start_block += 1;
            start = end_current_block;
        }
        proof {
            let disk2 = cache@;
            let last = (end - 1) / 512;
            Self::lemma_index_kept(v, disk0, disk2, first_block as int, last + 1);
            // well-formedness carries over
            assert(v.spec_items_ok(disk2, total)) by {
                assert forall|p: int| 0 <= p < total implies (#[trigger] v.spec_item(disk2, p))
                    < disk2.len() by {
                    assert(v.spec_item(disk0, p) < disk0.len());
                }
                assert forall|p: int, q: int| 0 <= p < total && 0 <= q < total && p != q implies (
                #[trigger] v.spec_item(disk2, p)) != (#[trigger] v.spec_item(disk2, q)) by {
                    assert(v.spec_item(disk0, p) != v.spec_item(disk0, q));
                }
            }
            // the content
            let c0 = v.spec_content(disk0);
            let c2 = v.spec_content(disk2);
            let goal = spec_splice(c0, offset as int, buf@.subrange(0, write_size as int));
            assert forall|i: int| 0 <= i < self.size implies c2[i] == goal[i] by {
                let k = i / 512;
                lemma_data_pos(v, disk0, k, data);
                lemma_data_pos(v, disk2, k, data);
                assert(v.spec_block_id(disk2, k) == v.spec_block_id(disk0, k));
                let bid = v.spec_block_id(disk0, k) as int;
                lemma_data_blocks_apart(v, disk0, k);
                if first_block <= k && k * 512 < end {
                    assert(disk2[bid] == spec_block_written(
                        disk0[bid],
                        k,
                        offset as int,
                        buf@,
                        end as int,
                    ));
                } else {
                    assert forall|j: int| first_block <= j && j * 512 < end implies (
                    #[trigger] v.spec_block_id(disk0, j)) != bid by {
                        assert(j < data);
                    }
                    assert(disk2[bid] == disk0[bid]);
                }
            }
            assert(c2 =~= goal);
        }
        write_size
    }

    /// While data blocks `first..next` of a well-formed inode are the only
    /// blocks that changed, the index of the file reads as before.
    proof fn lemma_index_kept(
        v: DiskInodeView,
        disk0: Seq<Seq<u8>>,
        disk1: Seq<Seq<u8>>,
        first: int,
        next: int,
    )
        requires
            v.wf(disk0),
            0 <= first,
            next <= spec_data_blocks(v.size),
            forall|b: int|
                0 <= b < disk0.len() && (forall|k: int|
                    first <= k < next ==> (#[trigger] v.spec_block_id(disk0, k)) != b) ==> (
                #[trigger] disk1[b]) == disk0[b],
        ensures
            forall|p: int|
                0 <= p < spec_total_blocks(v.size) ==> (#[trigger] v.spec_item(disk1, p))
                    == v.spec_item(disk0, p),
    {
        let total = spec_total_blocks(v.size);
        assert forall|p: int| 0 <= p < total && spec_is_index_pos(p) implies disk1[(
        #[trigger] v.spec_item(disk0, p)) as int] == disk0[v.spec_item(disk0, p) as int] by {
            let b = v.spec_item(disk0, p) as int;
            assert forall|k: int| first <= k < next implies (#[trigger] v.spec_block_id(disk0, k))
                != b by {
                lemma_data_blocks_apart(v, disk0, k);
            }
        }
        lemma_items_frame(v, disk0, disk1, total);
    }
}

/// The `n` items of `s` from `offset` on.
pub open spec fn spec_window(s: Seq<u8>, offset: int, n: int) -> Seq<u8> {
    Seq::new(n as nat, |i: int| s[offset + i])
}

/// How many bytes a transfer of `len` bytes at `offset` moves in a file of
/// `size` bytes.
pub open spec fn spec_clip(offset: int, len: int, size: int) -> int {
    let end = if offset + len < size {
        offset + len
    } else {
        size
    };
    if offset >= end {
        0
    } else {
        end - offset
    }
}

} // verus!
