//! The file system proper: where the areas lie, which inodes and data blocks
//! are in use, and what it means for an image to be consistent.
//!
//! ```text
//! block 0          super block
//! then             inode bitmap
//! then             inode area, 4 inodes of 128 bytes per block
//! then             data bitmap
//! then             data area
//! ```
//!
//! A consistent image (`spec_image_inv`) is one in which every inode in use
//! is well-formed, refers only to data-area blocks whose bits are set, and
//! shares no block with another inode in use; in which inode 0 is a
//! directory whose entries name inodes in use; and in which every data block
//! that is not in use holds zeros.
use crate::bitmap::{spec_bit, spec_bitmap_word, Bitmap};
use crate::block_cache::BlockCacheManager;
use crate::block_dev::{spec_valid_blocks, BlockDevice, BLOCK_SIZE};
use crate::bitmap::lemma_zero_word;
use crate::codec::{lemma_zero_le, spec_get_u32, spec_zeros};
use crate::vfs::Inode;
use crate::disk_inode::{
    lemma_data_pos, lemma_decode_frame, lemma_items_frame, spec_data_blocks, spec_decode_inode,
    spec_total_blocks, DiskInode, DiskInodeType, DiskInodeView,
};
use crate::layout::{spec_entry_inode, spec_entry_name, SuperBlock, EFS_MAGIC};
use vstd::prelude::*;
use vstd::utf8::valid_utf8;

verus! {

/// Where the areas of an image lie: the five counts of its super block.
pub struct Geometry {
    pub total_blocks: int,
    pub inode_bitmap_blocks: int,
    pub inode_area_blocks: int,
    pub data_bitmap_blocks: int,
    pub data_area_blocks: int,
}

impl Geometry {
    /// First block of the inode area.
    pub open spec fn inode_area_start(self) -> int {
        1 + self.inode_bitmap_blocks
    }

    /// First block of the data bitmap.
    pub open spec fn data_bitmap_start(self) -> int {
        1 + self.inode_bitmap_blocks + self.inode_area_blocks
    }

    /// First block of the data area.
    pub open spec fn data_area_start(self) -> int {
        1 + self.inode_bitmap_blocks + self.inode_area_blocks + self.data_bitmap_blocks
    }

    /// Number of inodes the image can hold.
    pub open spec fn max_inodes(self) -> int {
        self.inode_bitmap_blocks * 4096
    }

    /// Do the areas fill the image, fit on a device of `disk_len` blocks, and
    /// has every inode bit a slot and every data block a bit?
    pub open spec fn wf(self, disk_len: int) -> bool {
        &&& 1 <= self.inode_bitmap_blocks
        &&& 0 <= self.inode_area_blocks
        &&& 0 <= self.data_bitmap_blocks
        &&& 0 <= self.data_area_blocks
        &&& 1 + self.inode_bitmap_blocks + self.inode_area_blocks + self.data_bitmap_blocks
            + self.data_area_blocks == self.total_blocks
        &&& self.total_blocks <= disk_len
        &&& self.total_blocks <= u32::MAX
        &&& self.inode_bitmap_blocks * 4096 <= self.inode_area_blocks * 4
        &&& self.data_area_blocks <= self.data_bitmap_blocks * 4096
        &&& self.inode_bitmap_blocks * 4096 <= u32::MAX
        &&& self.data_bitmap_blocks * 4096 <= u32::MAX
    }

    /// Is `block` a block of the data area?
    pub open spec fn in_data_area(self, block: int) -> bool {
        self.data_area_start() <= block < self.data_area_start() + self.data_area_blocks
    }

    /// The block that holds inode `ino`.
    pub open spec fn inode_block(self, ino: int) -> int {
        self.inode_area_start() + ino / 4
    }
}

/// The byte offset of inode `ino` in its block.
pub open spec fn spec_inode_offset(ino: int) -> int {
    (ino % 4) * 128
}

/// The geometry of a fresh image of `total_blocks` blocks with
/// `inode_bitmap_blocks` blocks of inode bitmap: 1024 blocks of inode area
/// per bitmap block, and of what remains one block in 4097 for the data
/// bitmap.
pub open spec fn spec_create_geometry(total_blocks: int, inode_bitmap_blocks: int) -> Geometry {
    let inode_area_blocks = inode_bitmap_blocks * 1024;
    let data_total = total_blocks - 1 - inode_bitmap_blocks - inode_area_blocks;
    let data_bitmap_blocks = (data_total + 4096) / 4097;
    Geometry {
        total_blocks,
        inode_bitmap_blocks,
        inode_area_blocks,
        data_bitmap_blocks,
        data_area_blocks: data_total - data_bitmap_blocks,
    }
}

/// The geometry that the super block of `disk` gives.
pub open spec fn spec_geometry(disk: Seq<Seq<u8>>) -> Geometry {
    Geometry {
        total_blocks: spec_get_u32(disk[0], 4) as int,
        inode_bitmap_blocks: spec_get_u32(disk[0], 8) as int,
        inode_area_blocks: spec_get_u32(disk[0], 12) as int,
        data_bitmap_blocks: spec_get_u32(disk[0], 16) as int,
        data_area_blocks: spec_get_u32(disk[0], 20) as int,
    }
}

/// Is inode `ino` in use?
pub open spec fn spec_inode_used(disk: Seq<Seq<u8>>, ino: int) -> bool {
    spec_bit(disk, 1, ino)
}

/// Is the data-area block `block` in use?
pub open spec fn spec_data_used(g: Geometry, disk: Seq<Seq<u8>>, block: int) -> bool {
    spec_bit(disk, g.data_bitmap_start(), block - g.data_area_start())
}

/// Inode `ino` as stored on `disk`.
pub open spec fn spec_inode_at(g: Geometry, disk: Seq<Seq<u8>>, ino: int) -> DiskInodeView {
    spec_decode_inode(disk[g.inode_block(ino)], spec_inode_offset(ino))
}

/// Is inode `ino` well-formed, with all its blocks in the data area and in
/// use, and with zeros behind the end of the file in its last block?
pub open spec fn spec_inode_ok(g: Geometry, disk: Seq<Seq<u8>>, ino: int) -> bool {
    let v = spec_inode_at(g, disk, ino);
    &&& v.wf(disk)
    &&& v.spec_tail_zero(disk)
    &&& forall|p: int|
        0 <= p < spec_total_blocks(v.size) ==> g.in_data_area(
            (#[trigger] v.spec_item(disk, p)) as int,
        ) && spec_data_used(g, disk, v.spec_item(disk, p) as int)
}

/// Is `block` one of the blocks of inode `ino`?
pub open spec fn spec_refers(g: Geometry, disk: Seq<Seq<u8>>, ino: int, block: int) -> bool {
    let v = spec_inode_at(g, disk, ino);
    exists|p: int| 0 <= p < spec_total_blocks(v.size) && (#[trigger] v.spec_item(disk, p)) == block
}

/// Is `block` a block of no inode in use but, maybe, of inode `x`?
pub open spec fn spec_unshared(g: Geometry, disk: Seq<Seq<u8>>, x: int, block: int) -> bool {
    forall|ino: int|
        0 <= ino < g.max_inodes() && ino != x && spec_inode_used(disk, ino) ==> !(
        #[trigger] spec_refers(g, disk, ino, block))
}

/// Is `block` a block of no inode in use?
pub open spec fn spec_unreferenced(g: Geometry, disk: Seq<Seq<u8>>, block: int) -> bool {
    forall|ino: int|
        0 <= ino < g.max_inodes() && spec_inode_used(disk, ino) ==> !(#[trigger] spec_refers(
            g,
            disk,
            ino,
            block,
        ))
}

/// Are the inodes in use well-formed, and do no two of them share a block?
pub open spec fn spec_inodes_inv(g: Geometry, disk: Seq<Seq<u8>>) -> bool {
    &&& forall|ino: int|
        0 <= ino < g.max_inodes() && (#[trigger] spec_inode_used(disk, ino)) ==> spec_inode_ok(
            g,
            disk,
            ino,
        )
    &&& forall|a: int, b: int, block: int|
        0 <= a < g.max_inodes() && 0 <= b < g.max_inodes() && a != b && spec_inode_used(disk, a)
            && spec_inode_used(disk, b) && (#[trigger] spec_refers(g, disk, a, block)) ==> !(
        #[trigger] spec_refers(g, disk, b, block))
}

/// The bytes of the file of inode `ino`.
pub open spec fn spec_file(g: Geometry, disk: Seq<Seq<u8>>, ino: int) -> Seq<u8> {
    spec_inode_at(g, disk, ino).spec_content(disk)
}

/// Number of entries of the root directory.
pub open spec fn spec_dir_len(g: Geometry, disk: Seq<Seq<u8>>) -> int {
    spec_inode_at(g, disk, 0).size / 32
}

/// The 32 bytes of entry `e` of the root directory.
pub open spec fn spec_dirent(g: Geometry, disk: Seq<Seq<u8>>, e: int) -> Seq<u8> {
    spec_file(g, disk, 0).subrange(32 * e, 32 * e + 32)
}

/// Is inode 0 a directory in use, made of whole entries that have names in
/// UTF-8 and name inodes in use other than inode 0?
pub open spec fn spec_dir_inv(g: Geometry, disk: Seq<Seq<u8>>) -> bool {
    &&& spec_inode_used(disk, 0)
    &&& spec_inode_at(g, disk, 0).type_ == DiskInodeType::Directory
    &&& spec_inode_at(g, disk, 0).size % 32 == 0
    &&& forall|e: int|
        0 <= e < spec_dir_len(g, disk) ==> {
            &&& 0 < spec_entry_inode(#[trigger] spec_dirent(g, disk, e)) < g.max_inodes()
            &&& spec_inode_used(disk, spec_entry_inode(spec_dirent(g, disk, e)) as int)
            &&& valid_utf8(spec_entry_name(spec_dirent(g, disk, e)))
        }
}

/// Does every data-area block that is not in use hold zeros?
pub open spec fn spec_free_zero(g: Geometry, disk: Seq<Seq<u8>>) -> bool {
    forall|block: int|
        g.in_data_area(block) && !spec_data_used(g, disk, block) ==> (#[trigger] disk[block])
            == spec_zeros(512)
}

/// Is `disk` a consistent image?
pub open spec fn spec_image_inv(disk: Seq<Seq<u8>>) -> bool {
    let g = spec_geometry(disk);
    &&& disk.len() >= 1
    &&& spec_valid_blocks(disk)
    &&& spec_get_u32(disk[0], 0) == EFS_MAGIC
    &&& g.wf(disk.len() as int)
    &&& spec_inodes_inv(g, disk)
    &&& spec_dir_inv(g, disk)
    &&& spec_free_zero(g, disk)
}

/// The names of the root directory, in the order of its entries.
pub open spec fn spec_ls(disk: Seq<Seq<u8>>) -> Seq<Seq<u8>> {
    let g = spec_geometry(disk);
    Seq::new(spec_dir_len(g, disk) as nat, |e: int| spec_entry_name(spec_dirent(g, disk, e)))
}

/// The place of the first entry among the first `n` of the root directory
/// whose name is `name`, or `n` if there is none.
pub open spec fn spec_find_entry(disk: Seq<Seq<u8>>, name: Seq<u8>, n: int) -> int
    decreases n,
{
    if n <= 0 {
        0
    } else {
        let before = spec_find_entry(disk, name, n - 1);
        if before < n - 1 {
            before
        } else if spec_ls(disk)[n - 1] == name {
            n - 1
        } else {
            n
        }
    }
}

/// The number of the inode that the root directory binds to `name`: that of
/// the first entry with this name.
pub open spec fn spec_find(disk: Seq<Seq<u8>>, name: Seq<u8>) -> Option<int> {
    let g = spec_geometry(disk);
    let n = spec_dir_len(g, disk);
    let e = spec_find_entry(disk, name, n);
    if e < n {
        Some(spec_entry_inode(spec_dirent(g, disk, e)) as int)
    } else {
        None
    }
}

/// An inode whose slot and whose blocks are the same on two disks is the
/// same inode on both, with the same blocks and the same content.
pub proof fn lemma_inode_frame(g: Geometry, disk: Seq<Seq<u8>>, disk2: Seq<Seq<u8>>, ino: int)
    requires
        spec_valid_blocks(disk),
        spec_valid_blocks(disk2),
        disk2.len() == disk.len(),
        g.wf(disk.len() as int),
        0 <= ino < g.max_inodes(),
        spec_inode_at(g, disk, ino).wf(disk),
        forall|i: int|
            spec_inode_offset(ino) <= i < spec_inode_offset(ino) + 125 ==> disk2[g.inode_block(
                ino,
            )][i] == disk[g.inode_block(ino)][i],
        forall|p: int|
            0 <= p < spec_total_blocks(spec_inode_at(g, disk, ino).size) ==> disk2[(
            #[trigger] spec_inode_at(g, disk, ino).spec_item(disk, p)) as int]
                == disk[spec_inode_at(g, disk, ino).spec_item(disk, p) as int],
    ensures
        spec_inode_at(g, disk2, ino) == spec_inode_at(g, disk, ino),
        forall|p: int|
            0 <= p < spec_total_blocks(spec_inode_at(g, disk, ino).size) ==> (
            #[trigger] spec_inode_at(g, disk, ino).spec_item(disk2, p)) == spec_inode_at(
                g,
                disk,
                ino,
            ).spec_item(disk, p),
        spec_inode_at(g, disk, ino).wf(disk2),
        spec_file(g, disk2, ino) == spec_file(g, disk, ino),
        spec_inode_at(g, disk, ino).spec_raw(disk2) == spec_inode_at(g, disk, ino).spec_raw(disk),
{
    let v = spec_inode_at(g, disk, ino);
    let tblk = g.inode_block(ino);
    let off = spec_inode_offset(ino);
    let total = spec_total_blocks(v.size);
    let data = spec_data_blocks(v.size);
    assert(0 <= tblk < disk.len());
    assert(disk[tblk].len() == BLOCK_SIZE);
    assert(disk2[tblk].len() == BLOCK_SIZE);
    lemma_decode_frame(disk2[tblk], disk[tblk], off);
    lemma_items_frame(v, disk, disk2, total);
    assert(v.spec_items_ok(disk2, total)) by {
        assert forall|p: int| 0 <= p < total implies (#[trigger] v.spec_item(disk2, p))
            < disk2.len() by {
            assert(v.spec_item(disk, p) < disk.len());
        }
        assert forall|p: int, q: int| 0 <= p < total && 0 <= q < total && p != q implies (
        #[trigger] v.spec_item(disk2, p)) != (#[trigger] v.spec_item(disk2, q)) by {
            assert(v.spec_item(disk, p) != v.spec_item(disk, q));
        }
    }
    assert forall|i: int| 0 <= i < data * 512 implies v.spec_byte(disk2, i) == v.spec_byte(
        disk,
        i,
    ) by {
        let k = i / 512;
        lemma_data_pos(v, disk, k, data);
        lemma_data_pos(v, disk2, k, data);
        let p = crate::disk_inode::spec_data_pos(k);
        assert(v.spec_item(disk2, p) == v.spec_item(disk, p));
    }
    assert(v.spec_content(disk2) =~= v.spec_content(disk));
    assert(v.spec_raw(disk2) =~= v.spec_raw(disk));
}

/// The bits of a bitmap whose blocks are the same on two disks are the same.
pub proof fn lemma_bits_frame(
    disk: Seq<Seq<u8>>,
    disk2: Seq<Seq<u8>>,
    start: int,
    blocks: int,
    bit: int,
)
    requires
        0 <= start,
        0 <= bit < blocks * 4096,
        forall|b: int| start <= b < start + blocks ==> disk2[b] == disk[b],
    ensures
        spec_bit(disk2, start, bit) == spec_bit(disk, start, bit),
{
    assert(disk2[start + bit / 4096] == disk[start + bit / 4096]);
}

/// Is inode `ino`, if it is in use, the same on both disks: same slot, same
/// blocks, same content?
pub open spec fn spec_inode_same(
    g: Geometry,
    disk: Seq<Seq<u8>>,
    disk2: Seq<Seq<u8>>,
    ino: int,
) -> bool {
    spec_inode_used(disk, ino) ==> {
        &&& spec_inode_at(g, disk2, ino) == spec_inode_at(g, disk, ino)
        &&& spec_file(g, disk2, ino) == spec_file(g, disk, ino)
        &&& spec_inode_at(g, disk, ino).spec_raw(disk2) == spec_inode_at(g, disk, ino).spec_raw(
            disk,
        )
        &&& forall|p: int|
            0 <= p < spec_total_blocks(spec_inode_at(g, disk, ino).size) ==> (
            #[trigger] spec_inode_at(g, disk, ino).spec_item(disk2, p)) == spec_inode_at(
                g,
                disk,
                ino,
            ).spec_item(disk, p)
    }
}

/// But for inode `except`: are the same inodes in use on both disks, and is
/// each of them the same on both?
pub open spec fn spec_others_same(
    g: Geometry,
    disk: Seq<Seq<u8>>,
    disk2: Seq<Seq<u8>>,
    except: int,
) -> bool {
    forall|ino: int|
        0 <= ino < g.max_inodes() && ino != except ==> {
            &&& (#[trigger] spec_inode_used(disk2, ino)) == spec_inode_used(disk, ino)
            &&& spec_inode_same(g, disk, disk2, ino)
        }
}

/// A change that spares the super block, the inode bitmap, the inode area
/// and every block of an inode in use, that clears the bit of unreferenced
/// blocks only, and that leaves free blocks zero, keeps the image
/// consistent and every inode as it was.
pub proof fn lemma_inv_kept_outside(disk: Seq<Seq<u8>>, disk2: Seq<Seq<u8>>, changed: Set<int>)
    requires
        spec_image_inv(disk),
        disk2.len() == disk.len(),
        spec_valid_blocks(disk2),
        forall|b: int| 0 <= b < disk.len() && !changed.contains(b) ==> disk2[b] == disk[b],
        forall|b: int|
            0 <= b < spec_geometry(disk).data_bitmap_start() ==> !changed.contains(b),
        forall|ino: int, p: int|
            0 <= ino < spec_geometry(disk).max_inodes() && spec_inode_used(disk, ino) && 0 <= p
                < spec_total_blocks(spec_inode_at(spec_geometry(disk), disk, ino).size)
                ==> !changed.contains(
                (#[trigger] spec_inode_at(spec_geometry(disk), disk, ino).spec_item(disk, p)) as int,
            ),
        forall|block: int|
            spec_geometry(disk).in_data_area(block) && spec_data_used(
                spec_geometry(disk),
                disk,
                block,
            ) && !(#[trigger] spec_data_used(spec_geometry(disk), disk2, block))
                ==> spec_unreferenced(spec_geometry(disk), disk, block),
        forall|block: int|
            spec_geometry(disk).in_data_area(block) && !spec_data_used(
                spec_geometry(disk),
                disk2,
                block,
            ) ==> (#[trigger] disk2[block]) == spec_zeros(512),
    ensures
        spec_image_inv(disk2),
        spec_geometry(disk2) == spec_geometry(disk),
        spec_others_same(spec_geometry(disk), disk, disk2, -1),
{
    let g = spec_geometry(disk);
    assert(!changed.contains(0));
    assert(disk2[0] == disk[0]);
    assert(spec_geometry(disk2) == g);
    // inode bits and inodes
    assert forall|ino: int| 0 <= ino < g.max_inodes() implies (#[trigger] spec_inode_used(
        disk2,
        ino,
    )) == spec_inode_used(disk, ino) && spec_inode_same(g, disk, disk2, ino) by {
        assert(!changed.contains(1 + ino / 4096));
        assert(disk2[1 + ino / 4096] == disk[1 + ino / 4096]);
        if spec_inode_used(disk, ino) {
            let v = spec_inode_at(g, disk, ino);
            assert(spec_inode_ok(g, disk, ino));
            assert(!changed.contains(g.inode_block(ino)));
            assert forall|p: int| 0 <= p < spec_total_blocks(v.size) implies disk2[(
            #[trigger] v.spec_item(disk, p)) as int] == disk[v.spec_item(disk, p) as int] by {
                assert(!changed.contains(v.spec_item(disk, p) as int));
                assert(v.spec_item(disk, p) < disk.len());
            }
            lemma_inode_frame(g, disk, disk2, ino);
        }
    }
    lemma_same_inodes(g, disk, disk2);
}

/// If every inode is the same on two disks of one geometry, if bits of
/// referenced blocks stay set and free blocks are zero on the second, the
/// second is consistent as the first is.
pub proof fn lemma_same_inodes(g: Geometry, disk: Seq<Seq<u8>>, disk2: Seq<Seq<u8>>)
    requires
        spec_image_inv(disk),
        g == spec_geometry(disk),
        spec_geometry(disk2) == g,
        disk2.len() == disk.len(),
        spec_valid_blocks(disk2),
        spec_get_u32(disk2[0], 0) == EFS_MAGIC,
        spec_others_same(g, disk, disk2, -1),
        forall|block: int|
            g.in_data_area(block) && spec_data_used(g, disk, block) && !(
            #[trigger] spec_data_used(g, disk2, block)) ==> spec_unreferenced(g, disk, block),
        forall|block: int|
            g.in_data_area(block) && !spec_data_used(g, disk2, block) ==> (#[trigger] disk2[block])
                == spec_zeros(512),
    ensures
        spec_image_inv(disk2),
        forall|block: int|
            spec_unreferenced(g, disk, block) == spec_unreferenced(g, disk2, block),
        spec_ls(disk2) == spec_ls(disk),
{
    lemma_refers_same(g, disk, disk2);
    assert forall|ino: int|
        0 <= ino < g.max_inodes() && (#[trigger] spec_inode_used(disk2, ino)) implies spec_inode_ok(
        g,
        disk2,
        ino,
    ) by {
        assert(spec_inode_used(disk, ino));
        assert(spec_inode_same(g, disk, disk2, ino));
        assert(spec_inode_ok(g, disk, ino));
        let v = spec_inode_at(g, disk, ino);
        let total = spec_total_blocks(v.size);
        assert(v.spec_items_ok(disk2, total)) by {
            assert forall|p: int| 0 <= p < total implies (#[trigger] v.spec_item(disk2, p))
                < disk2.len() by {
                assert(v.spec_item(disk, p) < disk.len());
            }
            assert forall|p: int, q: int| 0 <= p < total && 0 <= q < total && p != q implies (
            #[trigger] v.spec_item(disk2, p)) != (#[trigger] v.spec_item(disk2, q)) by {
                assert(v.spec_item(disk, p) != v.spec_item(disk, q));
            }
        }
        assert(v.spec_tail_zero(disk2)) by {
            assert forall|i: int| v.size <= i < spec_data_blocks(v.size) * 512 implies (
            #[trigger] v.spec_byte(disk2, i)) == 0 by {
                assert(v.spec_raw(disk2)[i] == v.spec_raw(disk)[i]);
                assert(v.spec_byte(disk, i) == 0);
            }
        }
        assert forall|p: int| 0 <= p < spec_total_blocks(v.size) implies g.in_data_area(
            (#[trigger] v.spec_item(disk2, p)) as int,
        ) && spec_data_used(g, disk2, v.spec_item(disk2, p) as int) by {
            let b = v.spec_item(disk, p) as int;
            assert(g.in_data_area(b) && spec_data_used(g, disk, b));
            if !spec_data_used(g, disk2, b) {
                assert(spec_unreferenced(g, disk, b));
                assert(spec_refers(g, disk, ino, b));
            }
        }
    }
    assert forall|a: int, b: int, block: int|
        0 <= a < g.max_inodes() && 0 <= b < g.max_inodes() && a != b && spec_inode_used(disk2, a)
            && spec_inode_used(disk2, b) && (#[trigger] spec_refers(g, disk2, a, block)) implies !(
    #[trigger] spec_refers(g, disk2, b, block)) by {
        assert(spec_inode_used(disk, a));
        assert(spec_inode_used(disk, b));
        assert(spec_refers(g, disk, a, block));
        assert(!spec_refers(g, disk, b, block));
    }
    // the directory
    assert(spec_inode_used(disk, 0));
    assert(spec_inode_used(disk2, 0));
    assert(spec_inode_same(g, disk, disk2, 0));
    assert forall|e: int| 0 <= e < spec_dir_len(g, disk2) implies {
        &&& 0 < spec_entry_inode(#[trigger] spec_dirent(g, disk2, e)) < g.max_inodes()
        &&& spec_inode_used(disk2, spec_entry_inode(spec_dirent(g, disk2, e)) as int)
        &&& valid_utf8(spec_entry_name(spec_dirent(g, disk2, e)))
    } by {
        assert(spec_dirent(g, disk2, e) == spec_dirent(g, disk, e));
        let n = spec_entry_inode(spec_dirent(g, disk, e)) as int;
        assert(spec_inode_used(disk, n));
        assert(spec_inode_used(disk2, n) == spec_inode_used(disk, n));
    }
    assert(spec_ls(disk2) =~= spec_ls(disk));
    assert forall|block: int| spec_unreferenced(g, disk, block) == spec_unreferenced(
        g,
        disk2,
        block,
    ) by {
        if spec_unreferenced(g, disk, block) {
            assert forall|ino: int|
                0 <= ino < g.max_inodes() && spec_inode_used(disk2, ino) implies !(
            #[trigger] spec_refers(g, disk2, ino, block)) by {
                assert(spec_inode_used(disk, ino));
                assert(!spec_refers(g, disk, ino, block));
            }
        }
        if spec_unreferenced(g, disk2, block) {
            assert forall|ino: int|
                0 <= ino < g.max_inodes() && spec_inode_used(disk, ino) implies !(
            #[trigger] spec_refers(g, disk, ino, block)) by {
                assert(spec_inode_used(disk2, ino));
                assert(!spec_refers(g, disk2, ino, block));
            }
        }
    }
}

/// Inodes that are the same on two disks refer to the same blocks on both.
pub proof fn lemma_refers_same(g: Geometry, disk: Seq<Seq<u8>>, disk2: Seq<Seq<u8>>)
    requires
        spec_others_same(g, disk, disk2, -1),
    ensures
        forall|ino: int, block: int|
            0 <= ino < g.max_inodes() && spec_inode_used(disk, ino) ==> (#[trigger] spec_refers(
                g,
                disk2,
                ino,
                block,
            )) == spec_refers(g, disk, ino, block),
{
    assert forall|ino: int, block: int|
        0 <= ino < g.max_inodes() && spec_inode_used(disk, ino) implies (#[trigger] spec_refers(
        g,
        disk2,
        ino,
        block,
    )) == spec_refers(g, disk, ino, block) by {
        assert(spec_inode_used(disk2, ino) == spec_inode_used(disk, ino));
        assert(spec_inode_same(g, disk, disk2, ino));
        let v = spec_inode_at(g, disk, ino);
        if spec_refers(g, disk, ino, block) {
            let p = choose|p: int|
                0 <= p < spec_total_blocks(v.size) && (#[trigger] v.spec_item(disk, p)) == block;
            assert(v.spec_item(disk2, p) == block);
        }
        if spec_refers(g, disk2, ino, block) {
            let p = choose|p: int|
                0 <= p < spec_total_blocks(v.size) && (#[trigger] v.spec_item(disk2, p)) == block;
            assert(v.spec_item(disk, p) == block);
        }
    }
}

/// A change to one inode in use, to its slot and to blocks that are in use
/// and belong to no other inode, keeps the image consistent and the other
/// inodes as they were, if the changed inode is well-formed afterwards and
/// shares no block with another.
pub proof fn lemma_inv_inode_changed(
    disk: Seq<Seq<u8>>,
    disk2: Seq<Seq<u8>>,
    x: int,
    changed: Set<int>,
)
    requires
        spec_image_inv(disk),
        0 <= x < spec_geometry(disk).max_inodes(),
        spec_inode_used(disk, x),
        disk2.len() == disk.len(),
        spec_valid_blocks(disk2),
        forall|b: int| 0 <= b < disk.len() && !changed.contains(b) ==> disk2[b] == disk[b],
        forall|b: int|
            changed.contains(b) ==> spec_geometry(disk).in_data_area(b) || b == spec_geometry(
                disk,
            ).inode_block(x),
        forall|i: int|
            0 <= i < 512 && !(spec_inode_offset(x) <= i < spec_inode_offset(x) + 125)
                ==> disk2[spec_geometry(disk).inode_block(x)][i] == disk[spec_geometry(
                disk,
            ).inode_block(x)][i],
        forall|b: int|
            changed.contains(b) && spec_geometry(disk).in_data_area(b) ==> spec_data_used(
                spec_geometry(disk),
                disk,
                b,
            ),
        forall|ino: int, b: int|
            0 <= ino < spec_geometry(disk).max_inodes() && ino != x && spec_inode_used(disk, ino)
                && changed.contains(b) ==> !(#[trigger] spec_refers(
                spec_geometry(disk),
                disk,
                ino,
                b,
            )),
        spec_inode_ok(spec_geometry(disk), disk2, x),
        forall|ino: int, b: int|
            0 <= ino < spec_geometry(disk).max_inodes() && ino != x && spec_inode_used(disk, ino)
                && spec_refers(spec_geometry(disk), disk2, x, b) ==> !(#[trigger] spec_refers(
                spec_geometry(disk),
                disk,
                ino,
                b,
            )),
        x == 0 ==> spec_dir_inv(spec_geometry(disk), disk2),
    ensures
        spec_image_inv(disk2),
        spec_geometry(disk2) == spec_geometry(disk),
        spec_others_same(spec_geometry(disk), disk, disk2, x),
        spec_inode_used(disk2, x),
        forall|block: int|
            spec_geometry(disk).in_data_area(block) ==> spec_data_used(
                spec_geometry(disk),
                disk2,
                block,
            ) == spec_data_used(spec_geometry(disk), disk, block),
{
    let g = spec_geometry(disk);
    let tblk = g.inode_block(x);
    assert(x / 4 < g.inode_area_blocks);
    assert(!changed.contains(0));
    assert(disk2[0] == disk[0]);
    // the bitmaps
    assert forall|b: int| 1 <= b < 1 + g.inode_bitmap_blocks implies disk2[b] == disk[b] by {
        assert(!changed.contains(b));
    }
    assert forall|b: int|
        g.data_bitmap_start() <= b < g.data_bitmap_start()
            + g.data_bitmap_blocks implies disk2[b] == disk[b] by {
        assert(!changed.contains(b));
    }
    assert forall|ino: int| 0 <= ino < g.max_inodes() implies (#[trigger] spec_inode_used(
        disk2,
        ino,
    )) == spec_inode_used(disk, ino) by {
        lemma_bits_frame(disk, disk2, 1, g.inode_bitmap_blocks, ino);
    }
    assert forall|block: int| g.in_data_area(block) implies spec_data_used(g, disk2, block)
        == spec_data_used(g, disk, block) by {
        lemma_bits_frame(
            disk,
            disk2,
            g.data_bitmap_start(),
            g.data_bitmap_blocks,
            block - g.data_area_start(),
        );
    }
    // the other inodes
    assert forall|ino: int| 0 <= ino < g.max_inodes() && ino != x implies spec_inode_same(
        g,
        disk,
        disk2,
        ino,
    ) by {
        if spec_inode_used(disk, ino) {
            let v = spec_inode_at(g, disk, ino);
            assert(spec_inode_ok(g, disk, ino));
            assert(ino / 4 < g.inode_area_blocks);
            if g.inode_block(ino) != tblk {
                assert(!changed.contains(g.inode_block(ino)));
            }
            assert forall|p: int| 0 <= p < spec_total_blocks(v.size) implies disk2[(
            #[trigger] v.spec_item(disk, p)) as int] == disk[v.spec_item(disk, p) as int] by {
                let b = v.spec_item(disk, p) as int;
                assert(spec_refers(g, disk, ino, b));
                assert(g.in_data_area(b));
                assert(!changed.contains(b));
            }
            lemma_inode_frame(g, disk, disk2, ino);
        }
    }
    let x0 = spec_inode_at(g, disk2, x);
    // consistency
    assert forall|ino: int|
        0 <= ino < g.max_inodes() && (#[trigger] spec_inode_used(disk2, ino)) implies spec_inode_ok(
        g,
        disk2,
        ino,
    ) by {
        if ino != x {
            assert(spec_inode_used(disk, ino));
            assert(spec_inode_same(g, disk, disk2, ino));
            assert(spec_inode_ok(g, disk, ino));
            let v = spec_inode_at(g, disk, ino);
            let total = spec_total_blocks(v.size);
            assert(v.spec_items_ok(disk2, total)) by {
                assert forall|p: int| 0 <= p < total implies (#[trigger] v.spec_item(disk2, p))
                    < disk2.len() by {
                    assert(v.spec_item(disk, p) < disk.len());
                }
                assert forall|p: int, q: int| 0 <= p < total && 0 <= q < total && p != q implies (
                #[trigger] v.spec_item(disk2, p)) != (#[trigger] v.spec_item(disk2, q)) by {
                    assert(v.spec_item(disk, p) != v.spec_item(disk, q));
                }
            }
            assert(v.spec_tail_zero(disk2)) by {
                assert forall|i: int| v.size <= i < spec_data_blocks(v.size) * 512 implies (
                #[trigger] v.spec_byte(disk2, i)) == 0 by {
                    assert(v.spec_raw(disk2)[i] == v.spec_raw(disk)[i]);
                    assert(v.spec_byte(disk, i) == 0);
                }
            }
            assert forall|p: int| 0 <= p < total implies g.in_data_area(
                (#[trigger] v.spec_item(disk2, p)) as int,
            ) && spec_data_used(g, disk2, v.spec_item(disk2, p) as int) by {
                let b = v.spec_item(disk, p) as int;
                assert(g.in_data_area(b) && spec_data_used(g, disk, b));
            }
        }
    }
    assert forall|ino: int, block: int|
        0 <= ino < g.max_inodes() && ino != x && spec_inode_used(disk, ino) implies (
    #[trigger] spec_refers(g, disk2, ino, block)) == spec_refers(g, disk, ino, block) by {
        assert(spec_inode_same(g, disk, disk2, ino));
        let v = spec_inode_at(g, disk, ino);
        if spec_refers(g, disk, ino, block) {
            let p = choose|p: int|
                0 <= p < spec_total_blocks(v.size) && (#[trigger] v.spec_item(disk, p)) == block;
            assert(v.spec_item(disk2, p) == block);
        }
        if spec_refers(g, disk2, ino, block) {
            let p = choose|p: int|
                0 <= p < spec_total_blocks(v.size) && (#[trigger] v.spec_item(disk2, p)) == block;
            assert(v.spec_item(disk, p) == block);
        }
    }
    assert forall|a: int, b: int, block: int|
        0 <= a < g.max_inodes() && 0 <= b < g.max_inodes() && a != b && spec_inode_used(disk2, a)
            && spec_inode_used(disk2, b) && (#[trigger] spec_refers(g, disk2, a, block)) implies !(
    #[trigger] spec_refers(g, disk2, b, block)) by {
        assert(spec_inode_used(disk, a));
        assert(spec_inode_used(disk, b));
        if a == x {
            assert(!spec_refers(g, disk, b, block));
        } else if b == x {
            assert(spec_refers(g, disk, a, block));
            if spec_refers(g, disk2, x, block) {
                assert(!spec_refers(g, disk, a, block));
            }
        } else {
            assert(spec_refers(g, disk, a, block));
            assert(!spec_refers(g, disk, b, block));
        }
    }
    // the directory
    if x != 0 {
        assert(spec_inode_used(disk, 0));
        assert(spec_inode_same(g, disk, disk2, 0));
        assert forall|e: int| 0 <= e < spec_dir_len(g, disk2) implies {
            &&& 0 < spec_entry_inode(#[trigger] spec_dirent(g, disk2, e)) < g.max_inodes()
            &&& spec_inode_used(disk2, spec_entry_inode(spec_dirent(g, disk2, e)) as int)
            &&& valid_utf8(spec_entry_name(spec_dirent(g, disk2, e)))
        } by {
            assert(spec_dirent(g, disk2, e) == spec_dirent(g, disk, e));
            let n = spec_entry_inode(spec_dirent(g, disk, e)) as int;
            assert(spec_inode_used(disk, n));
            assert(spec_inode_used(disk2, n) == spec_inode_used(disk, n));
        }
    }
    // free blocks
    assert forall|block: int|
        g.in_data_area(block) && !spec_data_used(g, disk2, block) implies (#[trigger] disk2[block])
        == spec_zeros(512) by {
        assert(!spec_data_used(g, disk, block));
        assert(!changed.contains(block));
    }
}

/// In a consistent image the bitmaps agree with the inodes: every block
/// of an inode in use is a block of the data area whose bit is set in the
/// data bitmap, and every entry of the root directory names an inode whose
/// bit is set in the inode bitmap.
pub proof fn lemma_bitmaps_agree(disk: Seq<Seq<u8>>, ino: int, p: int, e: int)
    requires
        spec_image_inv(disk),
    ensures
        0 <= ino < spec_geometry(disk).max_inodes() && spec_inode_used(disk, ino) && 0 <= p
            < spec_total_blocks(spec_inode_at(spec_geometry(disk), disk, ino).size) ==> {
            &&& spec_geometry(disk).in_data_area(
                spec_inode_at(spec_geometry(disk), disk, ino).spec_item(disk, p) as int,
            )
            &&& spec_data_used(
                spec_geometry(disk),
                disk,
                spec_inode_at(spec_geometry(disk), disk, ino).spec_item(disk, p) as int,
            )
        },
        0 <= e < spec_dir_len(spec_geometry(disk), disk) ==> spec_inode_used(
            disk,
            spec_entry_inode(spec_dirent(spec_geometry(disk), disk, e)) as int,
        ),
{
    let g = spec_geometry(disk);
    if 0 <= ino < g.max_inodes() && spec_inode_used(disk, ino) {
        assert(spec_inode_ok(g, disk, ino));
    }
}

/// The blocks that a file takes when it grows from nothing to its size are
/// as many as `total_blocks` says for that size, and they are the blocks
/// that it gives back, in the same order, when it is emptied.
///
/// `empty` on `disk0` is the file before it grows, `grown` on `disk1` the
/// file after it has taken the blocks `taken`, as `increase_size` leaves
/// it; what `clear_size` returns for `grown` are its blocks on `disk1`.
pub proof fn lemma_capacity(
    empty: DiskInodeView,
    disk0: Seq<Seq<u8>>,
    grown: DiskInodeView,
    disk1: Seq<Seq<u8>>,
    taken: Seq<u32>,
)
    requires
        empty.size == 0,
        0 <= grown.size,
        grown.spec_blocks(disk1) == empty.spec_blocks(disk0) + taken,
    ensures
        taken.len() == spec_total_blocks(grown.size),
        grown.spec_blocks(disk1) == taken,
        grown.spec_blocks(disk1).len() == spec_total_blocks(grown.size),
{
    assert(empty.spec_blocks(disk0).len() == 0);
    assert(empty.spec_blocks(disk0) + taken =~= taken);
}

/// Every inode is the same on a disk and on the same disk.
pub proof fn lemma_others_same_refl(g: Geometry, disk: Seq<Seq<u8>>, except: int)
    ensures
        spec_others_same(g, disk, disk, except),
{
}

/// Inodes that are the same on a first and a second disk, and on the second
/// and a third, are the same on the first and the third.
pub proof fn lemma_others_same_trans(
    g: Geometry,
    disk0: Seq<Seq<u8>>,
    disk1: Seq<Seq<u8>>,
    disk2: Seq<Seq<u8>>,
    except: int,
)
    requires
        spec_others_same(g, disk0, disk1, except),
        spec_others_same(g, disk1, disk2, except),
    ensures
        spec_others_same(g, disk0, disk2, except),
{
    assert forall|ino: int| 0 <= ino < g.max_inodes() && ino != except implies {
        &&& (#[trigger] spec_inode_used(disk2, ino)) == spec_inode_used(disk0, ino)
        &&& spec_inode_same(g, disk0, disk2, ino)
    } by {
        assert(spec_inode_used(disk1, ino) == spec_inode_used(disk0, ino));
        assert(spec_inode_used(disk2, ino) == spec_inode_used(disk1, ino));
        assert(spec_inode_same(g, disk0, disk1, ino));
        assert(spec_inode_same(g, disk1, disk2, ino));
        if spec_inode_used(disk0, ino) {
            let v = spec_inode_at(g, disk0, ino);
            assert forall|p: int| 0 <= p < spec_total_blocks(v.size) implies (
            #[trigger] v.spec_item(disk2, p)) == v.spec_item(disk0, p) by {
                assert(v.spec_item(disk1, p) == v.spec_item(disk0, p));
            }
        }
    }
}

/// The directory stays in order when inode 0 and its content stay and no
/// inode goes out of use.
pub proof fn lemma_dir_kept(g: Geometry, disk: Seq<Seq<u8>>, disk2: Seq<Seq<u8>>)
    requires
        spec_dir_inv(g, disk),
        0 < g.max_inodes(),
        spec_inode_at(g, disk2, 0) == spec_inode_at(g, disk, 0),
        spec_file(g, disk2, 0) == spec_file(g, disk, 0),
        forall|ino: int|
            0 <= ino < g.max_inodes() && spec_inode_used(disk, ino) ==> spec_inode_used(disk2, ino),
    ensures
        spec_dir_inv(g, disk2),
        forall|e: int|
            0 <= e < spec_dir_len(g, disk) ==> spec_dirent(g, disk2, e) == spec_dirent(g, disk, e),
{
    assert(spec_inode_used(disk, 0));
    assert forall|e: int| 0 <= e < spec_dir_len(g, disk2) implies {
        &&& 0 < spec_entry_inode(#[trigger] spec_dirent(g, disk2, e)) < g.max_inodes()
        &&& spec_inode_used(disk2, spec_entry_inode(spec_dirent(g, disk2, e)) as int)
        &&& valid_utf8(spec_entry_name(spec_dirent(g, disk2, e)))
    } by {
        assert(spec_dirent(g, disk2, e) == spec_dirent(g, disk, e));
        let n = spec_entry_inode(spec_dirent(g, disk, e)) as int;
        assert(spec_inode_used(disk, n));
    }
}

/// Taking an inode that was not in use into use, with an empty file in its
/// slot, keeps the image consistent and the other inodes as they were.
pub proof fn lemma_inv_new_inode(disk: Seq<Seq<u8>>, disk2: Seq<Seq<u8>>, n: int)
    requires
        spec_image_inv(disk),
        0 <= n < spec_geometry(disk).max_inodes(),
        !spec_inode_used(disk, n),
        disk2.len() == disk.len(),
        spec_valid_blocks(disk2),
        forall|j: int|
            0 <= j < spec_geometry(disk).max_inodes() ==> spec_inode_used(disk2, j) == (j == n
                || spec_inode_used(disk, j)),
        forall|b: int|
            0 <= b < disk.len() && b != 1 + n / 4096 && b != spec_geometry(disk).inode_block(n)
                ==> disk2[b] == disk[b],
        forall|i: int|
            0 <= i < 512 && !(spec_inode_offset(n) <= i < spec_inode_offset(n) + 125)
                ==> disk2[spec_geometry(disk).inode_block(n)][i] == disk[spec_geometry(
                disk,
            ).inode_block(n)][i],
        spec_inode_at(spec_geometry(disk), disk2, n).size == 0,
    ensures
        spec_image_inv(disk2),
        spec_geometry(disk2) == spec_geometry(disk),
        spec_others_same(spec_geometry(disk), disk, disk2, n),
        spec_inode_used(disk2, n),
        spec_ls(disk2) == spec_ls(disk),
        forall|block: int|
            spec_geometry(disk).in_data_area(block) ==> spec_data_used(
                spec_geometry(disk),
                disk2,
                block,
            ) == spec_data_used(spec_geometry(disk), disk, block),
        forall|block: int|
            spec_unreferenced(spec_geometry(disk), disk, block) == spec_unreferenced(
                spec_geometry(disk),
                disk2,
                block,
            ),
{
    let g = spec_geometry(disk);
    let tblk = g.inode_block(n);
    assert(n / 4 < g.inode_area_blocks);
    assert(n / 4096 < g.inode_bitmap_blocks);
    assert(disk2[0] == disk[0]);
    assert forall|block: int| g.in_data_area(block) implies spec_data_used(g, disk2, block)
        == spec_data_used(g, disk, block) by {
        lemma_bits_frame(
            disk,
            disk2,
            g.data_bitmap_start(),
            g.data_bitmap_blocks,
            block - g.data_area_start(),
        );
    }
    assert forall|ino: int| 0 <= ino < g.max_inodes() && ino != n implies spec_inode_same(
        g,
        disk,
        disk2,
        ino,
    ) by {
        if spec_inode_used(disk, ino) {
            let v = spec_inode_at(g, disk, ino);
            assert(spec_inode_ok(g, disk, ino));
            assert(ino / 4 < g.inode_area_blocks);
            assert forall|p: int| 0 <= p < spec_total_blocks(v.size) implies disk2[(
            #[trigger] v.spec_item(disk, p)) as int] == disk[v.spec_item(disk, p) as int] by {
                assert(g.in_data_area(v.spec_item(disk, p) as int));
            }
            lemma_inode_frame(g, disk, disk2, ino);
        }
    }
    assert forall|ino: int, block: int|
        0 <= ino < g.max_inodes() && ino != n && spec_inode_used(disk, ino) implies (
    #[trigger] spec_refers(g, disk2, ino, block)) == spec_refers(g, disk, ino, block) by {
        assert(spec_inode_same(g, disk, disk2, ino));
        let v = spec_inode_at(g, disk, ino);
        if spec_refers(g, disk, ino, block) {
            let p = choose|p: int|
                0 <= p < spec_total_blocks(v.size) && (#[trigger] v.spec_item(disk, p)) == block;
            assert(v.spec_item(disk2, p) == block);
        }
        if spec_refers(g, disk2, ino, block) {
            let p = choose|p: int|
                0 <= p < spec_total_blocks(v.size) && (#[trigger] v.spec_item(disk2, p)) == block;
            assert(v.spec_item(disk, p) == block);
        }
    }
    assert forall|ino: int|
        0 <= ino < g.max_inodes() && (#[trigger] spec_inode_used(disk2, ino)) implies spec_inode_ok(
        g,
        disk2,
        ino,
    ) by {
        if ino != n {
            assert(spec_inode_used(disk, ino));
            assert(spec_inode_same(g, disk, disk2, ino));
            assert(spec_inode_ok(g, disk, ino));
            let v = spec_inode_at(g, disk, ino);
            let total = spec_total_blocks(v.size);
            assert(v.spec_items_ok(disk2, total)) by {
                assert forall|p: int| 0 <= p < total implies (#[trigger] v.spec_item(disk2, p))
                    < disk2.len() by {
                    assert(v.spec_item(disk, p) < disk.len());
                }
                assert forall|p: int, q: int| 0 <= p < total && 0 <= q < total && p != q implies (
                #[trigger] v.spec_item(disk2, p)) != (#[trigger] v.spec_item(disk2, q)) by {
                    assert(v.spec_item(disk, p) != v.spec_item(disk, q));
                }
            }
            assert(v.spec_tail_zero(disk2)) by {
                assert forall|i: int| v.size <= i < spec_data_blocks(v.size) * 512 implies (
                #[trigger] v.spec_byte(disk2, i)) == 0 by {
                    assert(v.spec_raw(disk2)[i] == v.spec_raw(disk)[i]);
                    assert(v.spec_byte(disk, i) == 0);
                }
            }
            assert forall|p: int| 0 <= p < total implies g.in_data_area(
                (#[trigger] v.spec_item(disk2, p)) as int,
            ) && spec_data_used(g, disk2, v.spec_item(disk2, p) as int) by {
                let b = v.spec_item(disk, p) as int;
                assert(g.in_data_area(b) && spec_data_used(g, disk, b));
            }
        }
    }
    assert forall|a: int, b: int, block: int|
        0 <= a < g.max_inodes() && 0 <= b < g.max_inodes() && a != b && spec_inode_used(disk2, a)
            && spec_inode_used(disk2, b) && (#[trigger] spec_refers(g, disk2, a, block)) implies !(
    #[trigger] spec_refers(g, disk2, b, block)) by {
        if a != n && b != n {
            assert(spec_refers(g, disk, a, block));
            assert(!spec_refers(g, disk, b, block));
        }
    }
    assert(spec_inode_used(disk, 0));
    assert(spec_inode_same(g, disk, disk2, 0));
    lemma_dir_kept(g, disk, disk2);
    assert(spec_ls(disk2) =~= spec_ls(disk));
    assert forall|block: int|
        g.in_data_area(block) && !spec_data_used(g, disk2, block) implies (#[trigger] disk2[block])
        == spec_zeros(512) by {
        assert(!spec_data_used(g, disk, block));
    }
    assert forall|block: int| spec_unreferenced(g, disk, block) == spec_unreferenced(
        g,
        disk2,
        block,
    ) by {
        if spec_unreferenced(g, disk, block) {
            assert forall|ino: int|
                0 <= ino < g.max_inodes() && spec_inode_used(disk2, ino) implies !(
            #[trigger] spec_refers(g, disk2, ino, block)) by {
                if ino != n {
                    assert(!spec_refers(g, disk, ino, block));
                }
            }
        }
        if spec_unreferenced(g, disk2, block) {
            assert forall|ino: int|
                0 <= ino < g.max_inodes() && spec_inode_used(disk, ino) implies !(
            #[trigger] spec_refers(g, disk, ino, block)) by {
                assert(spec_inode_used(disk2, ino));
                assert(!spec_refers(g, disk2, ino, block));
            }
        }
    }
}

/// No bit is set in bitmap blocks that hold zeros.
pub proof fn lemma_zero_bits(disk: Seq<Seq<u8>>, start: int, blocks: int, bit: int)
    requires
        0 <= start,
        0 <= bit < blocks * 4096,
        forall|b: int| start <= b < start + blocks ==> disk[b] == spec_zeros(512),
    ensures
        !spec_bit(disk, start, bit),
{
    let block = disk[start + bit / 4096];
    let off = 8 * ((bit % 4096) / 64);
    assert(block == spec_zeros(512));
    lemma_zero_le(block.subrange(off, off + 8));
    lemma_zero_word((bit % 64) as u64);
}

/// In a bitmap without a set bit all bits are free.
pub proof fn lemma_all_free(bitmap: Bitmap, disk: Seq<Seq<u8>>, from: int, n: int)
    requires
        0 <= from <= n,
        forall|j: int| from <= j < n ==> !bitmap.spec_is_set(disk, j),
    ensures
        bitmap.spec_free(disk, n) == bitmap.spec_free(disk, from) + (n - from),
    decreases n - from,
{
    if from < n {
        lemma_all_free(bitmap, disk, from, n - 1);
    }
}

/// A disk that holds a valid super block, an inode bitmap with bit 0 alone
/// set, an empty directory in the slot of inode 0, and zeros in the data
/// bitmap and the data area is a consistent image with an empty root
/// directory.
pub proof fn lemma_fresh_image(disk: Seq<Seq<u8>>)
    requires
        disk.len() >= 1,
        spec_valid_blocks(disk),
        spec_get_u32(disk[0], 0) == EFS_MAGIC,
        spec_geometry(disk).wf(disk.len() as int),
        forall|j: int|
            0 <= j < spec_geometry(disk).max_inodes() ==> spec_inode_used(disk, j) == (j == 0),
        spec_inode_at(spec_geometry(disk), disk, 0).size == 0,
        spec_inode_at(spec_geometry(disk), disk, 0).type_ == DiskInodeType::Directory,
        forall|b: int|
            spec_geometry(disk).data_bitmap_start() <= b < spec_geometry(disk).total_blocks
                ==> disk[b] == spec_zeros(512),
    ensures
        spec_image_inv(disk),
        spec_ls(disk) == Seq::<Seq<u8>>::empty(),
        spec_dir_len(spec_geometry(disk), disk) == 0,
{
    let g = spec_geometry(disk);
    assert forall|ino: int|
        0 <= ino < g.max_inodes() && (#[trigger] spec_inode_used(disk, ino)) implies spec_inode_ok(
        g,
        disk,
        ino,
    ) by {
        assert(ino == 0);
    }
    assert forall|a: int, b: int, block: int|
        0 <= a < g.max_inodes() && 0 <= b < g.max_inodes() && a != b && spec_inode_used(disk, a)
            && spec_inode_used(disk, b) && (#[trigger] spec_refers(g, disk, a, block)) implies !(
    #[trigger] spec_refers(g, disk, b, block)) by {
        assert(a == 0 && b == 0);
    }
    assert(spec_ls(disk) =~= Seq::<Seq<u8>>::empty());
}

/// A mounted file system: the block cache with the device behind it, the two
/// bitmaps and the first blocks of the inode area and of the data area.
pub struct EasyFileSystem<D: BlockDevice> {
    pub block_cache: BlockCacheManager<D>,
    pub inode_bitmap: Bitmap,
    pub data_bitmap: Bitmap,
    pub inode_area_start_block: u32,
    pub data_area_start_block: u32,
}

impl<D: BlockDevice> View for EasyFileSystem<D> {
    type V = Seq<Seq<u8>>;

    /// The logical disk.
    open spec fn view(&self) -> Seq<Seq<u8>> {
        self.block_cache@
    }
}

impl<D: BlockDevice> EasyFileSystem<D> {
    /// The geometry of the mounted image.
    pub open spec fn spec_geometry(&self) -> Geometry {
        spec_geometry(self@)
    }

    /// Is the cache well-formed, and do the fields say what the super block
    /// says?
    pub open spec fn wf(&self) -> bool {
        let g = spec_geometry(self@);
        &&& self.block_cache.wf()
        &&& self@.len() >= 1
        &&& spec_get_u32(self@[0], 0) == EFS_MAGIC
        &&& g.wf(self@.len() as int)
        &&& self.inode_bitmap.start_block_id == 1
        &&& self.inode_bitmap.blocks == g.inode_bitmap_blocks
        &&& self.data_bitmap.start_block_id == g.data_bitmap_start()
        &&& self.data_bitmap.blocks == g.data_bitmap_blocks
        &&& self.inode_area_start_block == g.inode_area_start()
        &&& self.data_area_start_block == g.data_area_start()
    }

    /// Is the file system well-formed and its image consistent?
    pub open spec fn inv(&self) -> bool {
        &&& self.wf()
        &&& spec_image_inv(self@)
    }

    /// Number of data blocks that are not in use.
    pub open spec fn spec_free_data(&self) -> int {
        self.data_bitmap.spec_free(self@, spec_geometry(self@).data_area_blocks)
    }

    /// Number of inodes that are not in use.
    pub open spec fn spec_free_inodes(&self) -> int {
        self.inode_bitmap.spec_free(self@, spec_geometry(self@).max_inodes())
    }

    /// Formats `device`: zeroes the first `total_blocks` blocks, writes the
    /// super block, and makes inode 0 the empty root directory. Everything is
    /// written through to the device.
    ///
    /// The inode area gets a slot for every bit of the inode bitmap, that
    /// is 1024 blocks per bitmap block. Of the blocks that remain, one in
    /// 4097 goes to the data bitmap.
    pub fn create(device: D, total_blocks: u32, inode_bitmap_blocks: u32) -> (fs: Self)
        requires
            spec_valid_blocks(device.blocks()),
            total_blocks <= device.blocks().len(),
            inode_bitmap_blocks >= 1,
            1 + inode_bitmap_blocks + inode_bitmap_blocks * 1024 <= total_blocks,
            inode_bitmap_blocks * 4096 <= u32::MAX,
            total_blocks + 4096 <= u32::MAX,
        ensures
            fs.inv(),
            fs.spec_geometry() == spec_create_geometry(
                total_blocks as int,
                inode_bitmap_blocks as int,
            ),
            spec_ls(fs@) == Seq::<Seq<u8>>::empty(),
            fs.block_cache.spec_device_blocks() == fs@,
            fs@.len() == device.blocks().len(),
            forall|b: int| total_blocks <= b < fs@.len() ==> fs@[b] == device.blocks()[b],
            forall|j: int|
                0 <= j < fs.spec_geometry().max_inodes() ==> spec_inode_used(fs@, j) == (j == 0),
            forall|b: int|
                fs.spec_geometry().in_data_area(b) ==> !spec_data_used(fs.spec_geometry(), fs@, b),
            fs.spec_free_data() == fs.spec_geometry().data_area_blocks,
    {
        let ghost dev0 = device.blocks();
        let inode_bitmap = Bitmap::new(1, inode_bitmap_blocks as usize);
        let inode_num: u64 = inode_bitmap_blocks as u64 * 4096;
        let inode_area_blocks: u32 = ((inode_num * 128 + 511) / 512) as u32;
        let inode_total_block: u32 = inode_bitmap_blocks + inode_area_blocks;
        let data_total_blocks: u32 = total_blocks - 1 - inode_total_block;
        let data_bitmap_blocks: u32 = (data_total_blocks + 4096) / 4097;
        let data_area_blocks: u32 = data_total_blocks - data_bitmap_blocks;
        let data_bitmap = Bitmap::new(
            (1 + inode_bitmap_blocks + inode_area_blocks) as usize,
            data_bitmap_blocks as usize,
        );
        let ghost g = spec_create_geometry(total_blocks as int, inode_bitmap_blocks as int);
        assert(g.wf(dev0.len() as int));
        let mut efs = EasyFileSystem {
            block_cache: BlockCacheManager::new(device),
            inode_bitmap,
            data_bitmap,
            inode_area_start_block: 1 + inode_bitmap_blocks,
            data_area_start_block: 1 + inode_total_block + data_bitmap_blocks,
        };
        // clean all blocks
        let zeros: Vec<u8> = vec![0u8; 512];
        let mut block_id: u32 = 0;
        while block_id < total_blocks
            invariant
                block_id <= total_blocks,
                total_blocks <= dev0.len(),
                efs.block_cache.wf(),
                efs@.len() == dev0.len(),
                zeros@ == spec_zeros(512),
                forall|b: int| 0 <= b < block_id ==> efs@[b] == spec_zeros(512),
                forall|b: int| block_id <= b < efs@.len() ==> efs@[b] == dev0[b],
                efs.inode_bitmap.start_block_id == 1,
                efs.inode_bitmap.blocks == g.inode_bitmap_blocks,
                efs.data_bitmap.start_block_id == g.data_bitmap_start(),
                efs.data_bitmap.blocks == g.data_bitmap_blocks,
                efs.inode_area_start_block == g.inode_area_start(),
                efs.data_area_start_block == g.data_area_start(),
            decreases total_blocks - block_id,
        {
            proof {
                efs.block_cache.lemma_view_valid();
            }
            let ghost before = efs@;
            efs.block_cache.modify_bytes(block_id as usize, 0, zeros.as_slice());
            assert(efs@[block_id as int] =~= spec_zeros(512));
            block_id += 1;
        }
        let ghost zeroed = efs@;
        // initialize super block
        let mut super_block = SuperBlock::empty();
        super_block.initialize(
            total_blocks,
            inode_bitmap_blocks,
            inode_area_blocks,
            data_bitmap_blocks,
            data_area_blocks,
        );
        super_block.store(&mut efs.block_cache, 0);
        let ghost with_super = efs@;
        proof {
            efs.block_cache.lemma_view_valid();
            assert(spec_geometry(with_super) == g);
            assert forall|j: int| 0 <= j < g.max_inodes() implies !efs.inode_bitmap.spec_is_set(
                with_super,
                j,
            ) by {
                lemma_zero_bits(with_super, 1, g.inode_bitmap_blocks, j);
            }
            lemma_all_free(efs.inode_bitmap, with_super, 0, g.max_inodes());
        }
        // create the root directory
        let root: u32 = efs.alloc_inode();
        assert(root == 0) by {
            if root != 0 {
                assert(spec_inode_used(with_super, 0));
                assert(efs.inode_bitmap.spec_is_set(with_super, 0));
            }
        }
        let ghost with_bit = efs@;
        let (root_inode_block_id, root_inode_offset) = efs.get_disk_inode_pos(0);
        let disk_inode = DiskInode::new(DiskInodeType::Directory);
        proof {
            efs.block_cache.lemma_view_valid();
        }
        disk_inode.store(&mut efs.block_cache, root_inode_block_id as usize, root_inode_offset);
        // write back immediately
        efs.block_cache.sync_all();
        proof {
            let disk = efs@;
            efs.block_cache.lemma_view_valid();
            assert(disk[0] == with_super[0]);
            assert(spec_geometry(disk) == g);
            assert forall|j: int| 0 <= j < g.max_inodes() implies spec_inode_used(disk, j) == (j
                == 0) by {
                lemma_bits_frame(with_bit, disk, 1, g.inode_bitmap_blocks, j);
                assert(spec_inode_used(with_bit, j) == (j == 0 || spec_inode_used(with_super, j)));
                assert(!efs.inode_bitmap.spec_is_set(with_super, j));
            }
            assert forall|b: int| g.data_bitmap_start() <= b < g.total_blocks implies disk[b]
                == spec_zeros(512) by {
                assert(zeroed[b] == spec_zeros(512));
                assert(with_super[b] == zeroed[b]);
                assert(with_bit[b] == with_super[b]);
            }
            lemma_fresh_image(disk);
            assert forall|b: int| g.in_data_area(b) implies !spec_data_used(g, disk, b) by {
                lemma_zero_bits(
                    disk,
                    g.data_bitmap_start(),
                    g.data_bitmap_blocks,
                    b - g.data_area_start(),
                );
            }
            assert forall|j: int| 0 <= j < g.data_area_blocks implies !efs.data_bitmap.spec_is_set(
                disk,
                j,
            ) by {
                lemma_zero_bits(disk, g.data_bitmap_start(), g.data_bitmap_blocks, j);
            }
            lemma_all_free(efs.data_bitmap, disk, 0, g.data_area_blocks);
            assert forall|b: int| total_blocks <= b < disk.len() implies disk[b] == dev0[b] by {
                assert(zeroed[b] == dev0[b]);
                assert(with_super[b] == zeroed[b]);
                assert(with_bit[b] == with_super[b]);
            }
        }
        efs
    }

    /// Mounts the image on `device`, which must be consistent.
    pub fn open(device: D) -> (fs: Self)
        requires
            spec_image_inv(device.blocks()),
        ensures
            fs.inv(),
            fs@ == device.blocks(),
    {
        let mut block_cache = BlockCacheManager::new(device);
        let super_block = SuperBlock::load(&mut block_cache, 0);
        let inode_total_blocks: u32 = super_block.inode_bitmap_blocks
            + super_block.inode_area_blocks;
        EasyFileSystem {
            block_cache,
            inode_bitmap: Bitmap::new(1, super_block.inode_bitmap_blocks as usize),
            data_bitmap: Bitmap::new(
                (1 + inode_total_blocks) as usize,
                super_block.data_bitmap_blocks as usize,
            ),
            inode_area_start_block: 1 + super_block.inode_bitmap_blocks,
            data_area_start_block: 1 + inode_total_blocks + super_block.data_bitmap_blocks,
        }
    }

    /// The handle of inode 0, the root directory.
    pub fn root_inode(&self) -> (inode: Inode)
        requires
            self.wf(),
        ensures
            inode.wf(self.spec_geometry()),
            inode.spec_ino(self.spec_geometry()) == 0,
    {
        let (block_id, block_offset) = self.get_disk_inode_pos(0);
        Inode::new(block_id, block_offset)
    }

    /// The block and the byte offset in it at which inode `inode_id` lies.
    pub fn get_disk_inode_pos(&self, inode_id: u32) -> (pos: (u32, usize))
        requires
            self.inode_area_start_block + inode_id / 4 <= u32::MAX,
        ensures
            pos.0 == self.inode_area_start_block + inode_id / 4,
            pos.1 == spec_inode_offset(inode_id as int),
    {
        let inode_size: usize = 128;
        let inodes_per_block: u32 = 4;
        (
            self.inode_area_start_block + inode_id / inodes_per_block,
            (inode_id % inodes_per_block) as usize * inode_size,
        )
    }

    /// The block that holds block `data_block_id` of the data area.
    pub fn get_data_block_id(&self, data_block_id: u32) -> (id: u32)
        requires
            self.data_area_start_block + data_block_id <= u32::MAX,
        ensures
            id == self.data_area_start_block + data_block_id,
    {
        self.data_area_start_block + data_block_id
    }

    /// Number of data blocks that are not in use.
    pub fn free_data_blocks(&mut self) -> (n: usize)
        requires
            old(self).wf(),
        ensures
            final(self).wf(),
            final(self)@ == old(self)@,
            *final(self) == (EasyFileSystem { block_cache: final(self).block_cache, ..*old(self) }),
            n == old(self).spec_free_data(),
    {
        let super_block = SuperBlock::load(&mut self.block_cache, 0);
        self.data_bitmap.count_free(&mut self.block_cache, super_block.data_area_blocks as usize)
    }

    /// Number of inodes that are not in use.
    pub fn free_inodes(&mut self) -> (n: usize)
        requires
            old(self).wf(),
        ensures
            final(self).wf(),
            final(self)@ == old(self)@,
            *final(self) == (EasyFileSystem { block_cache: final(self).block_cache, ..*old(self) }),
            n == old(self).spec_free_inodes(),
    {
        let limit: usize = self.inode_bitmap.maximum();
        self.inode_bitmap.count_free(&mut self.block_cache, limit)
    }

    /// Takes the lowest inode that is not in use and returns its number.
    ///
    /// The inode is marked as in use; its slot is left as it was, so the
    /// image is consistent again only when the slot has been initialised.
    pub fn alloc_inode(&mut self) -> (ino: u32)
        requires
            old(self).wf(),
            old(self).spec_free_inodes() > 0,
        ensures
            final(self).wf(),
            *final(self) == (EasyFileSystem { block_cache: final(self).block_cache, ..*old(self) }),
            ino < old(self).spec_geometry().max_inodes(),
            !spec_inode_used(old(self)@, ino as int),
            forall|j: int| 0 <= j < ino ==> spec_inode_used(old(self)@, j),
            final(self)@ == old(self).inode_bitmap.spec_with_word(
                old(self)@,
                ino as int,
                spec_bitmap_word(old(self)@, 1, ino as int) | (1u64 << ((ino % 64) as u64)),
            ),
            forall|j: int|
                0 <= j < old(self).spec_geometry().max_inodes() ==> spec_inode_used(final(self)@, j)
                    == (j == ino || spec_inode_used(old(self)@, j)),
    {
        let ghost disk = self@;
        let ghost g = spec_geometry(disk);
        proof {
            self.inode_bitmap.lemma_free_exists(disk, g.max_inodes());
        }
        let r = self.inode_bitmap.allocate(&mut self.block_cache);
        match r {
            Some(bit) => {
                proof {
                    self.block_cache.lemma_view_valid();
                    assert(self@[0] == disk[0]);
                    assert forall|j: int| 0 <= j < bit implies spec_inode_used(disk, j) by {
                        assert(self.inode_bitmap.spec_is_set(disk, j));
                    }
                    assert forall|j: int| 0 <= j < g.max_inodes() implies spec_inode_used(self@, j)
                        == (j == bit || spec_inode_used(disk, j)) by {
                        assert(self.inode_bitmap.spec_is_set(self@, j) == (j == bit
                            || self.inode_bitmap.spec_is_set(disk, j)));
                    }
                }
                bit as u32
            },
            None => {
                proof {
                    let j = choose|j: int|
                        0 <= j < g.max_inodes() && !self.inode_bitmap.spec_is_set(disk, j);
                    assert(self.inode_bitmap.spec_is_set(disk, j));
                }
                0
            },
        }
    }

    /// Takes the lowest data block that is not in use and returns its block
    /// id. The block holds zeros.
    pub fn alloc_data(&mut self) -> (block_id: u32)
        requires
            old(self).inv(),
            old(self).spec_free_data() > 0,
        ensures
            final(self).inv(),
            *final(self) == (EasyFileSystem { block_cache: final(self).block_cache, ..*old(self) }),
            final(self).spec_geometry() == old(self).spec_geometry(),
            old(self).spec_geometry().in_data_area(block_id as int),
            !spec_data_used(old(self).spec_geometry(), old(self)@, block_id as int),
            forall|b: int|
                old(self).spec_geometry().data_area_start() <= b < block_id ==> spec_data_used(
                    old(self).spec_geometry(),
                    old(self)@,
                    b,
                ),
            forall|b: int|
                old(self).spec_geometry().in_data_area(b) ==> spec_data_used(
                    old(self).spec_geometry(),
                    final(self)@,
                    b,
                ) == (b == block_id || spec_data_used(old(self).spec_geometry(), old(self)@, b)),
            final(self)@ == old(self).data_bitmap.spec_with_word(
                old(self)@,
                block_id - old(self).data_area_start_block,
                spec_bitmap_word(
                    old(self)@,
                    old(self).data_bitmap.start_block_id as int,
                    block_id - old(self).data_area_start_block,
                ) | (1u64 << (((block_id - old(self).data_area_start_block) % 64) as u64)),
            ),
            final(self)@[block_id as int] == spec_zeros(512),
            spec_unreferenced(old(self).spec_geometry(), final(self)@, block_id as int),
            spec_others_same(old(self).spec_geometry(), old(self)@, final(self)@, -1),
            forall|b: int|
                spec_unreferenced(old(self).spec_geometry(), old(self)@, b) == spec_unreferenced(
                    old(self).spec_geometry(),
                    final(self)@,
                    b,
                ),
            spec_ls(final(self)@) == spec_ls(old(self)@),
            final(self).spec_free_data() == old(self).spec_free_data() - 1,
    {
        let ghost disk = self@;
        let ghost g = spec_geometry(disk);
        proof {
            self.data_bitmap.lemma_free_exists(disk, g.data_area_blocks);
        }
        let r = self.data_bitmap.allocate(&mut self.block_cache);
        match r {
            Some(bit) => {
                let block_id: u32 = self.data_area_start_block + bit as u32;
                proof {
                    let disk2 = self@;
                    let j = choose|j: int|
                        0 <= j < g.data_area_blocks && !self.data_bitmap.spec_is_set(disk, j);
                    assert(bit <= j) by {
                        if j < bit {
                            assert(self.data_bitmap.spec_is_set(disk, j));
                        }
                    }
                    assert forall|b: int| g.data_area_start() <= b < block_id implies spec_data_used(
                        g,
                        disk,
                        b,
                    ) by {
                        assert(self.data_bitmap.spec_is_set(disk, b - g.data_area_start()));
                    }
                    self.block_cache.lemma_view_valid();
                    let word_block = g.data_bitmap_start() + bit / 4096;
                    let changed = set![word_block];
                    assert forall|ino: int, p: int|
                        0 <= ino < g.max_inodes() && spec_inode_used(disk, ino) && 0 <= p
                            < spec_total_blocks(spec_inode_at(g, disk, ino).size)
                            implies !changed.contains(
                        (#[trigger] spec_inode_at(g, disk, ino).spec_item(disk, p)) as int,
                    ) by {
                        assert(spec_inode_ok(g, disk, ino));
                        assert(g.in_data_area(spec_inode_at(g, disk, ino).spec_item(disk, p) as int));
                    }
                    assert forall|block: int|
                        g.in_data_area(block) implies (#[trigger] spec_data_used(g, disk2, block))
                        == (block == block_id || spec_data_used(g, disk, block)) by {
                        let k = block - g.data_area_start();
                        assert(self.data_bitmap.spec_is_set(disk2, k) == (k == bit
                            || self.data_bitmap.spec_is_set(disk, k)));
                    }
                    lemma_inv_kept_outside(disk, disk2, changed);
                    lemma_same_inodes(g, disk, disk2);
                    assert(spec_unreferenced(g, disk, block_id as int)) by {
                        assert forall|ino: int|
                            0 <= ino < g.max_inodes() && spec_inode_used(disk, ino) implies !(
                        #[trigger] spec_refers(g, disk, ino, block_id as int)) by {
                            if spec_refers(g, disk, ino, block_id as int) {
                                assert(spec_inode_ok(g, disk, ino));
                            }
                        }
                    }
                    self.data_bitmap.lemma_free_changed(
                        disk,
                        disk2,
                        g.data_area_blocks,
                        bit as int,
                    );
                }
                block_id
            },
            None => {
                proof {
                    let j = choose|j: int|
                        0 <= j < g.data_area_blocks && !self.data_bitmap.spec_is_set(disk, j);
                    assert(self.data_bitmap.spec_is_set(disk, j));
                }
                0
            },
        }
    }

    /// Gives the data block `block_id` back: fills it with zeros and marks
    /// it as not in use. No inode in use may refer to it.
    pub fn dealloc_data(&mut self, block_id: u32)
        requires
            old(self).inv(),
            old(self).spec_geometry().in_data_area(block_id as int),
            spec_data_used(old(self).spec_geometry(), old(self)@, block_id as int),
            spec_unreferenced(old(self).spec_geometry(), old(self)@, block_id as int),
        ensures
            final(self).inv(),
            *final(self) == (EasyFileSystem { block_cache: final(self).block_cache, ..*old(self) }),
            final(self).spec_geometry() == old(self).spec_geometry(),
            final(self)@[block_id as int] == spec_zeros(512),
            forall|b: int|
                old(self).spec_geometry().in_data_area(b) ==> spec_data_used(
                    old(self).spec_geometry(),
                    final(self)@,
                    b,
                ) == (b != block_id && spec_data_used(old(self).spec_geometry(), old(self)@, b)),
            spec_others_same(old(self).spec_geometry(), old(self)@, final(self)@, -1),
            forall|b: int|
                spec_unreferenced(old(self).spec_geometry(), old(self)@, b) == spec_unreferenced(
                    old(self).spec_geometry(),
                    final(self)@,
                    b,
                ),
            spec_ls(final(self)@) == spec_ls(old(self)@),
            final(self).spec_free_data() == old(self).spec_free_data() + 1,
    {
        let ghost disk = self@;
        let ghost g = spec_geometry(disk);
        proof {
            self.block_cache.lemma_view_valid();
        }
        let zeros: Vec<u8> = vec![0u8; 512];
        self.block_cache.modify_bytes(block_id as usize, 0, zeros.as_slice());
        let ghost disk1 = self@;
        let bit: usize = (block_id - self.data_area_start_block) as usize;
        proof {
            assert(disk1[block_id as int] =~= spec_zeros(512));
            assert forall|j: int| 0 <= j < g.data_bitmap_blocks * 4096 implies spec_bit(
                disk1,
                g.data_bitmap_start(),
                j,
            ) == spec_bit(disk, g.data_bitmap_start(), j) by {
                lemma_bits_frame(disk, disk1, g.data_bitmap_start(), g.data_bitmap_blocks, j);
            }
        }
        self.data_bitmap.dealloc(&mut self.block_cache, bit);
        proof {
            let disk2 = self@;
            self.block_cache.lemma_view_valid();
            let word_block = g.data_bitmap_start() + bit / 4096;
            let changed = set![word_block, block_id as int];
            assert(disk2[block_id as int] == disk1[block_id as int]);
            assert forall|ino: int, p: int|
                0 <= ino < g.max_inodes() && spec_inode_used(disk, ino) && 0 <= p
                    < spec_total_blocks(spec_inode_at(g, disk, ino).size) implies !changed.contains(

                    (#[trigger] spec_inode_at(g, disk, ino).spec_item(disk, p)) as int,
                ) by {
                let b = spec_inode_at(g, disk, ino).spec_item(disk, p) as int;
                assert(spec_inode_ok(g, disk, ino));
                assert(g.in_data_area(b));
                if b == block_id {
                    assert(spec_refers(g, disk, ino, b));
                }
            }
            assert forall|block: int| g.in_data_area(block) implies (#[trigger] spec_data_used(
                g,
                disk2,
                block,
            )) == (block != block_id && spec_data_used(g, disk, block)) by {
                let k = block - g.data_area_start();
                assert(self.data_bitmap.spec_is_set(disk2, k) == (k != bit
                    && self.data_bitmap.spec_is_set(disk1, k)));
                assert(spec_bit(disk1, g.data_bitmap_start(), k) == spec_bit(
                    disk,
                    g.data_bitmap_start(),
                    k,
                ));
            }
            assert forall|block: int|
                g.in_data_area(block) && !spec_data_used(g, disk2, block) implies (
            #[trigger] disk2[block]) == spec_zeros(512) by {
                if block != block_id {
                    assert(!spec_data_used(g, disk, block));
                    assert(disk2[block] == disk[block]);
                }
            }
            lemma_inv_kept_outside(disk, disk2, changed);
            lemma_same_inodes(g, disk, disk2);
            assert forall|j: int|
                0 <= j < g.data_area_blocks && j != bit implies self.data_bitmap.spec_is_set(
                disk2,
                j,
            ) == self.data_bitmap.spec_is_set(disk, j) by {
                assert(spec_data_used(g, disk2, j + g.data_area_start()) == spec_data_used(
                    g,
                    disk,
                    j + g.data_area_start(),
                ));
            }
            self.data_bitmap.lemma_free_changed(disk, disk2, g.data_area_blocks, bit as int);
            assert(!spec_data_used(g, disk2, block_id as int));
        }
    }
}

} // verus!
