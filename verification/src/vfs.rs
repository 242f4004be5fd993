//! The inode facade: files and the root directory as callers see them.
//!
//! An `Inode` is a handle: it says where a disk inode lies. Every operation
//! takes the file system it works on, keeps its image consistent, and says
//! what it does to the bytes of the file and to the root directory.
use crate::block_dev::{spec_valid_blocks, BlockDevice};
use crate::codec::{spec_splice, spec_zeros};
use crate::disk_inode::{
    lemma_data_pos, lemma_grown, lemma_inode_round_trip, lemma_items_frame,
    spec_inode_bytes, spec_clip, spec_data_blocks, spec_data_pos, spec_distinct_blocks,
    spec_is_index_pos, spec_total_blocks, spec_window, DiskInode, DiskInodeType, DiskInodeView};
use crate::efs::{
    lemma_bits_frame, lemma_dir_kept, lemma_inv_inode_changed, lemma_others_same_trans,
    spec_data_used, spec_dir_inv, spec_dir_len, spec_dirent, spec_file,
    lemma_inv_new_inode, spec_find, spec_find_entry, spec_geometry, spec_image_inv, spec_inode_at, spec_inode_offset, spec_inode_ok,
    spec_inode_same, spec_inode_used, spec_ls, spec_others_same, spec_refers, spec_unreferenced, spec_unshared,
    EasyFileSystem, Geometry,
};
use crate::layout::{
    lemma_entry_bytes, lemma_name_valid, spec_entry_inode, spec_entry_name,
    spec_first_nul, DirEntry, MAX_FILE_SIZE};
use vstd::string::StringSliceAdditionalSpecFns;
use vstd::prelude::*;
use vstd::utf8::{encode_utf8, encode_utf8_valid_utf8, valid_utf8};

verus! {

/// The handle of one inode: the block that holds it and its place there.
#[derive(Copy, Clone, PartialEq, Eq, Structural, Debug)]
pub struct Inode {
    pub block_id: usize,
    pub block_offset: usize,
}

/// The bytes of a file after `buf` was written at `offset`: the file grows
/// to hold what is written, with zeros between its old end and `offset`.
pub open spec fn spec_written(file: Seq<u8>, offset: int, buf: Seq<u8>) -> Seq<u8> {
    let size = if offset + buf.len() > file.len() {
        offset + buf.len()
    } else {
        file.len() as int
    };
    Seq::new(
        size as nat,
        |i: int|
            if offset <= i < offset + buf.len() {
                buf[i - offset]
            } else if i < file.len() {
                file[i]
            } else {
                0u8
            },
    )
}

/// What a read of `len` bytes at `offset` of a file gives.
pub open spec fn spec_read(file: Seq<u8>, offset: int, len: int) -> Seq<u8> {
    spec_window(file, offset, spec_clip(offset, len, file.len() as int))
}

/// What reading a file from `offset` on in chunks of `chunk` bytes gives,
/// one read after the other until a read gets nothing.
pub open spec fn spec_read_chunks(file: Seq<u8>, chunk: int, offset: int) -> Seq<u8>
    decreases file.len() - offset,
{
    let got = spec_read(file, offset, chunk);
    if got.len() == 0 || offset < 0 {
        Seq::empty()
    } else {
        got + spec_read_chunks(file, chunk, offset + got.len())
    }
}

/// Reads in chunks give the rest of the file.
pub proof fn lemma_read_chunks(file: Seq<u8>, chunk: int, offset: int)
    requires
        chunk > 0,
        0 <= offset <= file.len(),
    ensures
        spec_read_chunks(file, chunk, offset) == file.subrange(offset, file.len() as int),
    decreases file.len() - offset,
{
    let got = spec_read(file, offset, chunk);
    if got.len() == 0 {
        assert(file.subrange(offset, file.len() as int) =~= Seq::<u8>::empty());
    } else {
        lemma_read_chunks(file, chunk, offset + got.len());
        assert(got + file.subrange(offset + got.len(), file.len() as int) =~= file.subrange(
            offset,
            file.len() as int,
        ));
    }
}

/// What is written to an empty file is what is read back: the file is the
/// content that was written, one read of its length gives the content, and
/// so do reads in chunks of any size, put together.
pub proof fn lemma_round_trip(content: Seq<u8>, chunk: int)
    requires
        chunk > 0,
    ensures
        spec_written(Seq::<u8>::empty(), 0, content) == content,
        spec_read(spec_written(Seq::<u8>::empty(), 0, content), 0, content.len() as int)
            == content,
        spec_read_chunks(spec_written(Seq::<u8>::empty(), 0, content), chunk, 0) == content,
{
    let file = spec_written(Seq::<u8>::empty(), 0, content);
    assert(file =~= content);
    assert(spec_read(content, 0, content.len() as int) =~= content);
    lemma_read_chunks(content, chunk, 0);
    assert(content.subrange(0, content.len() as int) =~= content);
}

/// Have the two file systems the same fields but for the cache?
pub open spec fn spec_same_mount<D: BlockDevice>(
    a: &EasyFileSystem<D>,
    b: &EasyFileSystem<D>,
) -> bool {
    &&& a.inode_bitmap == b.inode_bitmap
    &&& a.data_bitmap == b.data_bitmap
    &&& a.inode_area_start_block == b.inode_area_start_block
    &&& a.data_area_start_block == b.data_area_start_block
}

/// The set of the index blocks of `v` on `disk`.
pub open spec fn spec_index_blocks(v: DiskInodeView, disk: Seq<Seq<u8>>) -> Set<int> {
    Set::new(
        |b: int|
            exists|p: int|
                0 <= p < spec_total_blocks(v.size) && spec_is_index_pos(p) && (
                #[trigger] v.spec_item(disk, p)) == b,
    )
}

/// The set of all blocks of `v` on `disk`.
pub open spec fn spec_all_blocks(v: DiskInodeView, disk: Seq<Seq<u8>>) -> Set<int> {
    Set::new(
        |b: int|
            exists|p: int| 0 <= p < spec_total_blocks(v.size) && (#[trigger] v.spec_item(disk, p)) == b,
    )
}

/// Is `v` fit to become inode `x` of the image: well-formed, with zeros
/// behind its end, and made of data-area blocks that are in use and that no
/// other inode in use refers to?
pub open spec fn spec_pending(g: Geometry, disk: Seq<Seq<u8>>, x: int, v: DiskInodeView) -> bool {
    &&& v.wf(disk)
    &&& v.spec_tail_zero(disk)
    &&& forall|p: int|
        0 <= p < spec_total_blocks(v.size) ==> g.in_data_area(
            (#[trigger] v.spec_item(disk, p)) as int,
        ) && spec_data_used(g, disk, v.spec_item(disk, p) as int)
    &&& forall|p: int|
        0 <= p < spec_total_blocks(v.size) ==> spec_unshared(
            g,
            disk,
            x,
            (#[trigger] v.spec_item(disk, p)) as int,
        )
}

/// What storing a pending inode in its slot, after changes to blocks of its
/// own only, makes of the slot, of the content and of the bitmaps.
pub proof fn lemma_stored_facts(
    disk: Seq<Seq<u8>>,
    mid: Seq<Seq<u8>>,
    disk2: Seq<Seq<u8>>,
    x: int,
    v: DiskInodeView,
)
    requires
        spec_image_inv(disk),
        0 <= x < spec_geometry(disk).max_inodes(),
        spec_inode_used(disk, x),
        mid.len() == disk.len(),
        spec_valid_blocks(mid),
        // the blocks of `v` on `disk`, and what changed up to `mid`
        forall|p: int|
            0 <= p < spec_total_blocks(v.size) ==> spec_geometry(disk).in_data_area(
                (#[trigger] v.spec_item(disk, p)) as int,
            ) && spec_data_used(spec_geometry(disk), disk, v.spec_item(disk, p) as int),
        forall|p: int|
            0 <= p < spec_total_blocks(v.size) ==> spec_unshared(
                spec_geometry(disk),
                disk,
                x,
                (#[trigger] v.spec_item(disk, p)) as int,
            ),
        forall|p: int|
            0 <= p < spec_total_blocks(v.size) ==> (#[trigger] v.spec_item(mid, p)) == v.spec_item(
                disk,
                p,
            ),
        forall|b: int|
            0 <= b < disk.len() && !spec_all_blocks(v, disk).contains(b) ==> mid[b] == disk[b],
        v.wf(mid),
        v.spec_tail_zero(mid),
        0 <= v.size <= u32::MAX,
        // the store
        disk2 == mid.update(
            spec_geometry(disk).inode_block(x),
            spec_splice(
                mid[spec_geometry(disk).inode_block(x)],
                spec_inode_offset(x),
                spec_inode_bytes(v),
            ),
        ),
    ensures
        spec_geometry(disk2) == spec_geometry(disk),
        spec_valid_blocks(disk2),
        spec_inode_ok(spec_geometry(disk), disk2, x),
        forall|ino: int|
            0 <= ino < spec_geometry(disk).max_inodes() ==> spec_inode_used(disk2, ino)
                == spec_inode_used(disk, ino),
        spec_inode_at(spec_geometry(disk), disk2, x) == v,
        spec_file(spec_geometry(disk), disk2, x) == v.spec_content(mid),
        forall|block: int|
            spec_geometry(disk).in_data_area(block) ==> spec_data_used(
                spec_geometry(disk),
                disk2,
                block,
            ) == spec_data_used(spec_geometry(disk), disk, block),
{
    let g = spec_geometry(disk);
    let tblk = g.inode_block(x);
    let off = spec_inode_offset(x);
    let total = spec_total_blocks(v.size);
    assert(x / 4 < g.inode_area_blocks);
    assert(0 <= tblk < disk.len());
    assert(!g.in_data_area(tblk));
    assert(!spec_all_blocks(v, disk).contains(tblk)) by {
        if spec_all_blocks(v, disk).contains(tblk) {
            let p = choose|p: int| 0 <= p < total && (#[trigger] v.spec_item(disk, p)) == tblk;
            assert(g.in_data_area(v.spec_item(disk, p) as int));
        }
    }
    assert(mid[tblk] == disk[tblk]);
    assert(disk[tblk].len() == 512);
    lemma_inode_round_trip(mid[tblk], off, v);
    let changed = spec_all_blocks(v, disk).insert(tblk);
    assert forall|b: int| 0 <= b < disk2.len() implies (#[trigger] disk2[b]).len() == 512 by {
        assert(mid[b].len() == 512);
    }
    // the items of `v` on the final disk
    assert forall|p: int| 0 <= p < total && spec_is_index_pos(p) implies disk2[(
    #[trigger] v.spec_item(mid, p)) as int] == mid[v.spec_item(mid, p) as int] by {
        assert(v.spec_item(mid, p) == v.spec_item(disk, p));
        assert(g.in_data_area(v.spec_item(disk, p) as int));
    }
    lemma_items_frame(v, mid, disk2, total);
    assert(v.spec_items_ok(disk2, total)) by {
        assert forall|p: int| 0 <= p < total implies (#[trigger] v.spec_item(disk2, p))
            < disk2.len() by {
            assert(v.spec_item(mid, p) < mid.len());
        }
        assert forall|p: int, q: int| 0 <= p < total && 0 <= q < total && p != q implies (
        #[trigger] v.spec_item(disk2, p)) != (#[trigger] v.spec_item(disk2, q)) by {
            assert(v.spec_item(mid, p) != v.spec_item(mid, q));
        }
    }
    let data = spec_data_blocks(v.size);
    assert forall|i: int| 0 <= i < data * 512 implies v.spec_byte(disk2, i) == v.spec_byte(
        mid,
        i,
    ) by {
        let k = i / 512;
        lemma_data_pos(v, mid, k, data);
        lemma_data_pos(v, disk2, k, data);
        let pk = spec_data_pos(k);
        assert(v.spec_item(disk2, pk) == v.spec_item(mid, pk));
        assert(v.spec_item(mid, pk) == v.spec_item(disk, pk));
        assert(g.in_data_area(v.spec_item(disk, pk) as int));
    }
    assert(v.spec_content(disk2) =~= v.spec_content(mid));
    assert(v.spec_tail_zero(disk2)) by {
        assert forall|i: int| v.size <= i < data * 512 implies (#[trigger] v.spec_byte(disk2, i))
            == 0 by {
            assert(v.spec_byte(mid, i) == 0);
        }
    }
    assert(spec_inode_at(g, disk2, x) == v);
    // bits
    assert forall|block: int| g.in_data_area(block) implies spec_data_used(g, disk2, block)
        == spec_data_used(g, disk, block) by {
        assert forall|b: int|
            g.data_bitmap_start() <= b < g.data_bitmap_start()
                + g.data_bitmap_blocks implies disk2[b] == disk[b] by {
            if spec_all_blocks(v, disk).contains(b) {
                let p = choose|p: int| 0 <= p < total && (#[trigger] v.spec_item(disk, p)) == b;
                assert(g.in_data_area(v.spec_item(disk, p) as int));
            }
        }
        lemma_bits_frame(
            disk,
            disk2,
            g.data_bitmap_start(),
            g.data_bitmap_blocks,
            block - g.data_area_start(),
        );
    }
    assert(spec_inode_ok(g, disk2, x)) by {
        assert forall|p: int| 0 <= p < total implies g.in_data_area(
            (#[trigger] v.spec_item(disk2, p)) as int,
        ) && spec_data_used(g, disk2, v.spec_item(disk2, p) as int) by {
            assert(v.spec_item(disk2, p) == v.spec_item(mid, p));
            assert(v.spec_item(mid, p) == v.spec_item(disk, p));
            assert(g.in_data_area(v.spec_item(disk, p) as int));
        }
    }
    assert(disk2[0] == disk[0]);
    assert forall|ino: int| 0 <= ino < g.max_inodes() implies spec_inode_used(disk2, ino)
        == spec_inode_used(disk, ino) by {
        assert forall|b: int| 1 <= b < 1 + g.inode_bitmap_blocks implies disk2[b] == disk[b] by {
            if spec_all_blocks(v, disk).contains(b) {
                let p = choose|p: int| 0 <= p < total && (#[trigger] v.spec_item(disk, p)) == b;
                assert(g.in_data_area(v.spec_item(disk, p) as int));
            }
        }
        lemma_bits_frame(disk, disk2, 1, g.inode_bitmap_blocks, ino);
    }
}

/// Storing a pending inode in its slot, after changes to blocks of its own
/// only, gives a consistent image again in which the other inodes are as
/// they were.
pub proof fn lemma_stored(
    disk: Seq<Seq<u8>>,
    mid: Seq<Seq<u8>>,
    disk2: Seq<Seq<u8>>,
    x: int,
    v: DiskInodeView,
)
    requires
        spec_image_inv(disk),
        0 <= x < spec_geometry(disk).max_inodes(),
        spec_inode_used(disk, x),
        mid.len() == disk.len(),
        spec_valid_blocks(mid),
        // the blocks of `v` on `disk`, and what changed up to `mid`
        forall|p: int|
            0 <= p < spec_total_blocks(v.size) ==> spec_geometry(disk).in_data_area(
                (#[trigger] v.spec_item(disk, p)) as int,
            ) && spec_data_used(spec_geometry(disk), disk, v.spec_item(disk, p) as int),
        forall|p: int|
            0 <= p < spec_total_blocks(v.size) ==> spec_unshared(
                spec_geometry(disk),
                disk,
                x,
                (#[trigger] v.spec_item(disk, p)) as int,
            ),
        forall|p: int|
            0 <= p < spec_total_blocks(v.size) ==> (#[trigger] v.spec_item(mid, p)) == v.spec_item(
                disk,
                p,
            ),
        forall|b: int|
            0 <= b < disk.len() && !spec_all_blocks(v, disk).contains(b) ==> mid[b] == disk[b],
        v.wf(mid),
        v.spec_tail_zero(mid),
        0 <= v.size <= u32::MAX,
        // the store
        disk2 == mid.update(
            spec_geometry(disk).inode_block(x),
            spec_splice(
                mid[spec_geometry(disk).inode_block(x)],
                spec_inode_offset(x),
                spec_inode_bytes(v),
            ),
        ),
        x == 0 ==> spec_dir_inv(spec_geometry(disk), disk2),
    ensures
        spec_image_inv(disk2),
        spec_geometry(disk2) == spec_geometry(disk),
        spec_others_same(spec_geometry(disk), disk, disk2, x),
        spec_inode_used(disk2, x),
        spec_inode_at(spec_geometry(disk), disk2, x) == v,
        spec_file(spec_geometry(disk), disk2, x) == v.spec_content(mid),
        forall|block: int|
            spec_geometry(disk).in_data_area(block) ==> spec_data_used(
                spec_geometry(disk),
                disk2,
                block,
            ) == spec_data_used(spec_geometry(disk), disk, block),
{
    let g = spec_geometry(disk);
    let tblk = g.inode_block(x);
    let off = spec_inode_offset(x);
    let total = spec_total_blocks(v.size);
    lemma_stored_facts(disk, mid, disk2, x, v);
    assert(x / 4 < g.inode_area_blocks);
    assert(!g.in_data_area(tblk));
    assert(!spec_all_blocks(v, disk).contains(tblk)) by {
        if spec_all_blocks(v, disk).contains(tblk) {
            let p = choose|p: int| 0 <= p < total && (#[trigger] v.spec_item(disk, p)) == tblk;
            assert(g.in_data_area(v.spec_item(disk, p) as int));
        }
    }
    assert(mid[tblk] == disk[tblk]);
    lemma_inode_round_trip(mid[tblk], off, v);
    let changed = spec_all_blocks(v, disk).insert(tblk);
    assert forall|p: int| 0 <= p < total && spec_is_index_pos(p) implies disk2[(
    #[trigger] v.spec_item(mid, p)) as int] == mid[v.spec_item(mid, p) as int] by {
        assert(v.spec_item(mid, p) == v.spec_item(disk, p));
        assert(g.in_data_area(v.spec_item(disk, p) as int));
    }
    lemma_items_frame(v, mid, disk2, total);
    assert forall|b: int| 0 <= b < disk.len() && !changed.contains(b) implies disk2[b]
        == disk[b] by {}
    assert forall|b: int| changed.contains(b) implies g.in_data_area(b) || b == tblk by {
        if b != tblk {
            let p = choose|p: int| 0 <= p < total && (#[trigger] v.spec_item(disk, p)) == b;
            assert(g.in_data_area(v.spec_item(disk, p) as int));
        }
    }
    assert forall|b: int| changed.contains(b) && g.in_data_area(b) implies spec_data_used(
        g,
        disk,
        b,
    ) by {
        let p = choose|p: int| 0 <= p < total && (#[trigger] v.spec_item(disk, p)) == b;
        assert(spec_data_used(g, disk, v.spec_item(disk, p) as int));
    }
    assert forall|ino: int, b: int|
        0 <= ino < g.max_inodes() && ino != x && spec_inode_used(disk, ino) && changed.contains(
            b,
        ) implies !(#[trigger] spec_refers(g, disk, ino, b)) by {
        if b == tblk {
            if spec_refers(g, disk, ino, b) {
                assert(spec_inode_ok(g, disk, ino));
                let w = spec_inode_at(g, disk, ino);
                let p = choose|p: int|
                    0 <= p < spec_total_blocks(w.size) && (#[trigger] w.spec_item(disk, p)) == b;
                assert(g.in_data_area(w.spec_item(disk, p) as int));
            }
        } else {
            let p = choose|p: int| 0 <= p < total && (#[trigger] v.spec_item(disk, p)) == b;
            assert(spec_unshared(g, disk, x, v.spec_item(disk, p) as int));
        }
    }
    assert forall|ino: int, b: int|
        0 <= ino < g.max_inodes() && ino != x && spec_inode_used(disk, ino) && spec_refers(
            g,
            disk2,
            x,
            b,
        ) implies !(#[trigger] spec_refers(g, disk, ino, b)) by {
        let p = choose|p: int| 0 <= p < total && (#[trigger] v.spec_item(disk2, p)) == b;
        assert(v.spec_item(disk2, p) == v.spec_item(mid, p));
        assert(v.spec_item(mid, p) == v.spec_item(disk, p));
        assert(spec_unshared(g, disk, x, v.spec_item(disk, p) as int));
    }
    assert forall|i: int| 0 <= i < 512 && !(off <= i < off + 125) implies disk2[tblk][i]
        == disk[tblk][i] by {}
    lemma_inv_inode_changed(disk, disk2, x, changed);
}

/// The names of the directory are the same on two disks of one geometry on
/// which inode 0 and its content are the same.
pub proof fn lemma_ls_same(disk: Seq<Seq<u8>>, disk2: Seq<Seq<u8>>)
    requires
        spec_geometry(disk2) == spec_geometry(disk),
        spec_inode_at(spec_geometry(disk), disk2, 0) == spec_inode_at(spec_geometry(disk), disk, 0),
        spec_file(spec_geometry(disk), disk2, 0) == spec_file(spec_geometry(disk), disk, 0),
    ensures
        spec_ls(disk2) == spec_ls(disk),
{
    assert(spec_ls(disk2) =~= spec_ls(disk));
}

/// After fresh blocks were taken and `increase_size` has linked them to the
/// copy `v1` of inode `x`, the image is still consistent with inode `x` as
/// it was, and the grown copy is fit to be stored.
pub proof fn lemma_grow_done(
    disk_a: Seq<Seq<u8>>,
    disk_b: Seq<Seq<u8>>,
    x: int,
    v1: DiskInodeView,
    new_blocks: Seq<u32>,
)
    requires
        spec_image_inv(disk_a),
        0 <= x < spec_geometry(disk_a).max_inodes(),
        spec_inode_used(disk_a, x),
        spec_valid_blocks(disk_b),
        disk_b.len() == disk_a.len(),
        forall|j: int|
            0 <= j < new_blocks.len() ==> {
                &&& spec_geometry(disk_a).in_data_area((#[trigger] new_blocks[j]) as int)
                &&& spec_data_used(spec_geometry(disk_a), disk_a, new_blocks[j] as int)
                &&& spec_unreferenced(spec_geometry(disk_a), disk_a, new_blocks[j] as int)
                &&& disk_a[new_blocks[j] as int] == spec_zeros(512)
            },
        spec_distinct_blocks(
            spec_inode_at(spec_geometry(disk_a), disk_a, x).spec_blocks(disk_a) + new_blocks,
            disk_a,
        ),
        // what `increase_size` promises
        spec_inode_at(spec_geometry(disk_a), disk_a, x).size <= v1.size,
        v1.type_ == spec_inode_at(spec_geometry(disk_a), disk_a, x).type_,
        v1.spec_blocks(disk_b) == spec_inode_at(spec_geometry(disk_a), disk_a, x).spec_blocks(
            disk_a,
        ) + new_blocks,
        v1.wf(disk_b),
        forall|b: int|
            0 <= b < disk_a.len() && (forall|p: int|
                0 <= p < spec_total_blocks(v1.size) && spec_is_index_pos(p) ==> (
                #[trigger] v1.spec_item(disk_b, p)) != b) ==> (#[trigger] disk_b[b]) == disk_a[b],
    ensures
        spec_image_inv(disk_b),
        spec_geometry(disk_b) == spec_geometry(disk_a),
        spec_others_same(spec_geometry(disk_a), disk_a, disk_b, -1),
        spec_ls(disk_b) == spec_ls(disk_a),
        spec_pending(spec_geometry(disk_a), disk_b, x, v1),
        v1.spec_raw(disk_b) == spec_inode_at(spec_geometry(disk_a), disk_a, x).spec_raw(disk_a)
            + spec_zeros(
            ((spec_data_blocks(v1.size) - spec_data_blocks(
                spec_inode_at(spec_geometry(disk_a), disk_a, x).size,
            )) * 512) as nat,
        ),
        forall|block: int|
            spec_geometry(disk_a).in_data_area(block) ==> spec_data_used(
                spec_geometry(disk_a),
                disk_b,
                block,
            ) == spec_data_used(spec_geometry(disk_a), disk_a, block),
{
    let g = spec_geometry(disk_a);
    let v0 = spec_inode_at(g, disk_a, x);
    let t0 = spec_total_blocks(v0.size);
    let t1 = spec_total_blocks(v1.size);
    let d0 = spec_data_blocks(v0.size);
    let d1 = spec_data_blocks(v1.size);
    let list = v0.spec_blocks(disk_a) + new_blocks;
    let tblk = g.inode_block(x);
    assert(spec_inode_ok(g, disk_a, x));
    assert(list.len() == t1);
    assert(x / 4 < g.inode_area_blocks);
    lemma_grown(v0, v1, disk_a, disk_b, new_blocks);
    assert forall|p: int| 0 <= p < t1 implies (#[trigger] v1.spec_item(disk_b, p)) == list[p] by {
        assert(v1.spec_blocks(disk_b)[p] == list[p]);
    }
    assert forall|p: int| 0 <= p < t0 implies (#[trigger] v0.spec_item(disk_a, p)) == list[p] by {
        assert(v0.spec_blocks(disk_a)[p] == list[p]);
    }
    // every block of the grown inode lies in the data area, is in use, and
    // belongs to no other inode
    assert forall|p: int| 0 <= p < t1 implies g.in_data_area(
        (#[trigger] v1.spec_item(disk_b, p)) as int,
    ) && spec_data_used(g, disk_a, v1.spec_item(disk_b, p) as int) && spec_unshared(
        g,
        disk_a,
        x,
        v1.spec_item(disk_b, p) as int,
    ) by {
        let b = list[p] as int;
        if p < t0 {
            assert(v0.spec_item(disk_a, p) == b);
            assert(spec_refers(g, disk_a, x, b));
            assert forall|ino: int|
                0 <= ino < g.max_inodes() && ino != x && spec_inode_used(disk_a, ino) implies !(
            #[trigger] spec_refers(g, disk_a, ino, b)) by {}
        } else {
            assert(list[p] == new_blocks[p - t0]);
            assert(spec_unreferenced(g, disk_a, new_blocks[p - t0] as int));
        }
    }
    let changed = spec_index_blocks(v1, disk_b);
    assert forall|b: int| 0 <= b < disk_a.len() && !changed.contains(b) implies disk_b[b]
        == disk_a[b] by {
        assert forall|p: int| 0 <= p < t1 && spec_is_index_pos(p) implies (
        #[trigger] v1.spec_item(disk_b, p)) != b by {}
    }
    assert forall|b: int| changed.contains(b) implies g.in_data_area(b) && spec_data_used(
        g,
        disk_a,
        b,
    ) && spec_unshared(g, disk_a, x, b) by {
        let p = choose|p: int|
            0 <= p < t1 && spec_is_index_pos(p) && (#[trigger] v1.spec_item(disk_b, p)) == b;
        assert(g.in_data_area(v1.spec_item(disk_b, p) as int));
    }
    assert(!changed.contains(tblk));
    assert(disk_b[tblk] == disk_a[tblk]);
    assert(spec_inode_at(g, disk_b, x) == v0);
    // bits
    assert forall|b: int|
        g.data_bitmap_start() <= b < g.data_bitmap_start()
            + g.data_bitmap_blocks implies disk_b[b] == disk_a[b] by {
        assert(!changed.contains(b));
    }
    assert forall|block: int| g.in_data_area(block) implies spec_data_used(g, disk_b, block)
        == spec_data_used(g, disk_a, block) by {
        lemma_bits_frame(
            disk_a,
            disk_b,
            g.data_bitmap_start(),
            g.data_bitmap_blocks,
            block - g.data_area_start(),
        );
    }
    assert forall|b: int| 1 <= b < 1 + g.inode_bitmap_blocks implies disk_b[b] == disk_a[b] by {
        assert(!changed.contains(b));
    }
    assert forall|ino: int| 0 <= ino < g.max_inodes() implies spec_inode_used(disk_b, ino)
        == spec_inode_used(disk_a, ino) by {
        lemma_bits_frame(disk_a, disk_b, 1, g.inode_bitmap_blocks, ino);
    }
    // inode x as it is stored
    assert(v0.spec_items_ok(disk_b, t0)) by {
        assert forall|p: int| 0 <= p < t0 implies (#[trigger] v0.spec_item(disk_b, p))
            < disk_b.len() by {
            assert(v0.spec_item(disk_a, p) < disk_a.len());
        }
        assert forall|p: int, q: int| 0 <= p < t0 && 0 <= q < t0 && p != q implies (
        #[trigger] v0.spec_item(disk_b, p)) != (#[trigger] v0.spec_item(disk_b, q)) by {
            assert(v0.spec_item(disk_a, p) != v0.spec_item(disk_a, q));
        }
    }
    assert(v0.spec_tail_zero(disk_b)) by {
        assert forall|i: int| v0.size <= i < d0 * 512 implies (#[trigger] v0.spec_byte(disk_b, i))
            == 0 by {
            assert(v0.spec_raw(disk_b)[i] == v0.spec_raw(disk_a)[i]);
            assert(v0.spec_byte(disk_a, i) == 0);
        }
    }
    assert(v0.spec_content(disk_b) =~= v0.spec_content(disk_a)) by {
        assert forall|i: int| 0 <= i < v0.size implies v0.spec_byte(disk_b, i) == v0.spec_byte(
            disk_a,
            i,
        ) by {
            assert(v0.spec_raw(disk_b)[i] == v0.spec_raw(disk_a)[i]);
        }
    }
    assert(spec_inode_ok(g, disk_b, x)) by {
        assert forall|p: int| 0 <= p < t0 implies g.in_data_area(
            (#[trigger] v0.spec_item(disk_b, p)) as int,
        ) && spec_data_used(g, disk_b, v0.spec_item(disk_b, p) as int) by {
            assert(v0.spec_item(disk_b, p) == v0.spec_item(disk_a, p));
            assert(g.in_data_area(v0.spec_item(disk_a, p) as int));
        }
    }
    assert forall|ino: int, b: int|
        0 <= ino < g.max_inodes() && ino != x && spec_inode_used(disk_a, ino) && changed.contains(
            b,
        ) implies !(#[trigger] spec_refers(g, disk_a, ino, b)) by {
        assert(spec_unshared(g, disk_a, x, b));
    }
    assert forall|ino: int, b: int|
        0 <= ino < g.max_inodes() && ino != x && spec_inode_used(disk_a, ino) && spec_refers(
            g,
            disk_b,
            x,
            b,
        ) implies !(#[trigger] spec_refers(g, disk_a, ino, b)) by {
        let p = choose|p: int| 0 <= p < t0 && (#[trigger] v0.spec_item(disk_b, p)) == b;
        assert(v0.spec_item(disk_a, p) == b);
        assert(spec_refers(g, disk_a, x, b));
    }
    assert forall|i: int| 0 <= i < 512 && !(spec_inode_offset(x) <= i < spec_inode_offset(x) + 125)
        implies disk_b[tblk][i] == disk_a[tblk][i] by {}
    assert forall|b: int| changed.contains(b) implies g.in_data_area(b) || b == tblk by {}
    assert forall|b: int| changed.contains(b) && g.in_data_area(b) implies spec_data_used(
        g,
        disk_a,
        b,
    ) by {}
    if x == 0 {
        lemma_dir_kept(g, disk_a, disk_b);
    }
    lemma_inv_inode_changed(disk_a, disk_b, x, changed);
    // inode x is the same as well
    assert(spec_inode_same(g, disk_a, disk_b, x));
    assert(spec_others_same(g, disk_a, disk_b, -1)) by {
        assert forall|ino: int| 0 <= ino < g.max_inodes() && ino != -1 implies {
            &&& (#[trigger] spec_inode_used(disk_b, ino)) == spec_inode_used(disk_a, ino)
            &&& spec_inode_same(g, disk_a, disk_b, ino)
        } by {
            if ino != x {
                assert(spec_inode_same(g, disk_a, disk_b, ino));
            }
        }
    }
    assert(spec_inode_used(disk_a, 0));
    assert(spec_inode_same(g, disk_a, disk_b, 0));
    lemma_ls_same(disk_a, disk_b);
    // the grown copy
    assert forall|i: int| 0 <= i < d1 * 512 implies (#[trigger] v1.spec_byte(disk_b, i)) == (
    v0.spec_raw(disk_a) + spec_zeros(((d1 - d0) * 512) as nat))[i] by {
        if i >= d0 * 512 {
            let k = i / 512;
            let b = v1.spec_block_id(disk_b, k);
            assert(b == new_blocks[spec_data_pos(k) - t0]);
            assert(disk_a[b as int] == spec_zeros(512));
        }
    }
    assert(v1.spec_raw(disk_b) =~= v0.spec_raw(disk_a) + spec_zeros(((d1 - d0) * 512) as nat));
    assert(v1.spec_tail_zero(disk_b)) by {
        assert forall|i: int| v1.size <= i < d1 * 512 implies (#[trigger] v1.spec_byte(disk_b, i))
            == 0 by {
            if i < d0 * 512 {
                assert(v0.spec_byte(disk_a, i) == 0);
            }
        }
    }
    lemma_refers_kept(g, disk_a, disk_b, x);
    assert forall|p: int| 0 <= p < t1 implies spec_unshared(
        g,
        disk_b,
        x,
        (#[trigger] v1.spec_item(disk_b, p)) as int,
    ) by {
        let b = v1.spec_item(disk_b, p) as int;
        assert(spec_unshared(g, disk_a, x, b));
        assert forall|ino: int|
            0 <= ino < g.max_inodes() && ino != x && spec_inode_used(disk_b, ino) implies !(
        #[trigger] spec_refers(g, disk_b, ino, b)) by {
            assert(spec_inode_used(disk_a, ino));
            assert(!spec_refers(g, disk_a, ino, b));
        }
    }
}

/// Inodes that are the same on two disks refer to the same blocks on both.
pub proof fn lemma_refers_kept(g: Geometry, disk: Seq<Seq<u8>>, disk2: Seq<Seq<u8>>, except: int)
    requires
        spec_others_same(g, disk, disk2, except),
    ensures
        forall|ino: int, block: int|
            0 <= ino < g.max_inodes() && ino != except && spec_inode_used(disk, ino) ==> (
            #[trigger] spec_refers(g, disk2, ino, block)) == spec_refers(g, disk, ino, block),
{
    assert forall|ino: int, block: int|
        0 <= ino < g.max_inodes() && ino != except && spec_inode_used(disk, ino) implies (
    #[trigger] spec_refers(g, disk2, ino, block)) == spec_refers(g, disk, ino, block) by {
        assert(spec_inode_used(disk2, ino) == spec_inode_used(disk, ino));
        assert(spec_inode_same(g, disk, disk2, ino));
        let v = spec_inode_at(g, disk, ino);
        if spec_refers(g, disk, ino, block) {
            let p = choose|p: int|
                0 <= p < spec_total_blocks(v.size) && (#[trigger] v.spec_item(disk, p)) == block;
            assert(v.spec_item(disk2, p) == block);
        }
        if spec_refers(g, disk2, ino, block) {
            let p = choose|p: int|
                0 <= p < spec_total_blocks(v.size) && (#[trigger] v.spec_item(disk2, p)) == block;
            assert(v.spec_item(disk, p) == block);
        }
    }
}

/// Is a write of `buf` at `offset` to the root directory the appending of
/// one entry that has a name in UTF-8 and names an inode in use?
pub open spec fn spec_appends_entry(
    g: Geometry,
    disk: Seq<Seq<u8>>,
    offset: int,
    buf: Seq<u8>,
) -> bool {
    &&& offset == spec_inode_at(g, disk, 0).size
    &&& buf.len() == 32
    &&& 0 < spec_entry_inode(buf) < g.max_inodes()
    &&& spec_inode_used(disk, spec_entry_inode(buf) as int)
    &&& valid_utf8(spec_entry_name(buf))
}

/// After a file was emptied and its inode stored, the image is consistent,
/// and the blocks that the file had are in use, distinct, and blocks of no
/// inode.
pub proof fn lemma_cleared(disk0: Seq<Seq<u8>>, disk_2: Seq<Seq<u8>>, x: int, freed: Seq<u32>)
    requires
        spec_image_inv(disk0),
        0 <= x < spec_geometry(disk0).max_inodes(),
        spec_inode_used(disk0, x),
        freed == spec_inode_at(spec_geometry(disk0), disk0, x).spec_blocks(disk0),
        disk_2.len() == disk0.len(),
        spec_valid_blocks(disk_2),
        forall|b: int|
            0 <= b < disk0.len() && b != spec_geometry(disk0).inode_block(x) && !(spec_data_blocks(
                spec_inode_at(spec_geometry(disk0), disk0, x).size,
            ) > 28 && b == spec_inode_at(spec_geometry(disk0), disk0, x).indirect1) ==> disk_2[b]
                == disk0[b],
        forall|i: int|
            0 <= i < 512 && !(spec_inode_offset(x) <= i < spec_inode_offset(x) + 125)
                ==> disk_2[spec_geometry(disk0).inode_block(x)][i] == disk0[spec_geometry(
                disk0,
            ).inode_block(x)][i],
        spec_inode_at(spec_geometry(disk0), disk_2, x).size == 0,
        spec_inode_at(spec_geometry(disk0), disk_2, x).type_ == spec_inode_at(
            spec_geometry(disk0),
            disk0,
            x,
        ).type_,
    ensures
        spec_image_inv(disk_2),
        spec_geometry(disk_2) == spec_geometry(disk0),
        spec_others_same(spec_geometry(disk0), disk0, disk_2, x),
        spec_inode_used(disk_2, x),
        x != 0 ==> spec_ls(disk_2) == spec_ls(disk0),
        forall|block: int|
            spec_geometry(disk0).in_data_area(block) ==> spec_data_used(
                spec_geometry(disk0),
                disk_2,
                block,
            ) == spec_data_used(spec_geometry(disk0), disk0, block),
        forall|j: int|
            0 <= j < freed.len() ==> {
                &&& spec_geometry(disk0).in_data_area((#[trigger] freed[j]) as int)
                &&& spec_data_used(spec_geometry(disk0), disk_2, freed[j] as int)
                &&& spec_unreferenced(spec_geometry(disk0), disk_2, freed[j] as int)
            },
        forall|j: int, k: int|
            0 <= j < freed.len() && 0 <= k < freed.len() && j != k ==> (#[trigger] freed[j]) != (
            #[trigger] freed[k]),
{
    let g = spec_geometry(disk0);
    let v0 = spec_inode_at(g, disk0, x);
    let tblk = g.inode_block(x);
    assert(spec_inode_ok(g, disk0, x));
    assert(x / 4 < g.inode_area_blocks);
    let changed = if spec_data_blocks(v0.size) > 28 {
        set![v0.indirect1 as int, tblk]
    } else {
        set![tblk]
    };
    if spec_data_blocks(v0.size) > 28 {
        assert(v0.spec_item(disk0, 28) == v0.indirect1);
        assert(g.in_data_area(v0.spec_item(disk0, 28) as int));
        assert(spec_data_used(g, disk0, v0.spec_item(disk0, 28) as int));
        assert(spec_refers(g, disk0, x, v0.indirect1 as int));
    }
    assert forall|b: int| 0 <= b < disk0.len() && !changed.contains(b) implies disk_2[b]
        == disk0[b] by {}
    assert forall|ino: int, b: int|
        0 <= ino < g.max_inodes() && ino != x && spec_inode_used(disk0, ino) && changed.contains(
            b,
        ) implies !(#[trigger] spec_refers(g, disk0, ino, b)) by {
        if spec_refers(g, disk0, ino, b) {
            assert(spec_inode_ok(g, disk0, ino));
            let w = spec_inode_at(g, disk0, ino);
            let p = choose|p: int|
                0 <= p < spec_total_blocks(w.size) && (#[trigger] w.spec_item(disk0, p)) == b;
            assert(g.in_data_area(w.spec_item(disk0, p) as int));
        }
    }
    assert(spec_inode_ok(g, disk_2, x));
    assert forall|ino: int, b: int|
        0 <= ino < g.max_inodes() && ino != x && spec_inode_used(disk0, ino) && spec_refers(
            g,
            disk_2,
            x,
            b,
        ) implies !(#[trigger] spec_refers(g, disk0, ino, b)) by {}
    assert forall|b: int| changed.contains(b) implies g.in_data_area(b) || b == tblk by {}
    assert forall|b: int| changed.contains(b) && g.in_data_area(b) implies spec_data_used(
        g,
        disk0,
        b,
    ) by {}
    if x == 0 {
        assert(spec_dir_inv(g, disk0));
        // inode bits are as they were: no bitmap block changed
        assert(!changed.contains(1));
        assert(disk_2[1] == disk0[1]);
        assert(spec_inode_used(disk_2, 0));
        assert(spec_dir_len(g, disk_2) == 0);
    }
    lemma_inv_inode_changed(disk0, disk_2, x, changed);
    lemma_refers_kept(g, disk0, disk_2, x);
    assert forall|j: int| 0 <= j < freed.len() implies {
        &&& g.in_data_area((#[trigger] freed[j]) as int)
        &&& spec_data_used(g, disk_2, freed[j] as int)
        &&& spec_unreferenced(g, disk_2, freed[j] as int)
    } by {
        let b = freed[j] as int;
        assert(freed[j] == v0.spec_item(disk0, j));
        assert(g.in_data_area(b) && spec_data_used(g, disk0, b));
        assert(spec_refers(g, disk0, x, b));
        assert forall|ino: int|
            0 <= ino < g.max_inodes() && spec_inode_used(disk_2, ino) implies !(
        #[trigger] spec_refers(g, disk_2, ino, b)) by {
            if ino != x {
                assert(spec_inode_used(disk0, ino));
                assert(!spec_refers(g, disk0, ino, b));
            }
        }
    }
    assert forall|j: int, k: int|
        0 <= j < freed.len() && 0 <= k < freed.len() && j != k implies (#[trigger] freed[j]) != (
    #[trigger] freed[k]) by {
        assert(v0.spec_item(disk0, j) != v0.spec_item(disk0, k));
    }
    if x != 0 {
        assert(spec_inode_used(disk0, 0) && spec_inode_same(g, disk0, disk_2, 0));
        lemma_ls_same(disk0, disk_2);
    }
}

impl Inode {
    /// The number of the inode in an image of geometry `g`.
    pub open spec fn spec_ino(&self, g: Geometry) -> int {
        (self.block_id - g.inode_area_start()) * 4 + self.block_offset / 128
    }

    /// Does the handle point at a slot of the inode area of `g`?
    pub open spec fn wf(&self, g: Geometry) -> bool {
        &&& g.inode_area_start() <= self.block_id
        &&& self.block_offset % 128 == 0
        &&& self.block_offset < 512
        &&& 0 <= self.spec_ino(g) < g.max_inodes()
    }

    /// Does the handle point at an inode in use of a consistent file system?
    pub open spec fn spec_live<D: BlockDevice>(&self, fs: &EasyFileSystem<D>) -> bool {
        &&& fs.inv()
        &&& self.wf(fs.spec_geometry())
        &&& spec_inode_used(fs@, self.spec_ino(fs.spec_geometry()))
    }

    /// The handle of the inode at byte `block_offset` of block `block_id`.
    pub fn new(block_id: u32, block_offset: usize) -> (inode: Self)
        ensures
            inode.block_id == block_id,
            inode.block_offset == block_offset,
    {
        Self { block_id: block_id as usize, block_offset }
    }

    /// Where the slot of the handle lies.
    pub proof fn lemma_slot(&self, g: Geometry, disk_len: int)
        requires
            self.wf(g),
            g.wf(disk_len),
        ensures
            g.inode_block(self.spec_ino(g)) == self.block_id,
            spec_inode_offset(self.spec_ino(g)) == self.block_offset,
            self.block_id < g.data_bitmap_start(),
            self.block_id < disk_len,
            !g.in_data_area(self.block_id as int),
    {
    }

    /// Does the handle point at an inode in use?
    pub fn is_live<D: BlockDevice>(&self, fs: &mut EasyFileSystem<D>) -> (live: bool)
        requires
            old(fs).inv(),
        ensures
            final(fs).inv(),
            final(fs)@ == old(fs)@,
            spec_same_mount(final(fs), old(fs)),
            live == self.spec_live(old(fs)),
    {
        let ghost g = fs.spec_geometry();
        let start: usize = fs.inode_area_start_block as usize;
        if self.block_id < start || self.block_offset % 128 != 0 || self.block_offset >= 512 {
            return false;
        }
        let limit: usize = fs.inode_bitmap.maximum();
        if self.block_id - start > limit / 4 {
            return false;
        }
        let ino: usize = (self.block_id - start) * 4 + self.block_offset / 128;
        if ino >= limit {
            return false;
        }
        let (block, word, bit) = crate::bitmap::decomposition(ino);
        let bits: u64 = fs.block_cache.read_u64(1 + block, 8 * word);
        proof {
            crate::bitmap::lemma_test_bit(bits, bit as u64);
            assert(bits == crate::bitmap::spec_bitmap_word(old(fs)@, 1, ino as int));
        }
        (bits & (1u64 << (bit as u64))) != 0
    }

    /// Reads the disk inode that the handle points at.
    pub fn read_disk_inode<D: BlockDevice>(&self, fs: &mut EasyFileSystem<D>) -> (inode: DiskInode)
        requires
            old(fs).wf(),
            self.wf(old(fs).spec_geometry()),
        ensures
            final(fs).wf(),
            final(fs)@ == old(fs)@,
            spec_same_mount(final(fs), old(fs)),
            inode@ == spec_inode_at(
                old(fs).spec_geometry(),
                old(fs)@,
                self.spec_ino(old(fs).spec_geometry()),
            ),
    {
        proof {
            self.lemma_slot(fs.spec_geometry(), fs@.len() as int);
        }
        DiskInode::load(&mut fs.block_cache, self.block_id, self.block_offset)
    }

    /// Copies the bytes of the file from `offset` on into `buf`, as many as
    /// `buf` takes and the file has, and returns their number.
    pub fn read_at<D: BlockDevice>(
        &self,
        fs: &mut EasyFileSystem<D>,
        offset: usize,
        buf: &mut [u8],
    ) -> (n: usize)
        requires
            self.spec_live(old(fs)),
            offset + old(buf)@.len() <= usize::MAX,
        ensures
            final(fs).inv(),
            final(fs)@ == old(fs)@,
            spec_same_mount(final(fs), old(fs)),
            n == spec_read(
                spec_file(old(fs).spec_geometry(), old(fs)@, self.spec_ino(old(fs).spec_geometry())),
                offset as int,
                old(buf)@.len() as int,
            ).len(),
            final(buf)@ == spec_splice(
                old(buf)@,
                0,
                spec_read(
                    spec_file(
                        old(fs).spec_geometry(),
                        old(fs)@,
                        self.spec_ino(old(fs).spec_geometry()),
                    ),
                    offset as int,
                    old(buf)@.len() as int,
                ),
            ),
    {
        let ghost g = fs.spec_geometry();
        let disk_inode = self.read_disk_inode(fs);
        assert(spec_inode_ok(g, fs@, self.spec_ino(g)));
        disk_inode.read_at(offset, buf, &mut fs.block_cache)
    }

    /// Grows the copy `disk_inode` of this inode to `new_size` bytes, taking
    /// the blocks it needs from the data bitmap. A `new_size` below the size
    /// of the file changes nothing.
    ///
    /// The slot of the inode is not written: the image stays consistent with
    /// the inode as it was, and the copy is fit to be stored.
    pub fn increase_size<D: BlockDevice>(
        &self,
        new_size: u32,
        disk_inode: &mut DiskInode,
        fs: &mut EasyFileSystem<D>,
    )
        requires
            self.spec_live(old(fs)),
            old(disk_inode)@ == spec_inode_at(
                old(fs).spec_geometry(),
                old(fs)@,
                self.spec_ino(old(fs).spec_geometry()),
            ),
            new_size <= MAX_FILE_SIZE,
            new_size >= old(disk_inode).size ==> old(fs).spec_free_data() >= spec_total_blocks(
                new_size as int,
            ) - spec_total_blocks(old(disk_inode).size as int),
        ensures
            final(fs).inv(),
            spec_same_mount(final(fs), old(fs)),
            final(fs).spec_geometry() == old(fs).spec_geometry(),
            spec_others_same(old(fs).spec_geometry(), old(fs)@, final(fs)@, -1),
            spec_ls(final(fs)@) == spec_ls(old(fs)@),
            spec_pending(
                old(fs).spec_geometry(),
                final(fs)@,
                self.spec_ino(old(fs).spec_geometry()),
                final(disk_inode)@,
            ),
            final(disk_inode).type_ == old(disk_inode).type_,
            final(disk_inode).size == (if new_size >= old(disk_inode).size {
                new_size
            } else {
                old(disk_inode).size
            }),
            final(disk_inode)@.spec_raw(final(fs)@) == old(disk_inode)@.spec_raw(old(fs)@)
                + spec_zeros(
                ((spec_data_blocks(final(disk_inode).size as int) - spec_data_blocks(
                    old(disk_inode).size as int,
                )) * 512) as nat,
            ),
            final(fs).spec_free_data() == old(fs).spec_free_data() - (spec_total_blocks(
                final(disk_inode).size as int,
            ) - spec_total_blocks(old(disk_inode).size as int)),
    {
        let ghost g = fs.spec_geometry();
        let ghost x = self.spec_ino(g);
        let ghost disk0 = fs@;
        let ghost v0 = disk_inode@;
        proof {
            assert(spec_inode_ok(g, disk0, x));
            lemma_refers_kept(g, disk0, disk0, -1);
        }
        if new_size < disk_inode.size {
            proof {
                assert(v0.spec_raw(disk0) =~= v0.spec_raw(disk0) + spec_zeros(0));
                assert forall|p: int| 0 <= p < spec_total_blocks(v0.size) implies spec_unshared(
                    g,
                    disk0,
                    x,
                    (#[trigger] v0.spec_item(disk0, p)) as int,
                ) by {
                    let b = v0.spec_item(disk0, p) as int;
                    assert(spec_refers(g, disk0, x, b));
                }
            }
            return ;
        }
        let blocks_needed: u32 = disk_inode.blocks_num_needed(new_size);
        let mut new_blocks: Vec<u32> = Vec::new();
        let mut i: u32 = 0;
        while i < blocks_needed
            invariant
                i <= blocks_needed,
                fs.inv(),
                spec_same_mount(fs, old(fs)),
                fs.spec_geometry() == g,
                g == old(fs).spec_geometry(),
                disk0 == old(fs)@,
                spec_others_same(g, disk0, fs@, -1),
                spec_ls(fs@) == spec_ls(disk0),
                new_blocks@.len() == i,
                forall|j: int|
                    0 <= j < i ==> {
                        &&& g.in_data_area((#[trigger] new_blocks@[j]) as int)
                        &&& spec_data_used(g, fs@, new_blocks@[j] as int)
                        &&& spec_unreferenced(g, fs@, new_blocks@[j] as int)
                        &&& fs@[new_blocks@[j] as int] == spec_zeros(512)
                    },
                forall|j: int, k: int|
                    0 <= j < i && 0 <= k < i && j != k ==> (#[trigger] new_blocks@[j]) != (
                    #[trigger] new_blocks@[k]),
                fs.spec_free_data() == old(fs).spec_free_data() - i,
                old(fs).spec_free_data() >= blocks_needed,
            decreases blocks_needed - i,
        {
            let ghost before = fs@;
            let ghost blocks_before = new_blocks@;
            let block: u32 = fs.alloc_data();
            new_blocks.push(block);
            proof {
                lemma_others_same_trans(g, disk0, before, fs@, -1);
                fs.block_cache.lemma_view_valid();
                assert forall|j: int| 0 <= j < i + 1 implies {
                    &&& g.in_data_area((#[trigger] new_blocks@[j]) as int)
                    &&& spec_data_used(g, fs@, new_blocks@[j] as int)
                    &&& spec_unreferenced(g, fs@, new_blocks@[j] as int)
                    &&& fs@[new_blocks@[j] as int] == spec_zeros(512)
                } by {
                    if j < i {
                        let b = blocks_before[j] as int;
                        assert(new_blocks@[j] == blocks_before[j]);
                        assert(spec_data_used(g, before, b));
                        assert(spec_unreferenced(g, before, b));
                        assert(fs@[b] == before[b]);
                    }
                }
                assert forall|j: int, k: int|
                    0 <= j < i + 1 && 0 <= k < i + 1 && j != k implies (#[trigger] new_blocks@[j])
                    != (#[trigger] new_blocks@[k]) by {
                    if j < i {
                        assert(new_blocks@[j] == blocks_before[j]);
                        assert(spec_data_used(g, before, blocks_before[j] as int));
                    }
                    if k < i {
                        assert(new_blocks@[k] == blocks_before[k]);
                        assert(spec_data_used(g, before, blocks_before[k] as int));
                    }
                }
            }
            i += 1;
        }
        let ghost disk_a = fs@;
        proof {
            fs.block_cache.lemma_view_valid();
            assert(spec_inode_used(disk0, x));
            assert(spec_inode_used(disk_a, x) == spec_inode_used(disk0, x));
            assert(spec_inode_same(g, disk0, disk_a, x));
            assert(spec_inode_at(g, disk_a, x) == v0);
            assert(spec_inode_ok(g, disk_a, x));
            let list = v0.spec_blocks(disk_a) + new_blocks@;
            let t0 = spec_total_blocks(v0.size);
            assert forall|p: int| 0 <= p < list.len() implies (#[trigger] list[p])
                < disk_a.len() by {
                if p < t0 {
                    assert(list[p] == v0.spec_item(disk_a, p));
                } else {
                    assert(list[p] == new_blocks@[p - t0]);
                    assert(g.in_data_area(new_blocks@[p - t0] as int));
                }
            }
            assert forall|p: int, q: int|
                0 <= p < list.len() && 0 <= q < list.len() && p != q implies (#[trigger] list[p])
                != (#[trigger] list[q]) by {
                if p < t0 && q < t0 {
                    assert(v0.spec_item(disk_a, p) != v0.spec_item(disk_a, q));
                } else if p < t0 {
                    assert(list[q] == new_blocks@[q - t0]);
                    assert(spec_unreferenced(g, disk_a, new_blocks@[q - t0] as int));
                    if list[p] == list[q] {
                        assert(v0.spec_item(disk_a, p) == list[q]);
                        assert(spec_refers(g, disk_a, x, list[q] as int));
                    }
                } else if q < t0 {
                    assert(list[p] == new_blocks@[p - t0]);
                    assert(spec_unreferenced(g, disk_a, new_blocks@[p - t0] as int));
                    if list[p] == list[q] {
                        assert(v0.spec_item(disk_a, q) == list[p]);
                        assert(spec_refers(g, disk_a, x, list[p] as int));
                    }
                } else {
                    assert(list[p] == new_blocks@[p - t0]);
                    assert(list[q] == new_blocks@[q - t0]);
                }
            }
            assert(v0.spec_raw(disk_a) == v0.spec_raw(disk0));
        }
        let ghost blocks = new_blocks@;
        disk_inode.increase_size(new_size, new_blocks, &mut fs.block_cache);
        proof {
            fs.block_cache.lemma_view_valid();
            lemma_grow_done(disk_a, fs@, x, disk_inode@, blocks);
            lemma_others_same_trans(g, disk0, disk_a, fs@, -1);
            assert(fs@[0] == disk_a[0]);
            assert forall|j: int| 0 <= j < g.data_area_blocks implies fs.data_bitmap.spec_is_set(
                fs@,
                j,
            ) == fs.data_bitmap.spec_is_set(disk_a, j) by {
                assert(spec_data_used(g, fs@, j + g.data_area_start()) == spec_data_used(
                    g,
                    disk_a,
                    j + g.data_area_start(),
                ));
            }
            fs.data_bitmap.lemma_free_changed(disk_a, fs@, g.data_area_blocks, -1);
        }
    }

    /// Writes `buf` at `offset` of the file, or appends one entry to the
    /// root directory.
    #[verifier::rlimit(60)]
    fn write_at_inner<D: BlockDevice>(
        &self,
        fs: &mut EasyFileSystem<D>,
        offset: usize,
        buf: &[u8],
    ) -> (n: usize)
        requires
            self.spec_live(old(fs)),
            self.spec_ino(old(fs).spec_geometry()) == 0 ==> spec_appends_entry(
                old(fs).spec_geometry(),
                old(fs)@,
                offset as int,
                buf@,
            ),
            offset + buf@.len() <= MAX_FILE_SIZE,
            old(fs).spec_free_data() >= spec_total_blocks(
                spec_written(
                    spec_file(
                        old(fs).spec_geometry(),
                        old(fs)@,
                        self.spec_ino(old(fs).spec_geometry()),
                    ),
                    offset as int,
                    buf@,
                ).len() as int,
            ) - spec_total_blocks(
                spec_file(
                    old(fs).spec_geometry(),
                    old(fs)@,
                    self.spec_ino(old(fs).spec_geometry()),
                ).len() as int,
            ),
        ensures
            self.spec_live(final(fs)),
            spec_same_mount(final(fs), old(fs)),
            final(fs).spec_geometry() == old(fs).spec_geometry(),
            n == buf@.len(),
            spec_file(
                old(fs).spec_geometry(),
                final(fs)@,
                self.spec_ino(old(fs).spec_geometry()),
            ) == spec_written(
                spec_file(old(fs).spec_geometry(), old(fs)@, self.spec_ino(old(fs).spec_geometry())),
                offset as int,
                buf@,
            ),
            spec_others_same(
                old(fs).spec_geometry(),
                old(fs)@,
                final(fs)@,
                self.spec_ino(old(fs).spec_geometry()),
            ),
            self.spec_ino(old(fs).spec_geometry()) != 0 ==> spec_ls(final(fs)@) == spec_ls(
                old(fs)@,
            ),
            forall|ino: int|
                0 <= ino < old(fs).spec_geometry().max_inodes() ==> spec_inode_used(
                    final(fs)@,
                    ino,
                ) == spec_inode_used(old(fs)@, ino),
            spec_inode_at(
                old(fs).spec_geometry(),
                final(fs)@,
                self.spec_ino(old(fs).spec_geometry()),
            ).type_ == spec_inode_at(
                old(fs).spec_geometry(),
                old(fs)@,
                self.spec_ino(old(fs).spec_geometry()),
            ).type_,
            final(fs).spec_free_data() == old(fs).spec_free_data() - (spec_total_blocks(
                spec_file(
                    old(fs).spec_geometry(),
                    final(fs)@,
                    self.spec_ino(old(fs).spec_geometry()),
                ).len() as int,
            ) - spec_total_blocks(
                spec_file(
                    old(fs).spec_geometry(),
                    old(fs)@,
                    self.spec_ino(old(fs).spec_geometry()),
                ).len() as int,
            )),
    {
        let ghost g = fs.spec_geometry();
        let ghost x = self.spec_ino(g);
        let ghost disk0 = fs@;
        let ghost file0 = spec_file(g, disk0, x);
        let mut disk_inode = self.read_disk_inode(fs);
        let ghost v0 = disk_inode@;
        proof {
            assert(spec_inode_ok(g, disk0, x));
        }
        self.increase_size((offset + buf.len()) as u32, &mut disk_inode, fs);
        let ghost disk_b = fs@;
        let ghost v1 = disk_inode@;
        let n: usize = disk_inode.write_at(offset, buf, &mut fs.block_cache);
        let ghost disk_c = fs@;
        proof {
            self.lemma_slot(g, disk0.len() as int);
            fs.block_cache.lemma_view_valid();
        }
        disk_inode.store(&mut fs.block_cache, self.block_id, self.block_offset);
        proof {
            let disk_d = fs@;
            let d0 = spec_data_blocks(v0.size);
            let d1 = spec_data_blocks(v1.size);
            let end = offset + n;
            fs.block_cache.lemma_view_valid();
            // the tail stays zero
            assert(v1.spec_tail_zero(disk_c)) by {
                assert forall|i: int| v1.size <= i < d1 * 512 implies (#[trigger] v1.spec_byte(
                    disk_c,
                    i,
                )) == 0 by {
                    Self::lemma_byte_written(v1, disk_b, disk_c, offset as int, buf@, end, i);
                    assert(v1.spec_byte(disk_b, i) == 0);
                }
            }
            assert forall|b: int|
                0 <= b < disk_b.len() && !spec_all_blocks(v1, disk_b).contains(
                    b,
                ) implies disk_c[b] == disk_b[b] by {
                assert forall|k: int| offset / 512 <= k && k * 512 < end implies (
                #[trigger] v1.spec_block_id(disk_b, k)) != b by {
                    lemma_data_pos(v1, disk_b, k, d1);
                    assert(v1.spec_item(disk_b, spec_data_pos(k)) == v1.spec_block_id(disk_b, k));
                }
            }
            lemma_stored_facts(disk_b, disk_c, disk_d, x, v1);
            assert forall|ino: int| 0 <= ino < g.max_inodes() implies spec_inode_used(disk_d, ino)
                == spec_inode_used(disk0, ino) by {
                assert(spec_inode_used(disk_b, ino) == spec_inode_used(disk0, ino));
            }
            // the content
            let c_b = v1.spec_content(disk_b);
            assert(c_b =~= file0 + spec_zeros((v1.size - v0.size) as nat)) by {
                assert forall|i: int| 0 <= i < v1.size implies c_b[i] == (file0 + spec_zeros(
                    (v1.size - v0.size) as nat,
                ))[i] by {
                    assert(v1.spec_byte(disk_b, i) == v1.spec_raw(disk_b)[i]);
                    if i < v0.size {
                        assert(v0.spec_raw(disk0)[i] == v0.spec_byte(disk0, i));
                    } else if i < d0 * 512 {
                        assert(v0.spec_raw(disk0)[i] == v0.spec_byte(disk0, i));
                        assert(v0.spec_byte(disk0, i) == 0);
                    }
                }
            }
            assert(buf@.subrange(0, n as int) =~= buf@);
            assert(spec_file(g, disk_d, x) =~= spec_written(file0, offset as int, buf@));
            if x == 0 {
                let file_d = spec_file(g, disk_d, 0);
                assert(spec_dir_inv(g, disk0));
                assert forall|e: int| 0 <= e < spec_dir_len(g, disk_d) implies {
                    &&& 0 < spec_entry_inode(#[trigger] spec_dirent(g, disk_d, e)) < g.max_inodes()
                    &&& spec_inode_used(disk_d, spec_entry_inode(spec_dirent(g, disk_d, e)) as int)
                    &&& valid_utf8(spec_entry_name(spec_dirent(g, disk_d, e)))
                } by {
                    if e < spec_dir_len(g, disk0) {
                        assert(spec_dirent(g, disk_d, e) =~= spec_dirent(g, disk0, e));
                        let m = spec_entry_inode(spec_dirent(g, disk0, e)) as int;
                        assert(spec_inode_used(disk0, m));
                        assert(spec_inode_used(disk_d, m) == spec_inode_used(disk0, m));
                    } else {
                        assert(spec_dirent(g, disk_d, e) =~= buf@);
                        let m = spec_entry_inode(buf@) as int;
                        assert(spec_inode_used(disk_d, m) == spec_inode_used(disk0, m));
                    }
                }
                assert(spec_inode_used(disk_d, 0) == spec_inode_used(disk0, 0));
            }
            lemma_stored(disk_b, disk_c, disk_d, x, v1);
            lemma_others_same_trans(g, disk0, disk_b, disk_d, x);
            if x != 0 {
                assert(spec_inode_used(disk_b, 0) && spec_inode_same(g, disk_b, disk_d, 0));
                lemma_ls_same(disk_b, disk_d);
            }
            assert(disk_d[0] == disk_b[0]);
            assert forall|j: int| 0 <= j < g.data_area_blocks implies fs.data_bitmap.spec_is_set(
                disk_d,
                j,
            ) == fs.data_bitmap.spec_is_set(disk_b, j) by {
                assert(spec_data_used(g, disk_d, j + g.data_area_start()) == spec_data_used(
                    g,
                    disk_b,
                    j + g.data_area_start(),
                ));
            }
            fs.data_bitmap.lemma_free_changed(disk_b, disk_d, g.data_area_blocks, -1);
        }
        n
    }

    /// What a byte of the data blocks of a file is after a write that
    /// `DiskInode::write_at` made: the byte written, if it lies in the range
    /// of the write, else the byte as it was.
    proof fn lemma_byte_written(
        v: DiskInodeView,
        disk: Seq<Seq<u8>>,
        disk2: Seq<Seq<u8>>,
        offset: int,
        buf: Seq<u8>,
        end: int,
        i: int,
    )
        requires
            v.wf(disk),
            spec_valid_blocks(disk),
            disk2.len() == disk.len(),
            0 <= offset <= end <= v.size,
            end <= offset + buf.len(),
            0 <= i < spec_data_blocks(v.size) * 512,
            forall|p: int|
                0 <= p < spec_total_blocks(v.size) ==> (#[trigger] v.spec_item(disk2, p))
                    == v.spec_item(disk, p),
            forall|k: int|
                offset / 512 <= k && k * 512 < end ==> disk2[(#[trigger] v.spec_block_id(
                    disk,
                    k,
                )) as int] == crate::disk_inode::spec_block_written(
                    disk[v.spec_block_id(disk, k) as int],
                    k,
                    offset,
                    buf,
                    end,
                ),
            forall|b: int|
                0 <= b < disk.len() && (forall|k: int|
                    offset / 512 <= k && k * 512 < end ==> (#[trigger] v.spec_block_id(disk, k))
                        != b) ==> (#[trigger] disk2[b]) == disk[b],
        ensures
            v.spec_byte(disk2, i) == (if offset <= i < end {
                buf[i - offset]
            } else {
                v.spec_byte(disk, i)
            }),
    {
        let data = spec_data_blocks(v.size);
        let k = i / 512;
        lemma_data_pos(v, disk, k, data);
        lemma_data_pos(v, disk2, k, data);
        crate::disk_inode::lemma_data_blocks_apart(v, disk, k);
        let bid = v.spec_block_id(disk, k) as int;
        assert(v.spec_block_id(disk2, k) == bid);
        assert(disk[bid].len() == 512);
        if offset / 512 <= k && k * 512 < end {
            assert(disk2[bid] == crate::disk_inode::spec_block_written(
                disk[bid],
                k,
                offset,
                buf,
                end,
            ));
        } else {
            assert forall|j: int| offset / 512 <= j && j * 512 < end implies (
            #[trigger] v.spec_block_id(disk, j)) != bid by {
                assert(j < data);
            }
            assert(disk2[bid] == disk[bid]);
        }
    }

    /// Copies `buf` to the file from `offset` on and returns the number of
    /// bytes copied, which is the length of `buf`. The file grows first to
    /// hold what is written; bytes between its old end and `offset` are
    /// zero. The root directory cannot be written this way.
    pub fn write_at<D: BlockDevice>(
        &self,
        fs: &mut EasyFileSystem<D>,
        offset: usize,
        buf: &[u8],
    ) -> (n: usize)
        requires
            self.spec_live(old(fs)),
            self.spec_ino(old(fs).spec_geometry()) != 0,
            offset + buf@.len() <= MAX_FILE_SIZE,
            old(fs).spec_free_data() >= spec_total_blocks(
                spec_written(
                    spec_file(
                        old(fs).spec_geometry(),
                        old(fs)@,
                        self.spec_ino(old(fs).spec_geometry()),
                    ),
                    offset as int,
                    buf@,
                ).len() as int,
            ) - spec_total_blocks(
                spec_file(
                    old(fs).spec_geometry(),
                    old(fs)@,
                    self.spec_ino(old(fs).spec_geometry()),
                ).len() as int,
            ),
        ensures
            self.spec_live(final(fs)),
            spec_same_mount(final(fs), old(fs)),
            final(fs).spec_geometry() == old(fs).spec_geometry(),
            n == buf@.len(),
            spec_file(
                old(fs).spec_geometry(),
                final(fs)@,
                self.spec_ino(old(fs).spec_geometry()),
            ) == spec_written(
                spec_file(old(fs).spec_geometry(), old(fs)@, self.spec_ino(old(fs).spec_geometry())),
                offset as int,
                buf@,
            ),
            spec_others_same(
                old(fs).spec_geometry(),
                old(fs)@,
                final(fs)@,
                self.spec_ino(old(fs).spec_geometry()),
            ),
            spec_ls(final(fs)@) == spec_ls(old(fs)@),
            spec_inode_at(
                old(fs).spec_geometry(),
                final(fs)@,
                self.spec_ino(old(fs).spec_geometry()),
            ).type_ == spec_inode_at(
                old(fs).spec_geometry(),
                old(fs)@,
                self.spec_ino(old(fs).spec_geometry()),
            ).type_,
            final(fs).spec_free_data() == old(fs).spec_free_data() - (spec_total_blocks(
                spec_file(
                    old(fs).spec_geometry(),
                    final(fs)@,
                    self.spec_ino(old(fs).spec_geometry()),
                ).len() as int,
            ) - spec_total_blocks(
                spec_file(
                    old(fs).spec_geometry(),
                    old(fs)@,
                    self.spec_ino(old(fs).spec_geometry()),
                ).len() as int,
            )),
    {
        self.write_at_inner(fs, offset, buf)
    }

    /// Empties the file and gives all its blocks back to the data bitmap,
    /// each filled with zeros.
    pub fn clear<D: BlockDevice>(&self, fs: &mut EasyFileSystem<D>)
        requires
            self.spec_live(old(fs)),
        ensures
            self.spec_live(final(fs)),
            spec_same_mount(final(fs), old(fs)),
            final(fs).spec_geometry() == old(fs).spec_geometry(),
            spec_file(
                old(fs).spec_geometry(),
                final(fs)@,
                self.spec_ino(old(fs).spec_geometry()),
            ) == Seq::<u8>::empty(),
            spec_inode_at(
                old(fs).spec_geometry(),
                final(fs)@,
                self.spec_ino(old(fs).spec_geometry()),
            ).type_ == spec_inode_at(
                old(fs).spec_geometry(),
                old(fs)@,
                self.spec_ino(old(fs).spec_geometry()),
            ).type_,
            spec_others_same(
                old(fs).spec_geometry(),
                old(fs)@,
                final(fs)@,
                self.spec_ino(old(fs).spec_geometry()),
            ),
            self.spec_ino(old(fs).spec_geometry()) != 0 ==> spec_ls(final(fs)@) == spec_ls(
                old(fs)@,
            ),
            final(fs).spec_free_data() == old(fs).spec_free_data() + spec_total_blocks(
                spec_file(
                    old(fs).spec_geometry(),
                    old(fs)@,
                    self.spec_ino(old(fs).spec_geometry()),
                ).len() as int,
            ),
    {
        let ghost g = fs.spec_geometry();
        let ghost x = self.spec_ino(g);
        let ghost disk0 = fs@;
        let mut disk_inode = self.read_disk_inode(fs);
        let ghost v0 = disk_inode@;
        let ghost t0 = spec_total_blocks(v0.size);
        proof {
            assert(spec_inode_ok(g, disk0, x));
            self.lemma_slot(g, disk0.len() as int);
        }
        let data_blocks_dealloc: Vec<u32> = disk_inode.clear_size(&mut fs.block_cache);
        let ghost disk_1 = fs@;
        let ghost v1 = disk_inode@;
        proof {
            fs.block_cache.lemma_view_valid();
        }
        disk_inode.store(&mut fs.block_cache, self.block_id, self.block_offset);
        let ghost disk_2 = fs@;
        let ghost freed = data_blocks_dealloc@;
        proof {
            fs.block_cache.lemma_view_valid();
            let tblk = g.inode_block(x);
            lemma_inode_round_trip(disk_1[tblk], spec_inode_offset(x), v1);
            if spec_data_blocks(v0.size) > 28 {
                assert(v0.spec_item(disk0, 28) == v0.indirect1);
                assert(g.in_data_area(v0.spec_item(disk0, 28) as int));
            }
            lemma_cleared(disk0, disk_2, x, freed);
            assert forall|j: int| 0 <= j < g.data_area_blocks implies fs.data_bitmap.spec_is_set(
                disk_2,
                j,
            ) == fs.data_bitmap.spec_is_set(disk0, j) by {
                assert(spec_data_used(g, disk_2, j + g.data_area_start()) == spec_data_used(
                    g,
                    disk0,
                    j + g.data_area_start(),
                ));
            }
            fs.data_bitmap.lemma_free_changed(disk0, disk_2, g.data_area_blocks, -1);
        }
        let count: usize = data_blocks_dealloc.len();
        let mut i: usize = 0;
        while i < count
            invariant
                i <= count,
                count == freed.len(),
                freed == data_blocks_dealloc@,
                fs.inv(),
                spec_same_mount(fs, old(fs)),
                fs.spec_geometry() == g,
                g == old(fs).spec_geometry(),
                x == self.spec_ino(g),
                0 <= x < g.max_inodes(),
                spec_others_same(g, disk_2, fs@, -1),
                spec_ls(fs@) == spec_ls(disk_2),
                forall|j: int|
                    i <= j < count ==> {
                        &&& g.in_data_area((#[trigger] freed[j]) as int)
                        &&& spec_data_used(g, fs@, freed[j] as int)
                        &&& spec_unreferenced(g, fs@, freed[j] as int)
                    },
                forall|j: int, k: int|
                    0 <= j < count && 0 <= k < count && j != k ==> (#[trigger] freed[j]) != (
                    #[trigger] freed[k]),
                fs.spec_free_data() == old(fs).spec_free_data() + i,
            decreases count - i,
        {
            let ghost before = fs@;
            fs.dealloc_data(data_blocks_dealloc[i]);
            proof {
                lemma_others_same_trans(g, disk_2, before, fs@, -1);
                assert forall|j: int| i + 1 <= j < count implies {
                    &&& g.in_data_area((#[trigger] freed[j]) as int)
                    &&& spec_data_used(g, fs@, freed[j] as int)
                    &&& spec_unreferenced(g, fs@, freed[j] as int)
                } by {
                    assert(freed[j] != freed[i as int]);
                    assert(spec_data_used(g, before, freed[j] as int));
                    assert(spec_unreferenced(g, before, freed[j] as int));
                }
            }
            i += 1;
        }
        proof {
            lemma_others_same_trans(g, disk0, disk_2, fs@, x);
            assert(spec_inode_used(disk_2, x));
            assert(spec_inode_used(fs@, x) == spec_inode_used(disk_2, x));
            assert(spec_inode_same(g, disk_2, fs@, x));
            assert(spec_file(g, fs@, x) =~= Seq::<u8>::empty());
        }
    }

    /// A search among `n` entries ends at a place up to `n`.
    pub proof fn lemma_find_bounds(disk: Seq<Seq<u8>>, name: Seq<u8>, n: int)
        requires
            0 <= n,
        ensures
            0 <= spec_find_entry(disk, name, n) <= n,
            spec_find_entry(disk, name, n) < n ==> spec_ls(disk)[spec_find_entry(disk, name, n)]
                == name,
        decreases n,
    {
        if n > 0 {
            Self::lemma_find_bounds(disk, name, n - 1);
        }
    }

    /// Once an entry with the name is found, a longer search finds the same.
    pub proof fn lemma_find_stable(disk: Seq<Seq<u8>>, name: Seq<u8>, at: int, n: int)
        requires
            0 <= at < n,
            spec_find_entry(disk, name, at + 1) == at,
        ensures
            spec_find_entry(disk, name, n) == at,
        decreases n,
    {
        if n > at + 1 {
            Self::lemma_find_stable(disk, name, at, n - 1);
        }
    }

    /// Looks `name` up in the directory `disk_inode`, which is the root
    /// directory, and returns the inode number of the first entry of that
    /// name.
    pub fn find_inode_id<D: BlockDevice>(
        &self,
        name: &str,
        disk_inode: &DiskInode,
        fs: &mut EasyFileSystem<D>,
    ) -> (found: Option<u32>)
        requires
            old(fs).inv(),
            disk_inode@ == spec_inode_at(old(fs).spec_geometry(), old(fs)@, 0),
        ensures
            final(fs).inv(),
            final(fs)@ == old(fs)@,
            spec_same_mount(final(fs), old(fs)),
            match found {
                Some(ino) => spec_find(old(fs)@, name.spec_bytes()) == Some(ino as int),
                None => spec_find(old(fs)@, name.spec_bytes()) is None,
            },
    {
        let ghost disk = fs@;
        let ghost g = fs.spec_geometry();
        let ghost wanted = name.spec_bytes();
        proof {
            assert(spec_inode_used(disk, 0));
            assert(spec_inode_ok(g, disk, 0));
        }
        let file_count: usize = (disk_inode.size as usize) / 32;
        let mut buf: Vec<u8> = vec![0u8; 32];
        let mut i: usize = 0;
        while i < file_count
            invariant
                i <= file_count,
                file_count == spec_dir_len(g, disk),
                fs.inv(),
                fs@ == disk,
                disk == old(fs)@,
                g == spec_geometry(disk),
                spec_same_mount(fs, old(fs)),
                disk_inode@ == spec_inode_at(g, disk, 0),
                disk_inode@.wf(disk),
                buf@.len() == 32,
                wanted == name.spec_bytes(),
                spec_find_entry(disk, wanted, i as int) == i,
            decreases file_count - i,
        {
            let n: usize = disk_inode.read_at(32 * i, buf.as_mut_slice(), &mut fs.block_cache);
            let dirent = DirEntry::from_bytes(buf.as_slice());
            proof {
                assert(n == 32);
                assert(buf@ =~= spec_dirent(g, disk, i as int));
                assert(spec_ls(disk)[i as int] == spec_entry_name(spec_dirent(g, disk, i as int)));
            }
            if dirent.name_is(name) {
                proof {
                    assert(spec_find_entry(disk, wanted, i + 1) == i);
                    Self::lemma_find_stable(disk, wanted, i as int, file_count as int);
                }
                return Some(dirent.inode_number());
            }
            i += 1;
        }
        None
    }

    /// Looks `name` up in the root directory, which this handle must point
    /// at, and returns the handle of the inode of the first entry of that
    /// name.
    pub fn find<D: BlockDevice>(&self, fs: &mut EasyFileSystem<D>, name: &str) -> (found: Option<
        Inode,
    >)
        requires
            self.spec_live(old(fs)),
            self.spec_ino(old(fs).spec_geometry()) == 0,
        ensures
            final(fs).inv(),
            final(fs)@ == old(fs)@,
            spec_same_mount(final(fs), old(fs)),
            match found {
                Some(inode) => inode.spec_live(final(fs)) && spec_find(
                    old(fs)@,
                    name.spec_bytes(),
                ) == Some(inode.spec_ino(old(fs).spec_geometry())) && inode.spec_ino(
                    old(fs).spec_geometry(),
                ) != 0,
                None => spec_find(old(fs)@, name.spec_bytes()) is None,
            },
    {
        let ghost g = fs.spec_geometry();
        let ghost disk = fs@;
        let disk_inode = self.read_disk_inode(fs);
        match self.find_inode_id(name, &disk_inode, fs) {
            Some(inode_number) => {
                proof {
                    let n = spec_dir_len(g, disk);
                    let e = spec_find_entry(disk, name.spec_bytes(), n);
                    Self::lemma_find_bounds(disk, name.spec_bytes(), n);
                    assert(spec_dir_inv(g, disk));
                    assert(spec_entry_inode(spec_dirent(g, disk, e)) == inode_number);
                    assert(inode_number / 4 < g.inode_area_blocks);
                }
                let (block_id, block_offset) = fs.get_disk_inode_pos(inode_number);
                Some(Inode::new(block_id, block_offset))
            },
            None => None,
        }
    }

    /// The names of the root directory, which this handle must point at, in
    /// the order of its entries.
    pub fn ls<D: BlockDevice>(&self, fs: &mut EasyFileSystem<D>) -> (names: Vec<String>)
        requires
            self.spec_live(old(fs)),
            self.spec_ino(old(fs).spec_geometry()) == 0,
        ensures
            final(fs).inv(),
            final(fs)@ == old(fs)@,
            spec_same_mount(final(fs), old(fs)),
            names@.len() == spec_ls(old(fs)@).len(),
            forall|e: int|
                0 <= e < names@.len() ==> encode_utf8((#[trigger] names@[e])@) == spec_ls(
                    old(fs)@,
                )[e],
    {
        let ghost g = fs.spec_geometry();
        let ghost disk = fs@;
        let disk_inode = self.read_disk_inode(fs);
        proof {
            assert(spec_inode_ok(g, disk, 0));
        }
        let file_count: usize = (disk_inode.size as usize) / 32;
        let mut filenames: Vec<String> = Vec::new();
        let mut buf: Vec<u8> = vec![0u8; 32];
        let mut i: usize = 0;
        while i < file_count
            invariant
                i <= file_count,
                file_count == spec_dir_len(g, disk),
                fs.inv(),
                fs@ == disk,
                disk == old(fs)@,
                g == spec_geometry(disk),
                spec_same_mount(fs, old(fs)),
                disk_inode@ == spec_inode_at(g, disk, 0),
                disk_inode@.wf(disk),
                buf@.len() == 32,
                filenames@.len() == i,
                forall|e: int|
                    0 <= e < i ==> encode_utf8((#[trigger] filenames@[e])@) == spec_ls(disk)[e],
            decreases file_count - i,
        {
            let n: usize = disk_inode.read_at(32 * i, buf.as_mut_slice(), &mut fs.block_cache);
            let dirent = DirEntry::from_bytes(buf.as_slice());
            proof {
                assert(n == 32);
                assert(buf@ =~= spec_dirent(g, disk, i as int));
                assert(spec_dir_inv(g, disk));
                assert(valid_utf8(spec_entry_name(spec_dirent(g, disk, i as int))));
                assert(spec_ls(disk)[i as int] == spec_entry_name(spec_dirent(g, disk, i as int)));
            }
            let name: &str = dirent.name();
            let owned: String = name.to_owned();
            filenames.push(owned);
            i += 1;
        }
        filenames
    }

    /// Creates an empty file called `name` in the root directory, which this
    /// handle must point at, and returns the handle of the new inode.
    /// Returns `None`, and changes nothing, if the directory has an entry of
    /// that name.
    ///
    /// The new inode is the lowest one that is not in use. Its entry is
    /// appended to the directory; a name with a zero byte in it is stored up
    /// to that byte. Everything is written through to the device.
    #[verifier::rlimit(60)]
    pub fn create<D: BlockDevice>(&self, fs: &mut EasyFileSystem<D>, name: &str) -> (created:
        Option<Inode>)
        requires
            self.spec_live(old(fs)),
            self.spec_ino(old(fs).spec_geometry()) == 0,
            name.spec_bytes().len() <= 27,
            spec_find(old(fs)@, name.spec_bytes()) is None ==> {
                &&& old(fs).spec_free_inodes() > 0
                &&& spec_file(old(fs).spec_geometry(), old(fs)@, 0).len() + 32 <= MAX_FILE_SIZE
                &&& old(fs).spec_free_data() >= spec_total_blocks(
                    (spec_file(old(fs).spec_geometry(), old(fs)@, 0).len() + 32) as int,
                ) - spec_total_blocks(spec_file(old(fs).spec_geometry(), old(fs)@, 0).len() as int)
            },
        ensures
            final(fs).inv(),
            spec_same_mount(final(fs), old(fs)),
            final(fs).spec_geometry() == old(fs).spec_geometry(),
            match created {
                None => spec_find(old(fs)@, name.spec_bytes()) is Some && final(fs)@ == old(fs)@,
                Some(inode) => {
                    &&& spec_find(old(fs)@, name.spec_bytes()) is None
                    &&& inode.spec_live(final(fs))
                    &&& inode.spec_ino(old(fs).spec_geometry()) != 0
                    &&& !spec_inode_used(old(fs)@, inode.spec_ino(old(fs).spec_geometry()))
                    &&& forall|j: int|
                        0 <= j < inode.spec_ino(old(fs).spec_geometry()) ==> spec_inode_used(
                            old(fs)@,
                            j,
                        )
                    &&& spec_file(
                        old(fs).spec_geometry(),
                        final(fs)@,
                        inode.spec_ino(old(fs).spec_geometry()),
                    ) == Seq::<u8>::empty()
                    &&& spec_inode_at(
                        old(fs).spec_geometry(),
                        final(fs)@,
                        inode.spec_ino(old(fs).spec_geometry()),
                    ).type_ == DiskInodeType::File
                    &&& spec_ls(final(fs)@) == spec_ls(old(fs)@).push(
                        name.spec_bytes().subrange(0, spec_first_nul(name.spec_bytes(), 0)),
                    )
                    &&& forall|ino: int|
                        0 < ino < old(fs).spec_geometry().max_inodes() && ino != inode.spec_ino(
                            old(fs).spec_geometry(),
                        ) ==> (#[trigger] spec_inode_used(final(fs)@, ino)) == spec_inode_used(
                            old(fs)@,
                            ino,
                        ) && spec_inode_same(old(fs).spec_geometry(), old(fs)@, final(fs)@, ino)
                    &&& final(fs).block_cache.spec_device_blocks() == final(fs)@
                },
            },
    {
        let ghost g = fs.spec_geometry();
        let ghost disk0 = fs@;
        let ghost wanted = name.spec_bytes();
        let mut root_inode = self.read_disk_inode(fs);
        let ghost root0 = root_inode@;
        // check if the name was existed
        if self.find_inode_id(name, &root_inode, fs).is_some() {
            return None;
        }
        // create an inode for the new file
        let inode_number: u32 = fs.alloc_inode();
        let ghost disk_1 = fs@;
        proof {
            assert(inode_number != 0) by {
                assert(spec_inode_used(disk0, 0));
            }
            assert(inode_number / 4 < g.inode_area_blocks);
            fs.block_cache.lemma_view_valid();
        }
        let (block_id, block_offset) = fs.get_disk_inode_pos(inode_number);
        let new_inode = DiskInode::new(DiskInodeType::File);
        new_inode.store(&mut fs.block_cache, block_id as usize, block_offset);
        let ghost disk_2 = fs@;
        proof {
            fs.block_cache.lemma_view_valid();
            let n = inode_number as int;
            lemma_inode_round_trip(disk_1[g.inode_block(n)], spec_inode_offset(n), new_inode@);
            assert(g.inode_block(n) != 1 + n / 4096);
            assert forall|j: int| 0 <= j < g.max_inodes() implies spec_inode_used(disk_2, j) == (j
                == n || spec_inode_used(disk0, j)) by {
                lemma_bits_frame(disk_1, disk_2, 1, g.inode_bitmap_blocks, j);
            }
            lemma_inv_new_inode(disk0, disk_2, n);
            assert(spec_inode_used(disk0, 0));
            assert(spec_inode_used(disk_2, 0) == spec_inode_used(disk0, 0));
            assert(spec_inode_same(g, disk0, disk_2, 0));
            assert forall|j: int| 0 <= j < g.data_area_blocks implies fs.data_bitmap.spec_is_set(
                disk_2,
                j,
            ) == fs.data_bitmap.spec_is_set(disk0, j) by {
                assert(spec_data_used(g, disk_2, j + g.data_area_start()) == spec_data_used(
                    g,
                    disk0,
                    j + g.data_area_start(),
                ));
            }
            fs.data_bitmap.lemma_free_changed(disk0, disk_2, g.data_area_blocks, -1);
            assert(spec_inode_ok(g, disk0, 0));
            assert(spec_dir_inv(g, disk0));
        }
        // append a directory entry for the new file to the root dir
        let offset: u32 = root_inode.size;
        let dirent = DirEntry::new(name, inode_number);
        let bytes: Vec<u8> = dirent.as_bytes();
        proof {
            lemma_entry_bytes(wanted, inode_number);
            encode_utf8_valid_utf8(name@);
            lemma_name_valid(wanted);
        }
        let written: usize = self.write_at_inner(fs, offset as usize, bytes.as_slice());
        let ghost disk_3 = fs@;
        fs.block_cache.sync_all();
        proof {
            let n = inode_number as int;
            let stored = wanted.subrange(0, spec_first_nul(wanted, 0));
            let file0 = spec_file(g, disk0, 0);
            let file3 = spec_file(g, disk_3, 0);
            assert(spec_file(g, disk_2, 0) == file0);
            assert(file3 =~= file0 + bytes@);
            assert forall|e: int| 0 <= e < spec_dir_len(g, disk0) implies spec_dirent(g, disk_3, e)
                == spec_dirent(g, disk0, e) by {
                assert(spec_dirent(g, disk_3, e) =~= spec_dirent(g, disk0, e));
            }
            assert(spec_dirent(g, disk_3, spec_dir_len(g, disk0)) =~= bytes@);
            assert(spec_ls(disk_3) =~= spec_ls(disk0).push(stored));
            assert(spec_inode_used(disk_2, n));
            assert(spec_inode_used(disk_3, n) == spec_inode_used(disk_2, n));
            assert(spec_inode_same(g, disk_2, disk_3, n));
            assert(spec_file(g, disk_3, n) =~= Seq::<u8>::empty());
            assert forall|ino: int| 0 < ino < g.max_inodes() && ino != n implies (
            #[trigger] spec_inode_used(disk_3, ino)) == spec_inode_used(disk0, ino)
                && spec_inode_same(g, disk0, disk_3, ino) by {
                assert(spec_inode_used(disk_2, ino) == spec_inode_used(disk0, ino));
                assert(spec_inode_same(g, disk0, disk_2, ino));
                assert(spec_inode_same(g, disk_2, disk_3, ino));
                if spec_inode_used(disk0, ino) {
                    let v = spec_inode_at(g, disk0, ino);
                    assert forall|p: int| 0 <= p < spec_total_blocks(v.size) implies (
                    #[trigger] v.spec_item(disk_3, p)) == v.spec_item(disk0, p) by {
                        assert(v.spec_item(disk_2, p) == v.spec_item(disk0, p));
                    }
                }
            }
        }
        Some(Inode::new(block_id, block_offset))
    }
}

} // verus!
