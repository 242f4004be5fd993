use rcore_os::bitmap::{decomposition, Bitmap};
use rcore_os::block_cache::BlockCacheManager;
use rcore_os::block_dev::{BlockDevice, RamDisk};
use rcore_os::codec::{get_u32, get_u64, set_u32, set_u64};
use rcore_os::disk_inode::{DiskInode, DiskInodeType};
use rcore_os::layout::{DirEntry, SuperBlock};

#[test]
fn total_blocks_counts_index_blocks() {
    assert_eq!(DiskInode::total_blocks(0), 0);
    assert_eq!(DiskInode::total_blocks(1), 1);
    assert_eq!(DiskInode::total_blocks(512), 1);
    assert_eq!(DiskInode::total_blocks(513), 2);
    assert_eq!(DiskInode::total_blocks(28 * 512), 28);
    assert_eq!(DiskInode::total_blocks(28 * 512 + 1), 30);
    assert_eq!(DiskInode::total_blocks(156 * 512), 157);
    assert_eq!(DiskInode::total_blocks(156 * 512 + 1), 160);
    assert_eq!(DiskInode::total_blocks(284 * 512), 287);
    assert_eq!(DiskInode::total_blocks(285 * 512), 289);
    assert_eq!(DiskInode::total_blocks(8468480), 16540 + 2 + 128);
    assert_eq!(DiskInode::total_blocks(u32::MAX), 8388608 + 2 + 65535);
    assert_eq!(DiskInode::_data_blocks(u32::MAX), 8388608);
}

#[test]
fn blocks_num_needed_is_the_difference() {
    let mut inode = DiskInode::new(DiskInodeType::File);
    assert_eq!(inode.blocks_num_needed(0), 0);
    assert_eq!(inode.blocks_num_needed(29 * 512), 30);
    inode.size = 28 * 512;
    assert_eq!(inode.data_blocks(), 28);
    assert_eq!(inode.blocks_num_needed(29 * 512), 2);
}

#[test]
fn inode_types() {
    let mut inode = DiskInode::new(DiskInodeType::File);
    assert!(inode.is_file());
    assert!(!inode.is_dir());
    inode.size = 77;
    inode.direct[3] = 9;
    inode.initialize(DiskInodeType::Directory);
    assert!(inode.is_dir());
    assert_eq!(inode.size, 0);
    assert_eq!(inode.direct, [0u32; 28]);
}

#[test]
fn increase_size_consumes_block_ids_in_order() {
    let mut cache = BlockCacheManager::new(RamDisk::new(1024));
    let mut inode = DiskInode::new(DiskInodeType::File);
    // 30 data blocks: 28 direct, the indirect block, 2 entries
    let ids: Vec<u32> = (100..131).collect();
    inode.increase_size(30 * 512, ids.clone(), &mut cache);
    assert_eq!(inode.size, 30 * 512);
    assert_eq!(&inode.direct[..], &ids[..28]);
    assert_eq!(inode.indirect1, 128);
    assert_eq!(inode.get_block_id(0, &mut cache), 100);
    assert_eq!(inode.get_block_id(27, &mut cache), 127);
    assert_eq!(inode.get_block_id(28, &mut cache), 129);
    assert_eq!(inode.get_block_id(29, &mut cache), 130);
    // grow behind the indirect block: 156 blocks in it, then the doubly
    // indirect block, the first indirect block behind it, and one entry
    let more: Vec<u32> = (200..329).collect();
    inode.increase_size(157 * 512, more, &mut cache);
    assert_eq!(inode.get_block_id(30, &mut cache), 200);
    assert_eq!(inode.get_block_id(155, &mut cache), 325);
    assert_eq!(inode.indirect2, 326);
    assert_eq!(cache.read_u32(326, 0), 327);
    assert_eq!(inode.get_block_id(156, &mut cache), 328);
    // and clear hands them back in the same order
    let freed = inode.clear_size(&mut cache);
    let mut expected: Vec<u32> = (100..131).collect();
    expected.extend(200..329);
    assert_eq!(freed, expected);
    assert_eq!(freed.len() as u32, DiskInode::total_blocks(157 * 512));
    assert_eq!(inode.size, 0);
    assert_eq!(inode.indirect1, 0);
    assert_eq!(inode.indirect2, 0);
    assert_eq!(inode.direct, [0u32; 28]);
}

#[test]
fn disk_inode_write_does_not_grow_the_file() {
    let mut cache = BlockCacheManager::new(RamDisk::new(64));
    let mut inode = DiskInode::new(DiskInodeType::File);
    inode.increase_size(600, vec![10, 11], &mut cache);
    assert_eq!(inode.write_at(590, b"0123456789abcdef", &mut cache), 10);
    assert_eq!(inode.write_at(600, b"x", &mut cache), 0);
    let mut buf = [0u8; 32];
    assert_eq!(inode.read_at(588, &mut buf, &mut cache), 12);
    assert_eq!(&buf[..12], b"\0\x000123456789");
    // the bytes cross from block 10 to block 11
    let mut raw = [0u8; 2];
    cache.read_bytes(11, 86, &mut raw, 0, 2);
    assert_eq!(&raw, b"89");
}

#[test]
fn disk_inode_is_stored_in_128_bytes() {
    let mut cache = BlockCacheManager::new(RamDisk::new(8));
    let mut inode = DiskInode::new(DiskInodeType::Directory);
    inode.size = 0x01020304;
    inode.direct[0] = 0xa0b0c0d0;
    inode.direct[27] = 27;
    inode.indirect1 = 5;
    inode.indirect2 = 6;
    assert_eq!(inode.to_bytes().len(), 125);
    inode.store(&mut cache, 3, 128);
    let mut raw = [0u8; 512];
    cache.read_bytes(3, 0, &mut raw, 0, 512);
    assert!(raw[..128].iter().all(|b| *b == 0));
    assert_eq!(&raw[128..136], &[4, 3, 2, 1, 0xd0, 0xc0, 0xb0, 0xa0]);
    assert_eq!(&raw[128 + 112..128 + 125], &[27, 0, 0, 0, 5, 0, 0, 0, 6, 0, 0, 0, 1]);
    assert!(raw[256..].iter().all(|b| *b == 0));
    let back = DiskInode::load(&mut cache, 3, 128);
    assert_eq!(back.size, inode.size);
    assert_eq!(back.direct, inode.direct);
    assert_eq!(back.indirect1, 5);
    assert_eq!(back.indirect2, 6);
    assert!(back.is_dir());
    assert!(DiskInode::load(&mut cache, 3, 0).is_file());
}

#[test]
fn super_block_layout() {
    let mut cache = BlockCacheManager::new(RamDisk::new(4));
    let mut sb = SuperBlock::empty();
    assert!(!sb.is_valid());
    sb.initialize(4096, 1, 1024, 1, 3069);
    assert!(sb.is_valid());
    sb.store(&mut cache, 0);
    let mut raw = [0u8; 24];
    cache.read_bytes(0, 0, &mut raw, 0, 24);
    assert_eq!(&raw[..8], &[0x01, 0x00, 0x80, 0x3b, 0x00, 0x10, 0x00, 0x00]);
    let back = SuperBlock::load(&mut cache, 0);
    assert!(back.is_valid());
    assert_eq!(
        (
            back.total_blocks,
            back.inode_bitmap_blocks,
            back.inode_area_blocks,
            back.data_bitmap_blocks,
            back.data_area_blocks
        ),
        (4096, 1, 1024, 1, 3069)
    );
    assert_eq!(1 + 1 + 1024 + 1 + 3069, 4096);
}

#[test]
fn dir_entry_names() {
    let entry = DirEntry::new("filea", 7);
    assert_eq!(entry.name(), "filea");
    assert_eq!(entry.inode_number(), 7);
    assert_eq!(entry.name_len(), 5);
    assert!(entry.name_is("filea"));
    assert!(!entry.name_is("fileb"));
    assert!(!entry.name_is("file"));
    let bytes = entry.as_bytes();
    assert_eq!(bytes.len(), 32);
    assert_eq!(&bytes[..6], b"filea\0");
    assert_eq!(&bytes[28..], &[7, 0, 0, 0]);
    let back = DirEntry::from_bytes(&bytes);
    assert_eq!(back.name(), "filea");
    assert_eq!(back.inode_number(), 7);
    let empty = DirEntry::empty();
    assert_eq!(empty.name(), "");
    assert_eq!(empty.inode_number(), 0);
    // a name with multi-byte characters comes back as it went in
    assert_eq!(DirEntry::new("grüße", 1).name(), "grüße");
}

#[test]
fn little_endian_fields() {
    let mut bytes = [0u8; 16];
    set_u32(&mut bytes, 2, 0x11223344);
    assert_eq!(&bytes[..8], &[0, 0, 0x44, 0x33, 0x22, 0x11, 0, 0]);
    assert_eq!(get_u32(&bytes, 2), 0x11223344);
    set_u64(&mut bytes, 8, 0x0102030405060708);
    assert_eq!(&bytes[8..], &[8, 7, 6, 5, 4, 3, 2, 1]);
    assert_eq!(get_u64(&bytes, 8), 0x0102030405060708);
    assert_eq!(get_u64(&[0xff; 8], 0), u64::MAX);
    assert_eq!(get_u32(&[0xff; 4], 0), u32::MAX);
}

#[test]
fn bitmap_takes_the_lowest_clear_bit() {
    let mut cache = BlockCacheManager::new(RamDisk::new(8));
    let bitmap = Bitmap::new(2, 2);
    assert_eq!(bitmap.maximum(), 8192);
    for expected in 0..130usize {
        assert_eq!(bitmap.allocate(&mut cache), Some(expected));
    }
    assert_eq!(cache.read_u64(2, 0), u64::MAX);
    assert_eq!(cache.read_u64(2, 16), 0b11);
    bitmap.dealloc(&mut cache, 64);
    bitmap.dealloc(&mut cache, 3);
    assert_eq!(bitmap.count_free(&mut cache, 8192), 8192 - 128);
    assert_eq!(bitmap.allocate(&mut cache), Some(3));
    assert_eq!(bitmap.allocate(&mut cache), Some(64));
    assert_eq!(bitmap.allocate(&mut cache), Some(130));
    assert_eq!(decomposition(4096 + 64 * 3 + 5), (1, 3, 5));
}

#[test]
fn a_full_bitmap_has_nothing_to_give() {
    let mut cache = BlockCacheManager::new(RamDisk::new(2));
    let bitmap = Bitmap::new(1, 1);
    for _ in 0..4096 {
        assert!(bitmap.allocate(&mut cache).is_some());
    }
    assert_eq!(bitmap.allocate(&mut cache), None);
    assert_eq!(bitmap.count_free(&mut cache, 4096), 0);
}

#[test]
fn cache_writes_back_on_eviction_and_on_sync() {
    let mut cache = BlockCacheManager::new(RamDisk::new(64));
    cache.modify_u32(0, 0, 0xdeadbeef);
    // nothing has reached the device yet
    let mut raw = [0u8; 512];
    cache.device().read_block(0, &mut raw);
    assert_eq!(&raw[..4], &[0, 0, 0, 0]);
    // fifteen more blocks fill the cache; the seventeenth evicts block 0
    for id in 1..16 {
        assert_eq!(cache.read_u32(id, 0), 0);
    }
    cache.device().read_block(0, &mut raw);
    assert_eq!(&raw[..4], &[0, 0, 0, 0]);
    cache.read_u32(16, 0);
    cache.device().read_block(0, &mut raw);
    assert_eq!(&raw[..4], &[0xef, 0xbe, 0xad, 0xde]);
    // and the logical disk still has it
    assert_eq!(cache.read_u32(0, 0), 0xdeadbeef);
    cache.modify_bytes(40, 500, b"tail");
    cache.sync_all();
    let device = cache.into_device();
    device.read_block(40, &mut raw);
    assert_eq!(&raw[500..504], b"tail");
    assert_eq!(device.num_blocks(), 64);
}
