use rcore_os::block_cache::{BlockCacheManager, CACHE_SIZE};
use rcore_os::block_dev::{BlockDevice, BLOCK_SIZE};
use rcore_os::efs::EasyFileSystem;
use rcore_os::layout::SuperBlock;

/// A device in memory that counts what is asked of it.
struct CountingDisk {
    data: Vec<[u8; BLOCK_SIZE]>,
    reads: std::cell::Cell<usize>,
    writes: usize,
}

impl CountingDisk {
    fn new(num_blocks: usize) -> Self {
        Self { data: vec![[0u8; BLOCK_SIZE]; num_blocks], reads: std::cell::Cell::new(0), writes: 0 }
    }
}

impl BlockDevice for CountingDisk {
    fn read_block(&self, block_id: usize, buf: &mut [u8]) {
        self.reads.set(self.reads.get() + 1);
        buf.copy_from_slice(&self.data[block_id]);
    }

    fn write_block(&mut self, block_id: usize, buf: &[u8]) {
        self.writes += 1;
        self.data[block_id].copy_from_slice(buf);
    }
}

#[test]
fn a_cached_block_is_read_from_the_device_once() {
    let mut cache = BlockCacheManager::new(CountingDisk::new(64));
    for _ in 0..10 {
        assert_eq!(cache.read_u32(3, 8), 0);
    }
    assert_eq!(cache.device().reads.get(), 1);
    cache.modify_u32(3, 8, 0xdead_beef);
    cache.modify_u32(3, 12, 7);
    assert_eq!(cache.read_u32(3, 8), 0xdead_beef);
    let device = cache.device();
    assert_eq!((device.reads.get(), device.writes), (1, 0));
    assert_eq!(device.data[3][8..12], [0, 0, 0, 0]);
}

#[test]
fn the_oldest_block_leaves_a_full_cache_and_is_written_if_it_changed() {
    let mut cache = BlockCacheManager::new(CountingDisk::new(64));
    cache.modify_u32(0, 0, 0x0403_0201);
    for block in 1..CACHE_SIZE {
        cache.read_u32(block, 0);
    }
    assert_eq!((cache.device().reads.get(), cache.device().writes), (16, 0));
    // block 16 takes the place of block 0, which is written back
    cache.read_u32(CACHE_SIZE, 0);
    assert_eq!((cache.device().reads.get(), cache.device().writes), (17, 1));
    assert_eq!(cache.device().data[0][..4], [1, 2, 3, 4]);
    // block 17 takes the place of block 1, which has not changed
    cache.read_u32(CACHE_SIZE + 1, 0);
    assert_eq!((cache.device().reads.get(), cache.device().writes), (18, 1));
    // block 2 is still there, block 0 is read again
    cache.read_u32(2, 0);
    assert_eq!(cache.device().reads.get(), 18);
    assert_eq!(cache.read_u32(0, 0), 0x0403_0201);
    assert_eq!(cache.device().reads.get(), 19);
}

#[test]
fn sync_writes_every_changed_block_once() {
    let mut cache = BlockCacheManager::new(CountingDisk::new(64));
    cache.modify_u64(5, 16, u64::MAX);
    cache.modify_bytes(6, 500, &[9u8; 12]);
    cache.read_u32(7, 0);
    cache.sync_all();
    assert_eq!(cache.device().writes, 2);
    cache.sync_all();
    assert_eq!(cache.device().writes, 2);
    let device = cache.into_device();
    assert_eq!(device.data[5][16..24], [0xff; 8]);
    assert_eq!(device.data[6][500..], [9u8; 12]);
}

#[test]
fn a_file_system_on_a_device_of_the_caller() {
    let mut fs = EasyFileSystem::create(CountingDisk::new(4096), 4096, 1);
    let root = fs.root_inode();
    let file = root.create(&mut fs, "a").unwrap();
    assert_eq!(file.write_at(&mut fs, 0, b"persistent"), 10);
    fs.block_cache.sync_all();
    let device = fs.block_cache.into_device();
    assert!(device.writes > 0);
    // the image on the device is a file system
    let mut cache = BlockCacheManager::new(device);
    let super_block = SuperBlock::load(&mut cache, 0);
    assert!(super_block.is_valid());
    let mut fs = EasyFileSystem::open(cache.into_device());
    let file = fs.root_inode().find(&mut fs, "a").unwrap();
    let mut buf = [0u8; 32];
    assert_eq!(file.read_at(&mut fs, 0, &mut buf), 10);
    assert_eq!(&buf[..10], b"persistent");
}
