use rcore_os::block_dev::RamDisk;
use rcore_os::efs::EasyFileSystem;
use rcore_os::vfs::Inode;

const BLOCK_SIZE: usize = 512;

fn fresh(total_blocks: u32) -> EasyFileSystem<RamDisk> {
    EasyFileSystem::create(RamDisk::new(8192), total_blocks, 1)
}

fn random_digits(len: usize) -> Vec<u8> {
    let mut digits = Vec::with_capacity(len);
    for _ in 0..len {
        digits.push(b'0' + rand::random::<u8>() % 10);
    }
    digits
}

fn read_in_chunks(fs: &mut EasyFileSystem<RamDisk>, file: &Inode, chunk: usize) -> Vec<u8> {
    let mut out = Vec::new();
    let mut buffer = vec![0u8; chunk];
    let mut offset = 0usize;
    loop {
        let len = file.read_at(fs, offset, &mut buffer);
        if len == 0 {
            break;
        }
        offset += len;
        out.extend_from_slice(&buffer[..len]);
    }
    out
}

#[test]
fn efs_test() {
    // init file system, then mount what is on the device
    let created = EasyFileSystem::create(RamDisk::new(8192), 4096, 1);
    let device = created.block_cache.into_device();
    let mut efs = EasyFileSystem::open(device);
    let root_inode = efs.root_inode();
    // create two files
    root_inode.create(&mut efs, "filea");
    root_inode.create(&mut efs, "fileb");
    assert_eq!(root_inode.ls(&mut efs), vec![String::from("filea"), String::from("fileb")]);
    let filea = root_inode.find(&mut efs, "filea").unwrap();
    let greet_str = "Hello, world!";
    filea.write_at(&mut efs, 0, greet_str.as_bytes());
    let mut buffer = [0u8; 233];
    let len = filea.read_at(&mut efs, 0, &mut buffer);
    assert_eq!(greet_str, core::str::from_utf8(&buffer[..len]).unwrap());

    let mut random_str_test = |len: usize| {
        filea.clear(&mut efs);
        assert_eq!(filea.read_at(&mut efs, 0, &mut buffer), 0);
        let written = random_digits(len);
        filea.write_at(&mut efs, 0, &written);
        let read = read_in_chunks(&mut efs, &filea, 127);
        assert_eq!(written, read);
    };

    random_str_test(4 * BLOCK_SIZE);
    random_str_test(8 * BLOCK_SIZE + BLOCK_SIZE / 2);
    random_str_test(100 * BLOCK_SIZE);
    random_str_test(70 * BLOCK_SIZE + BLOCK_SIZE / 7);
    random_str_test((12 + 128) * BLOCK_SIZE);
    random_str_test(400 * BLOCK_SIZE);
    random_str_test(1000 * BLOCK_SIZE);
    random_str_test(2000 * BLOCK_SIZE);
}

#[test]
fn create_then_list_in_order() {
    let mut fs = fresh(4096);
    let root = fs.root_inode();
    assert!(root.ls(&mut fs).is_empty());
    assert!(root.create(&mut fs, "filea").is_some());
    assert!(root.create(&mut fs, "fileb").is_some());
    let names = root.ls(&mut fs);
    assert_eq!(names, vec![String::from("filea"), String::from("fileb")]);
}

#[test]
fn create_of_an_existing_name_is_refused() {
    let mut fs = fresh(4096);
    let root = fs.root_inode();
    let first = root.create(&mut fs, "filea").unwrap();
    let before = fs.free_inodes();
    assert!(root.create(&mut fs, "filea").is_none());
    assert_eq!(fs.free_inodes(), before);
    assert_eq!(root.ls(&mut fs), vec![String::from("filea")]);
    assert_eq!(root.find(&mut fs, "filea"), Some(first));
}

#[test]
fn new_files_take_the_lowest_free_inode() {
    let mut fs = fresh(4096);
    let root = fs.root_inode();
    let a = root.create(&mut fs, "a").unwrap();
    let b = root.create(&mut fs, "b").unwrap();
    // inode 1 is the second slot of the first inode block, inode 2 the third
    assert_eq!((a.block_id, a.block_offset), (2, 128));
    assert_eq!((b.block_id, b.block_offset), (2, 256));
    assert_eq!(fs.free_inodes(), 4096 - 3);
}

#[test]
fn find_of_a_missing_name_is_none() {
    let mut fs = fresh(4096);
    let root = fs.root_inode();
    root.create(&mut fs, "filea");
    assert!(root.find(&mut fs, "fileb").is_none());
    assert!(root.find(&mut fs, "file").is_none());
    assert!(root.find(&mut fs, "fileaa").is_none());
    assert!(root.find(&mut fs, "").is_none());
}

#[test]
fn hello_world_round_trip() {
    let mut fs = fresh(4096);
    let root = fs.root_inode();
    root.create(&mut fs, "filea");
    let filea = root.find(&mut fs, "filea").unwrap();
    let greet_str = "Hello, world!";
    assert_eq!(filea.write_at(&mut fs, 0, greet_str.as_bytes()), 13);
    let mut buffer = [0u8; 233];
    let len = filea.read_at(&mut fs, 0, &mut buffer);
    assert_eq!(len, 13);
    assert_eq!(greet_str, core::str::from_utf8(&buffer[..len]).unwrap());
    // the rest of the buffer is untouched
    assert!(buffer[13..].iter().all(|b| *b == 0));
}

#[test]
fn read_past_the_end_gets_nothing() {
    let mut fs = fresh(4096);
    let root = fs.root_inode();
    let file = root.create(&mut fs, "f").unwrap();
    file.write_at(&mut fs, 0, b"abc");
    let mut buffer = [7u8; 8];
    assert_eq!(file.read_at(&mut fs, 3, &mut buffer), 0);
    assert_eq!(file.read_at(&mut fs, 100, &mut buffer), 0);
    assert_eq!(buffer, [7u8; 8]);
    assert_eq!(file.read_at(&mut fs, 1, &mut buffer), 2);
    assert_eq!(&buffer[..2], b"bc");
}

#[test]
fn write_behind_the_end_leaves_zeros_in_the_gap() {
    let mut fs = fresh(4096);
    let root = fs.root_inode();
    let file = root.create(&mut fs, "f").unwrap();
    file.write_at(&mut fs, 0, b"ab");
    assert_eq!(file.write_at(&mut fs, 1000, b"yz"), 2);
    let all = read_in_chunks(&mut fs, &file, 300);
    assert_eq!(all.len(), 1002);
    assert_eq!(&all[..2], b"ab");
    assert!(all[2..1000].iter().all(|b| *b == 0));
    assert_eq!(&all[1000..], b"yz");
}

#[test]
fn overwrite_in_place_keeps_the_size() {
    let mut fs = fresh(4096);
    let root = fs.root_inode();
    let file = root.create(&mut fs, "f").unwrap();
    file.write_at(&mut fs, 0, b"0123456789");
    let free = fs.free_data_blocks();
    assert_eq!(file.write_at(&mut fs, 3, b"xy"), 2);
    assert_eq!(fs.free_data_blocks(), free);
    assert_eq!(read_in_chunks(&mut fs, &file, 4), b"012xy56789".to_vec());
}

#[test]
fn writes_to_one_file_leave_the_other_alone() {
    let mut fs = fresh(4096);
    let root = fs.root_inode();
    let a = root.create(&mut fs, "a").unwrap();
    let b = root.create(&mut fs, "b").unwrap();
    let content_a = random_digits(40 * BLOCK_SIZE + 11);
    let content_b = random_digits(200 * BLOCK_SIZE + 5);
    a.write_at(&mut fs, 0, &content_a);
    b.write_at(&mut fs, 0, &content_b);
    assert_eq!(read_in_chunks(&mut fs, &a, 512), content_a);
    a.clear(&mut fs);
    assert_eq!(read_in_chunks(&mut fs, &a, 512), Vec::<u8>::new());
    assert_eq!(read_in_chunks(&mut fs, &b, 333), content_b);
    assert_eq!(fs.root_inode().ls(&mut fs), vec![String::from("a"), String::from("b")]);
}

#[test]
fn clear_gives_every_block_back() {
    let mut fs = fresh(4096);
    let root = fs.root_inode();
    let file = root.create(&mut fs, "f").unwrap();
    let free = fs.free_data_blocks();
    // 300 data blocks, the indirect block, the doubly indirect block and
    // two indirect blocks behind it
    file.write_at(&mut fs, 0, &vec![1u8; 300 * BLOCK_SIZE]);
    assert_eq!(fs.free_data_blocks(), free - 304);
    file.clear(&mut fs);
    assert_eq!(fs.free_data_blocks(), free);
    let mut buffer = [0u8; 16];
    assert_eq!(file.read_at(&mut fs, 0, &mut buffer), 0);
}

#[test]
fn freed_blocks_read_as_zeros_when_taken_again() {
    let mut fs = fresh(4096);
    let root = fs.root_inode();
    let file = root.create(&mut fs, "f").unwrap();
    file.write_at(&mut fs, 0, &vec![0xffu8; 3 * BLOCK_SIZE]);
    file.clear(&mut fs);
    let block = fs.alloc_data();
    let mut bytes = [1u8; 512];
    fs.block_cache.read_bytes(block as usize, 0, &mut bytes, 0, 512);
    assert!(bytes.iter().all(|b| *b == 0));
}

#[test]
fn data_blocks_are_taken_lowest_first() {
    let mut fs = fresh(4096);
    let first = fs.alloc_data();
    let second = fs.alloc_data();
    // 1 super block, 1 inode bitmap, 1024 inode blocks, 1 data bitmap
    assert_eq!(first, 1027);
    assert_eq!(second, 1028);
    fs.dealloc_data(first);
    assert_eq!(fs.alloc_data(), 1027);
}

#[test]
fn a_fresh_image_has_the_expected_geometry() {
    let mut fs = fresh(4096);
    assert_eq!(fs.inode_area_start_block, 2);
    assert_eq!(fs.data_area_start_block, 1027);
    assert_eq!(fs.inode_bitmap.maximum(), 4096);
    assert_eq!(fs.free_data_blocks(), 3069);
    assert_eq!(fs.free_inodes(), 4095);
    assert_eq!(fs.get_disk_inode_pos(0), (2, 0));
    assert_eq!(fs.get_disk_inode_pos(5), (3, 128));
    assert_eq!(fs.get_data_block_id(7), 1034);
}

#[test]
fn names_are_stored_up_to_27_bytes_and_up_to_a_zero_byte() {
    let mut fs = fresh(4096);
    let root = fs.root_inode();
    let long = "abcdefghijklmnopqrstuvwxyz0";
    assert_eq!(long.len(), 27);
    assert!(root.create(&mut fs, long).is_some());
    assert!(root.create(&mut fs, "x\0y").is_some());
    assert!(root.create(&mut fs, "äö").is_some());
    assert_eq!(
        root.ls(&mut fs),
        vec![String::from(long), String::from("x"), String::from("äö")]
    );
    assert!(root.find(&mut fs, long).is_some());
    assert!(root.find(&mut fs, "x").is_some());
    assert!(root.find(&mut fs, "x\0y").is_none());
}

#[test]
fn the_image_survives_a_remount() {
    let mut fs = fresh(4096);
    let root = fs.root_inode();
    let file = root.create(&mut fs, "kept").unwrap();
    let content = random_digits(30 * BLOCK_SIZE + 1);
    file.write_at(&mut fs, 0, &content);
    fs.block_cache.sync_all();
    let mut again = EasyFileSystem::open(fs.block_cache.into_device());
    let root = again.root_inode();
    assert_eq!(root.ls(&mut again), vec![String::from("kept")]);
    let file = root.find(&mut again, "kept").unwrap();
    assert_eq!(read_in_chunks(&mut again, &file, 127), content);
}
