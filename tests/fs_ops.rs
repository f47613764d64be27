use kernel_core::efs::{total_blocks, DiskInode, DiskInodeType, EasyFileSystem, EFS_MAGIC};
use kernel_core::vfs::Inode;

fn popcount(fs: &EasyFileSystem) -> usize {
    fs.data_bitmap.iter().filter(|b| **b).count()
}

fn formatted() -> (EasyFileSystem, Inode) {
    let fs = EasyFileSystem::create(4096, 1);
    let root = fs.root_inode();
    (fs, root)
}

#[test]
fn format_layout() {
    let (fs, root) = formatted();
    assert_eq!(fs.super_block.magic, EFS_MAGIC);
    assert_eq!(fs.super_block.total_blocks, 4096);
    assert_eq!(fs.super_block.inode_area_blocks, 1024);
    assert_eq!(fs.super_block.data_bitmap_blocks, 1);
    assert_eq!(fs.super_block.data_area_blocks, 3069);
    assert_eq!(fs.inode_area_start_block, 2);
    assert_eq!(fs.data_area_start_block, 1027);
    assert_eq!(fs.inodes.len(), 4096);
    assert_eq!(popcount(&fs), 0);
    assert_eq!(root.fstat_id(&fs), 0);
    assert_eq!(root.get_mode_id(&fs), 1);
}

#[test]
fn create_then_ls_and_nlink() {
    let (mut fs, root) = formatted();
    assert!(root.ls(&fs).is_empty());
    let a = root.create(&mut fs, "a").unwrap();
    assert_eq!(root.ls(&fs), vec![String::from("a")]);
    assert_eq!(a.fstat_nlink(&fs), 1);
    assert_eq!(a.fstat_id(&fs), 1);
    assert_eq!(a.get_mode_id(&fs), 2);
    assert!(root.create(&mut fs, "a").is_none());
    assert_eq!(root.ls(&fs).len(), 1);
}

#[test]
fn ls_after_three_creates() {
    let (mut fs, root) = formatted();
    root.create(&mut fs, "a").unwrap();
    root.create(&mut fs, "b").unwrap();
    root.create(&mut fs, "c").unwrap();
    assert_eq!(root.ls(&fs), vec![String::from("a"), String::from("b"), String::from("c")]);
}

#[test]
fn ls_keeps_creation_order() {
    let (mut fs, root) = formatted();
    root.create(&mut fs, "c").unwrap();
    root.create(&mut fs, "a").unwrap();
    root.create(&mut fs, "b").unwrap();
    assert_eq!(root.ls(&fs), vec![String::from("c"), String::from("a"), String::from("b")]);
    assert_eq!(root.find(&fs, "a").unwrap().fstat_id(&fs), 2);
    assert!(root.find(&fs, "z").is_none());
}

#[test]
fn write_read_clear() {
    let (mut fs, root) = formatted();
    let a = root.create(&mut fs, "a").unwrap();
    assert_eq!(a.write_at(&mut fs, 0, b"hello"), 5);
    let mut buf = [0u8; 5];
    assert_eq!(a.read_at(&fs, 0, &mut buf), 5);
    assert_eq!(&buf, b"hello");
    a.clear(&mut fs);
    let mut buf2 = [0u8; 5];
    assert_eq!(a.read_at(&fs, 0, &mut buf2), 0);
    assert_eq!(buf2, [0u8; 5]);
    assert_eq!(a.fstat_nlink(&fs), 1);
}

#[test]
fn read_is_clipped_and_gaps_are_zero() {
    let (mut fs, root) = formatted();
    let a = root.create(&mut fs, "a").unwrap();
    assert_eq!(a.write_at(&mut fs, 3, b"xy"), 2);
    let mut buf = [9u8; 8];
    assert_eq!(a.read_at(&fs, 0, &mut buf), 5);
    assert_eq!(buf, [0, 0, 0, b'x', b'y', 9, 9, 9]);
    assert_eq!(a.read_at(&fs, 7, &mut buf), 0);
}

#[test]
fn link_then_unlink() {
    let (mut fs, root) = formatted();
    let a = root.create(&mut fs, "a").unwrap();
    a.write_at(&mut fs, 0, b"data");
    assert_eq!(root.link_at(&mut fs, "a", "b"), 0);
    assert_eq!(a.fstat_nlink(&fs), 2);
    assert_eq!(root.ls(&fs), vec![String::from("a"), String::from("b")]);
    assert_eq!(root.unlink_at(&mut fs, "a"), 0);
    let b = root.find(&fs, "b").unwrap();
    assert_eq!(b.fstat_nlink(&fs), 1);
    let mut buf = [0u8; 4];
    assert_eq!(b.read_at(&fs, 0, &mut buf), 4);
    assert_eq!(&buf, b"data");
    assert_eq!(root.link_at(&mut fs, "missing", "c"), -1);
    assert_eq!(root.unlink_at(&mut fs, "missing"), -1);
}

#[test]
fn unlink_last_link_frees_blocks() {
    let (mut fs, root) = formatted();
    let baseline = popcount(&fs);
    let a = root.create(&mut fs, "a").unwrap();
    let data = vec![7u8; 20000];
    assert_eq!(a.write_at(&mut fs, 0, &data), 20000);
    // one block for the directory's entries, and the file's blocks
    assert_eq!(popcount(&fs), baseline + 1 + total_blocks(20000) as usize);
    assert_eq!(root.link_at(&mut fs, "a", "b"), 0);
    assert_eq!(root.unlink_at(&mut fs, "a"), 0);
    assert_eq!(popcount(&fs), baseline + 1 + total_blocks(20000) as usize);
    assert_eq!(root.unlink_at(&mut fs, "b"), 0);
    assert_eq!(popcount(&fs), baseline);
    assert!(root.ls(&fs).is_empty());
}

#[test]
fn shrinking_directory_gives_blocks_back() {
    let (mut fs, root) = formatted();
    let names: Vec<String> = (0..17).map(|i| format!("f{}", i)).collect();
    for n in &names {
        root.create(&mut fs, n).unwrap();
    }
    assert_eq!(fs.inodes[0].size, 17 * 32);
    assert_eq!(fs.inodes[0].blocks.len(), 2);
    assert_eq!(popcount(&fs), 2);
    assert_eq!(root.unlink_at(&mut fs, "f3"), 0);
    assert_eq!(fs.inodes[0].size, 512);
    assert_eq!(fs.inodes[0].blocks.len(), 1);
    assert_eq!(popcount(&fs), 1);
}

#[test]
fn unlink_moves_last_entry_into_the_hole() {
    let (mut fs, root) = formatted();
    for n in ["a", "b", "c", "d"] {
        root.create(&mut fs, n).unwrap();
    }
    assert_eq!(root.unlink_at(&mut fs, "b"), 0);
    assert_eq!(root.ls(&fs), vec![String::from("a"), String::from("d"), String::from("c")]);
    assert_eq!(fs.inodes[0].size, 96);
}

#[test]
fn total_blocks_values() {
    assert_eq!(total_blocks(0), 0);
    assert_eq!(total_blocks(1), 1);
    assert_eq!(total_blocks(512), 1);
    assert_eq!(total_blocks(513), 2);
    assert_eq!(total_blocks(28 * 512), 28);
    assert_eq!(total_blocks(28 * 512 + 1), 30);
    assert_eq!(total_blocks(156 * 512), 157);
    assert_eq!(total_blocks(156 * 512 + 1), 160);
    assert_eq!(total_blocks(284 * 512), 287);
    assert_eq!(total_blocks(284 * 512 + 1), 289);
}

#[test]
fn disk_inode_growth_and_refs() {
    let mut d = DiskInode::new(DiskInodeType::File);
    assert!(d.is_file() && !d.is_dir());
    assert_eq!(d.blocks_num_needed(14337), 30);
    d.increase_size(600, vec![5, 6]);
    assert_eq!(d.blocks, vec![5, 6]);
    assert_eq!(d.content.len(), 600);
    assert_eq!(d.write_at(598, b"ok"), 2);
    d.add_ref();
    assert_eq!(d.ref_cnt, 2);
    d.minus_ref();
    d.minus_ref();
    assert!(d.can_remove());
    assert_eq!(d.clear_size(), vec![5, 6]);
    assert_eq!(d.size, 0);
}

#[test]
fn allocator_takes_lowest_free() {
    let (mut fs, _root) = formatted();
    let b0 = fs.alloc_data();
    let b1 = fs.alloc_data();
    assert_eq!(b0, 1027);
    assert_eq!(b1, 1028);
    fs.dealloc_data(b0);
    assert_eq!(fs.alloc_data(), 1027);
    assert_eq!(fs.alloc_inode(), 1);
    assert_eq!(fs.get_disk_inode_pos(5), (3, 128));
    assert_eq!(fs.get_inode_by_pos(3, 128), 5);
}

#[test]
fn bitmap_matches_block_needs() {
    let (mut fs, root) = formatted();
    let needed = |fs: &EasyFileSystem| -> usize {
        fs.inodes.iter().map(|d| total_blocks(d.size) as usize).sum()
    };
    let a = root.create(&mut fs, "a").unwrap();
    let b = root.create(&mut fs, "b").unwrap();
    a.write_at(&mut fs, 0, &vec![1u8; 90000]);
    b.write_at(&mut fs, 100, b"tail");
    assert_eq!(popcount(&fs), needed(&fs));
    a.clear(&mut fs);
    assert_eq!(popcount(&fs), needed(&fs));
    b.write_at(&mut fs, 20000, b"more");
    root.unlink_at(&mut fs, "b");
    assert_eq!(popcount(&fs), needed(&fs));
}
