use kernel::config::ROOTDEV;
use kernel::filesystem::device::RamDisk;
use kernel::filesystem::inode::InodeKind;
use kernel::filesystem::FSMAGIC;
use kernel::fs::create::OpenMode;
use kernel::filesystem::file::InodeReference;
use kernel::fs::{initialize, FileSystem};

const SIZE: usize = 400;

fn put32(b: &mut Vec<u8>, at: usize, v: u32) {
    b[at..at + 4].copy_from_slice(&v.to_le_bytes());
}

/// An empty file system: log from block 2, inodes from 32, free map at 45, data from 46.
fn image() -> Vec<Vec<u8>> {
    let mut blocks: Vec<Vec<u8>> = vec![vec![0u8; 1024]; SIZE];
    let fields = [FSMAGIC, SIZE as u32, (SIZE - 46) as u32, 200, 30, 2, 32, 45];
    for (i, v) in fields.iter().enumerate() {
        put32(&mut blocks[1], 4 * i, *v);
    }
    // the root directory
    blocks[32][64] = 1;
    blocks[32][70] = 1;
    put32(&mut blocks[32], 72, 32);
    put32(&mut blocks[32], 76, 46);
    blocks[46][0] = 1;
    blocks[46][2] = b'.';
    blocks[46][16] = 1;
    blocks[46][18] = b'.';
    blocks[46][19] = b'.';
    for b in 0..47 {
        blocks[45][b / 8] |= 1 << (b % 8);
    }
    blocks
}

fn mounted() -> FileSystem<RamDisk> {
    initialize(RamDisk::new(image()), ROOTDEV)
}

fn bytes(s: &str) -> Vec<u8> {
    s.as_bytes().to_vec()
}

fn lookup() -> OpenMode {
    OpenMode { create: false, read_only: true, truncate: false }
}

fn open(fs: &mut FileSystem<RamDisk>, path: &str) -> Option<InodeReference> {
    fs.open_file(&bytes(path), &None, &lookup(), true).ok().map(|x| x.0)
}

fn make(fs: &mut FileSystem<RamDisk>, path: &str) -> InodeReference {
    let g = fs.create(&bytes(path), &None, InodeKind::File, 0, 0).unwrap();
    InodeReference { cache_index: g.cache_index }
}

#[test]
fn what_is_written_is_read_back() {
    let mut fs = mounted();
    let x = make(&mut fs, "/a");
    let data: Vec<u8> = (0..3000u32).map(|i| (i % 251) as u8).collect();
    assert_eq!(fs.write_file(&x, &data, 0, 3000), 3000);
    assert_eq!(fs.read_file(&x, 0, 4000), data);
    assert_eq!(fs.read_file(&x, 1000, 50), data[1000..1050].to_vec());
    assert_eq!(fs.read_file(&x, 3001, 1), Vec::<u8>::new());
    let s = fs.stat_file(&x);
    assert_eq!((s.device, s.inode, s.nlink, s.size), (1, 2, 1, 3000));
    assert_eq!(s.kind, InodeKind::File);
}

#[test]
fn bytes_beside_a_write_stay() {
    let mut fs = mounted();
    let x = make(&mut fs, "/a");
    assert_eq!(fs.write_file(&x, &vec![7u8; 2000], 0, 2000), 2000);
    assert_eq!(fs.write_file(&x, &vec![9u8; 100], 1000, 100), 100);
    let all = fs.read_file(&x, 0, 2000);
    assert_eq!(all[..1000], vec![7u8; 1000][..]);
    assert_eq!(all[1000..1100], vec![9u8; 100][..]);
    assert_eq!(all[1100..], vec![7u8; 900][..]);
}

#[test]
fn a_file_cannot_be_written_beyond_its_end() {
    let mut fs = mounted();
    let x = make(&mut fs, "/a");
    assert_eq!(fs.write_file(&x, &vec![1u8; 10], 5, 10), 0);
    assert_eq!(fs.stat_file(&x).size, 0);
}

#[test]
fn unreadable_source_ends_a_write_at_a_block() {
    let mut fs = mounted();
    let x = make(&mut fs, "/a");
    // 1500 of 3000 bytes could be read: one whole block is written
    assert_eq!(fs.write_file(&x, &vec![1u8; 1500], 0, 3000), 1024);
    assert_eq!(fs.stat_file(&x).size, 1024);
}

#[test]
fn large_files_use_the_indirect_block() {
    let mut fs = mounted();
    let x = make(&mut fs, "/big");
    let mut offset = 0;
    for i in 0..10u8 {
        assert_eq!(fs.write_file(&x, &vec![i; 3072], offset, 3072), 3072);
        offset += 3072;
    }
    assert_eq!(fs.stat_file(&x).size, 30720);
    assert_eq!(fs.read_file(&x, 9 * 3072 + 100, 4), vec![9u8; 4]);
}

#[test]
fn a_created_file_is_found_and_a_removed_one_is_not() {
    let mut fs = mounted();
    let x = make(&mut fs, "/file");
    fs.drop_file(x);
    let y = open(&mut fs, "/file").unwrap();
    assert_eq!(fs.stat_file(&y).inode, 2);
    fs.drop_file(y);
    assert!(open(&mut fs, "/other").is_none());
    assert_eq!(fs.unlink(&bytes("/file"), &None), Ok(()));
    assert!(open(&mut fs, "/file").is_none());
    assert_eq!(fs.unlink(&bytes("/file"), &None), Err(()));
    // the inode is free again
    let z = make(&mut fs, "/next");
    assert_eq!(fs.stat_file(&z).inode, 2);
}

#[test]
fn an_open_file_survives_its_name() {
    let mut fs = mounted();
    let x = make(&mut fs, "/gone");
    assert_eq!(fs.write_file(&x, &vec![3u8; 20], 0, 20), 20);
    assert_eq!(fs.unlink(&bytes("/gone"), &None), Ok(()));
    assert_eq!(fs.read_file(&x, 0, 100), vec![3u8; 20]);
    assert_eq!(fs.stat_file(&x).nlink, 0);
    fs.drop_file(x);
    let y = make(&mut fs, "/new");
    assert_eq!(fs.stat_file(&y).inode, 2);
    assert_eq!(fs.stat_file(&y).size, 0);
}

#[test]
fn links_count() {
    let mut fs = mounted();
    let x = make(&mut fs, "/a");
    assert_eq!(fs.link(&bytes("/b"), &bytes("/a"), &None), Ok(()));
    assert_eq!(fs.stat_file(&x).nlink, 2);
    assert_eq!(fs.link(&bytes("/b"), &bytes("/a"), &None), Err(()));
    assert_eq!(fs.link(&bytes("/c"), &bytes("/missing"), &None), Err(()));
    assert_eq!(fs.link(&bytes("/d"), &bytes("/"), &None), Err(()));
    assert_eq!(fs.unlink(&bytes("/a"), &None), Ok(()));
    assert_eq!(fs.stat_file(&x).nlink, 1);
    let y = open(&mut fs, "/b").unwrap();
    assert_eq!(y.cache_index, x.cache_index);
}

#[test]
fn directories() {
    let mut fs = mounted();
    assert_eq!(fs.make_directory(&bytes("/d"), &None), Ok(()));
    assert_eq!(fs.make_directory(&bytes("/d"), &None), Err(()));
    assert_eq!(fs.make_directory(&bytes("/none/e"), &None), Err(()));
    let x = make(&mut fs, "/d/f");
    fs.drop_file(x);
    assert_eq!(fs.unlink(&bytes("/d"), &None), Err(()));
    assert_eq!(fs.unlink(&bytes("/d/."), &None), Err(()));
    let up = open(&mut fs, "/d/..").unwrap();
    assert_eq!(fs.stat_file(&up).inode, 1);
    assert_eq!(fs.stat_file(&up).nlink, 2);
    fs.drop_file(up);
    assert_eq!(fs.unlink(&bytes("/d/f"), &None), Ok(()));
    assert_eq!(fs.unlink(&bytes("/d"), &None), Ok(()));
    assert!(open(&mut fs, "/d").is_none());
}

#[test]
fn relative_paths_begin_at_the_current_directory() {
    let mut fs = mounted();
    assert_eq!(fs.make_directory(&bytes("/d"), &None), Ok(()));
    let cwd = fs.change_directory(&bytes("/d"), &None).unwrap();
    let g = fs.create(&bytes("x"), &Some(cwd), InodeKind::File, 0, 0).unwrap();
    assert!(open(&mut fs, "/d/x").is_some());
    assert!(open(&mut fs, "/x").is_none());
    fs.drop_file(InodeReference { cache_index: g.cache_index });
    assert_eq!(fs.change_directory(&bytes("x"), &Some(cwd)), Err(()));
    assert_eq!(fs.change_directory(&bytes("nowhere"), &Some(cwd)), Err(()));
    let up = fs.change_directory(&bytes(".."), &Some(cwd)).unwrap();
    assert_eq!(fs.stat_file(&InodeReference { cache_index: up }).inode, 1);
}

#[test]
fn devices_have_numbers() {
    let mut fs = mounted();
    assert_eq!(fs.make_special_file(&bytes("/console"), &None, 1, 0), Ok(()));
    let (x, major) = fs.open_file(&bytes("/console"), &None, &lookup(), true).ok().unwrap();
    assert_eq!(major, Some(1));
    assert_eq!(fs.stat_file(&x).kind, InodeKind::Device);
    assert_eq!(fs.make_special_file(&bytes("/odd"), &None, 10, 0), Ok(()));
    assert!(open(&mut fs, "/odd").is_none());
}

#[test]
fn open_modes() {
    let mut fs = mounted();
    let create = OpenMode { create: true, read_only: false, truncate: false };
    let (x, _) = fs.open_file(&bytes("/a"), &None, &create, true).ok().unwrap();
    assert_eq!(fs.write_file(&x, &vec![1u8; 10], 0, 10), 10);
    let (y, _) = fs.open_file(&bytes("/a"), &None, &create, true).ok().unwrap();
    assert_eq!(fs.stat_file(&y).size, 10);
    assert!(fs.open_file(&bytes("/a"), &None, &create, false).is_err());
    assert_eq!(fs.stat_file(&y).size, 10);
    let truncate = OpenMode { create: false, read_only: false, truncate: true };
    assert!(fs.open_file(&bytes("/a"), &None, &truncate, true).is_ok());
    assert_eq!(fs.stat_file(&y).size, 0);
    assert!(fs.open_file(&bytes("/"), &None, &truncate, true).is_err());
    assert!(fs.open_file(&bytes("/"), &None, &lookup(), true).is_ok());
}

#[test]
fn the_disk_can_fill_up() {
    let mut fs = mounted();
    let x = make(&mut fs, "/a");
    let mut offset = 0;
    let mut pieces = 0;
    loop {
        let wrote = fs.write_file(&x, &vec![1u8; 3072], offset, 3072);
        if wrote != 3072 {
            break;
        }
        offset += 3072;
        pieces += 1;
    }
    // a file has 268 blocks at most, so the limit on its size comes first
    assert_eq!(pieces, 89);
    let y = make(&mut fs, "/b");
    let mut last = 3072;
    let mut at = 0;
    while last == 3072 {
        last = fs.write_file(&y, &vec![2u8; 3072], at, 3072);
        at += last;
    }
    assert_eq!(last, 0);
    // the inode is left without space
    assert!(at < 100 * 1024);
}

#[test]
fn changes_are_on_the_disk_when_a_call_ends() {
    let mut fs = mounted();
    let x = make(&mut fs, "/a");
    assert_eq!(fs.write_file(&x, &vec![5u8; 10], 0, 10), 10);
    let blocks = fs.volume.storage.device.contents.clone();
    let mut again = initialize(RamDisk::new(blocks), ROOTDEV);
    let y = open(&mut again, "/a").unwrap();
    assert_eq!(again.read_file(&y, 0, 10), vec![5u8; 10]);
}

#[test]
fn a_commit_that_was_cut_short_is_completed() {
    let mut blocks = image();
    // the log says that block 46 becomes what stands in the first log block
    put32(&mut blocks[2], 0, 1);
    put32(&mut blocks[2], 4, 46);
    let mut root = blocks[46].clone();
    root[100] = 0;
    blocks[3] = root.clone();
    blocks[46] = vec![0xffu8; 1024];
    let fs = initialize(RamDisk::new(blocks), ROOTDEV);
    let device = &fs.volume.storage.device.contents;
    assert_eq!(device[46], root);
    assert_eq!(device[2][..4], [0u8; 4]);
}

#[test]
fn a_full_disk_has_room_for_names_only() {
    let mut fs = mounted();
    let x = make(&mut fs, "/a");
    let mut at = 0;
    while fs.write_file(&x, &vec![1u8; 1024], at, 1024) == 1024 {
        at += 1024;
    }
    let y = make(&mut fs, "/b");
    let mut at = 0;
    while fs.write_file(&y, &vec![2u8; 1024], at, 1024) == 1024 {
        at += 1024;
    }
    // an empty file takes no block but that of its directory
    assert!(fs.create(&bytes("/c"), &None, InodeKind::File, 0, 0).is_ok());
    assert!(fs.make_special_file(&bytes("/dev"), &None, 2, 0).is_ok());
    assert!(fs.make_directory(&bytes("/x"), &None).is_err());
    assert!(open(&mut fs, "/x").is_none());
}

#[test]
fn a_taken_name_is_not_linked() {
    let mut fs = mounted();
    let x = make(&mut fs, "/a");
    make(&mut fs, "/b");
    assert!(fs.link(&bytes("/b"), &bytes("/a"), &None).is_err());
    assert_eq!(fs.stat_file(&x).nlink, 1);
    assert!(fs.link(&bytes("/c"), &bytes("/a"), &None).is_ok());
    assert_eq!(fs.stat_file(&x).nlink, 2);
}

#[test]
fn without_room_in_memory_a_path_leads_nowhere() {
    let mut fs = mounted();
    let root = open(&mut fs, "/").unwrap();
    let mut held = vec![];
    for i in 0..49 {
        held.push(make(&mut fs, &format!("/f{}", i)));
    }
    // the root and these files fill the cache of inodes
    assert!(fs.create(&bytes("/more"), &None, InodeKind::File, 0, 0).is_err());
    assert!(open(&mut fs, "/f7").is_some());
    fs.drop_file(held.pop().unwrap());
    assert!(fs.create(&bytes("/other"), &None, InodeKind::File, 0, 0).is_ok());
    fs.drop_file(root);
}

#[test]
fn dots_cannot_be_removed() {
    let mut fs = mounted();
    assert!(fs.make_directory(&bytes("/d"), &None).is_ok());
    assert!(fs.unlink(&bytes("/d/."), &None).is_err());
    assert!(fs.unlink(&bytes("/d/.."), &None).is_err());
    assert!(fs.unlink(&bytes("/d"), &None).is_ok());
}

#[test]
fn open_files_are_used_while_another_call_is_active() {
    let mut fs = mounted();
    let x = make(&mut fs, "/a");
    assert!(fs.begin());
    assert_eq!(fs.write_file(&x, &vec![7u8; 100], 0, 100), 100);
    assert_eq!(fs.read_file(&x, 0, 200), vec![7u8; 100]);
    assert_eq!(fs.stat_file(&x).size, 100);
    // the last call that is active commits
    assert_eq!(fs.volume.storage.log.outstanding, 1);
    assert_eq!(fs.volume.storage.device.contents[47][..100], vec![0u8; 100][..]);
    fs.end();
    assert_eq!(fs.volume.storage.device.contents[47][..100], vec![7u8; 100][..]);
    assert_eq!(fs.volume.storage.log.header.n, 0);
}

#[test]
fn a_relative_path_needs_no_room_for_the_root() {
    let mut fs = mounted();
    assert!(fs.make_directory(&bytes("/d"), &None).is_ok());
    let d = open(&mut fs, "/d").unwrap().cache_index;
    for i in 0..49 {
        let name = format!("f{:02}", i);
        assert!(fs.create(&bytes(&name), &Some(d), InodeKind::File, 0, 0).is_ok());
    }
    // every slot is taken, and none by the root
    assert!(fs.get(ROOTDEV, 1).is_none());
    let x = fs.search_inode(&bytes("f07"), &Some(d)).unwrap();
    assert_eq!(fs.stat_file(&x).kind, InodeKind::File);
}
