use kernel::buffer::BufferCache;
use kernel::cache::CacheRc;
use kernel::filesystem::device::RamDisk;
use kernel::filesystem::directory_entry::DirectoryEntry;
use kernel::filesystem::log::LogHeader;
use kernel::filesystem::path::{next_element, starts_at_root};
use kernel::filesystem::superblock::SuperBlock;
use kernel::log::Log;

fn disk() -> RamDisk {
    RamDisk::new(vec![vec![1u8; 16], vec![2u8; 16], vec![3u8; 16]])
}

#[test]
fn buffers_are_read_once_and_written_through() {
    let mut cache: BufferCache<16, 2> = BufferCache::new();
    let mut d = disk();
    let mut g = cache.get(0, 1).unwrap();
    assert_eq!(g.size(&cache), 16);
    assert_eq!(g.block_number(), 1);
    assert_eq!(g.read(&mut cache, &mut d, 4), vec![2u8; 4]);
    d.contents[1] = vec![9u8; 16];
    assert_eq!(g.read(&mut cache, &mut d, 4), vec![2u8; 4]);
    assert_eq!(g.read_array(&mut cache, &mut d, 5), vec![2u8; 15]);
    g.write(&mut cache, &mut d, &vec![7u8; 3]);
    assert_eq!(d.contents[1][..5], [7, 7, 7, 2, 2]);
    g.clear(&mut cache);
    assert_eq!(g.read(&mut cache, &mut d, 16), vec![0u8; 16]);
    g.release(&mut cache);
}

#[test]
fn a_cache_holds_no_more_than_its_size() {
    let mut cache: BufferCache<16, 2> = BufferCache::new();
    let a = cache.get(0, 0).unwrap();
    let b = cache.get(0, 1).unwrap();
    assert!(cache.get(0, 2).is_none());
    a.pin(&mut cache);
    a.unpin(&mut cache);
    a.release(&mut cache);
    assert!(cache.get(0, 2).is_some());
    b.release(&mut cache);
}

#[test]
fn references_are_counted() {
    let mut cache: CacheRc<u32, 3> = CacheRc::new();
    let (i, is_new) = cache.get(10).unwrap();
    assert!(is_new);
    assert_eq!(cache.get(10), Some((i, false)));
    assert_eq!(cache.reference_count(i), Some(2));
    assert_eq!(cache.duplicate(i), Some(i));
    assert_eq!(cache.reference_count(i), Some(3));
    assert_eq!(cache.release(i), Some(false));
    assert_eq!(cache.release(i), Some(false));
    assert_eq!(cache.release(i), Some(true));
    assert_eq!(cache.reference_count(7), None);
    // a free slot takes another key
    assert!(cache.get(11).unwrap().1);
}

#[test]
fn directory_entries() {
    let e = DirectoryEntry::new(0x1234, &b"name".to_vec());
    let b = e.to_bytes();
    assert_eq!(b[..7], [0x34, 0x12, b'n', b'a', b'm', b'e', 0]);
    assert_eq!(b.len(), 16);
    let f = DirectoryEntry::from_bytes(&b);
    assert_eq!(f.inode_number(), 0x1234);
    assert!(f.is(&b"name".to_vec()));
    assert!(!f.is(&b"other".to_vec()));
    // a name stands for every entry that begins with it, and only 14 bytes count
    assert!(f.is(&b"na".to_vec()));
    let long = DirectoryEntry::new(1, &b"abcdefghijklmnop".to_vec());
    assert!(long.is(&b"abcdefghijklmnxx".to_vec()));
    assert_eq!(DirectoryEntry::unused().inode_number(), 0);
}

#[test]
fn paths_have_elements() {
    let p = b"//a/bc/".to_vec();
    assert!(starts_at_root(&p));
    assert!(!starts_at_root(&b"a/b".to_vec()));
    let (x, at) = next_element(&p, 0).unwrap();
    assert_eq!(x, b"a".to_vec());
    let (y, at) = next_element(&p, at).unwrap();
    assert_eq!(y, b"bc".to_vec());
    assert!(next_element(&p, at).is_none());
}

#[test]
fn superblocks_tell_where_things_are() {
    let mut b = vec![0u8; 32];
    b[24] = 32;
    b[28] = 45;
    let sb = SuperBlock::from_bytes(&b);
    assert_eq!(sb.inode_block_at(33), 34);
    assert_eq!(sb.bitmap_at(8192), 46);
    assert_eq!(SuperBlock::zeroed().magic, 0);
}

#[test]
fn empty_logs() {
    assert_eq!(LogHeader::empty().n, 0);
    let log = Log::uninit();
    assert_eq!(log.outstanding, 0);
    assert!(!log.committing);
}

#[test]
fn an_unused_slot_can_be_counted() {
    let mut cache: CacheRc<u32, 3> = CacheRc::new();
    assert_eq!(cache.duplicate(1), Some(1));
    assert_eq!(cache.reference_count(1), Some(1));
    assert_eq!(cache.duplicate(3), None);
}
