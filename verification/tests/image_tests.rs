//! The image's byte form round-trips exactly.

use vsfs::image::{DATA_OFF, IBM_OFF, IMAGE_BYTES, IND_OFF, INODE_OFF};
use vsfs::repr::{ALIGN_SIZE, INDEX_BLOCK_COUNT, INODE_COUNT};
use vsfs::path::Path;
use vsfs::repr::Disk;
use vsfs::vsfs::{create_dir, create_file, init, write_file};

#[test]
fn image_round_trip() {
    let mut disk = Disk::new();
    init(&mut disk);
    create_dir(&mut disk, &Path::root(), "home").unwrap();
    create_file(&mut disk, &Path::from_str("/home").unwrap(), "notes.txt").unwrap();
    let payload = vec![42u8; 5000];
    write_file(&mut disk, &Path::from_str("/home/notes.txt").unwrap(), 0, &payload).unwrap();

    let bytes = disk.to_bytes();
    assert_eq!(bytes.len(), IMAGE_BYTES);

    let back = Disk::from_bytes(&bytes);
    assert!(back == disk);
}

#[test]
fn fresh_image_round_trip() {
    let mut disk = Disk::new();
    disk.sb.version = 24;
    disk.sb.root_inum = 3333;

    let bytes = disk.to_bytes();
    let back = Disk::from_bytes(&bytes);
    assert!(back == disk);
}

#[test]
fn test_size() {
    // One inode slot spans 128 bytes of the image.
    assert_eq!((IND_OFF - INODE_OFF) / INODE_COUNT, 128);

    // The superblock spans one 4096-byte block, and every index block's
    // worth of slots or indirect words spans 4096 bytes too.
    assert_eq!(IBM_OFF, 4096);
    assert_eq!((IND_OFF - INODE_OFF) / INDEX_BLOCK_COUNT, 4096);
    assert_eq!((DATA_OFF - IND_OFF) / INDEX_BLOCK_COUNT, 4096);
    assert_eq!(ALIGN_SIZE, 4096);

    println!("image size: {}", IMAGE_BYTES);
    println!("largest stored payload: {} bytes", vsfs::repr::DATA_BLOCK_COUNT * 4096);
    println!("{:?}", vsfs::repr::DATA_BITMAP_BLOCK_COUNT);
}
