//! The filesystem API over whole images.

use vsfs::bitmap::set_state;
use vsfs::inode::get_inode;
use vsfs::path::Path;
use vsfs::repr::Disk;
use vsfs::vsfs::{create_dir, create_file, delete_dir, delete_file, get_dir, init, init_dir, is_dir,
    path_exists, read_file, write_file, Error};

#[test]
fn test_new() {
    let disk = Disk::new();
    assert_eq!(disk.sb.version, 0);
    assert_eq!(disk.sb.root_inum, 0);
}

#[test]
fn test_init_dir() {
    let mut disk = Disk::new();
    init(&mut disk);
    set_state(&mut disk.i_bitmaps, 1, true);
    init_dir(&mut disk, 1);

    let inode = get_inode(&disk.i_blocks, 0);

    assert_ne!(inode.size, 0);
}

#[test]
fn test_create_dir() {
    let mut disk = Disk::new();
    init(&mut disk);
    let mut path = Path::root();
    create_dir(&mut disk, &path, "test").unwrap();

    let dir = get_dir(&disk, &path).unwrap();
    assert_eq!(dir.entries.len(), 1);
    assert_eq!(dir.entries[0].name, "test");
    assert_eq!(is_dir(&disk, &path).unwrap(), true);

    path.push("test".to_string());
    let dir = get_dir(&disk, &path).unwrap();
    assert_eq!(dir.entries.len(), 0);
    assert_eq!(is_dir(&disk, &path).unwrap(), true);
}

#[test]
fn test_create_file() {
    let mut disk = Disk::new();
    init(&mut disk);
    let mut path = Path::root();
    create_file(&mut disk, &path, "test.c").unwrap();

    let dir = get_dir(&disk, &path).unwrap();
    assert_eq!(dir.entries.len(), 1);
    assert_eq!(dir.entries[0].name, "test.c");

    path.push("test.c".to_string());
    assert_eq!(is_dir(&disk, &path).unwrap(), false);
}

#[test]
fn test_rw_file() {
    let mut disk = Disk::new();
    init(&mut disk);
    let mut path = Path::root();
    create_file(&mut disk, &path, "test.c").unwrap();

    path.push("test.c".to_string());
    let mut buf = vec![0u8; 4096];
    for i in 0..4096 {
        buf[i] = i as u8;
    }
    write_file(&mut disk, &path, 1000, &buf).unwrap();

    let mut read_buf = vec![0u8; 4096];
    read_file(&disk, &path, 1000, &mut read_buf).unwrap();
    assert_eq!(read_buf, buf);
}

#[test]
fn test_delete() {
    let mut disk = Disk::new();
    init(&mut disk);
    let mut path = Path::root();
    create_file(&mut disk, &path, "test.c").unwrap();

    let dir = get_dir(&disk, &path).unwrap();
    assert_eq!(dir.entries.len(), 1);
    assert_eq!(dir.entries[0].name, "test.c");

    path.push("test.c".to_string());
    delete_file(&mut disk, &path).unwrap();

    path = path.parent().unwrap();

    let dir = get_dir(&disk, &path).unwrap();
    assert_eq!(dir.entries.len(), 0);
}

#[test]
fn test_delete_2() {
    let mut disk = Disk::new();
    init(&mut disk);

    let path = Path::root();
    create_file(&mut disk, &path, "test.c").unwrap();
    create_dir(&mut disk, &path, "test1").unwrap();
    create_dir(&mut disk, &path, "test2").unwrap();
    create_dir(&mut disk, &path, "test3").unwrap();

    let dir = get_dir(&disk, &path).unwrap();
    assert_eq!(dir.entries.len(), 4);
    assert_eq!(dir.entries[0].name, "test.c");
    assert_eq!(dir.entries[1].name, "test1");
    assert_eq!(dir.entries[2].name, "test2");
    assert_eq!(dir.entries[3].name, "test3");

    assert_eq!(get_dir(&disk, &Path::from_str("/test1").unwrap()).unwrap().entries.len(), 0);
    assert_eq!(get_dir(&disk, &Path::from_str("/test2").unwrap()).unwrap().entries.len(), 0);
    assert_eq!(get_dir(&disk, &Path::from_str("/test3").unwrap()).unwrap().entries.len(), 0);

    let path = Path::from_str("/test1").unwrap();
    create_file(&mut disk, &path, "test2.c").unwrap();
    create_dir(&mut disk, &path, "test4").unwrap();

    let dir = get_dir(&disk, &path).unwrap();
    assert_eq!(dir.entries.len(), 2);
    assert_eq!(dir.entries[0].name, "test2.c");
    assert_eq!(dir.entries[1].name, "test4");

    assert_eq!(get_dir(&disk, &Path::from_str("/test1").unwrap()).unwrap().entries.len(), 2);
    assert_eq!(get_dir(&disk, &Path::from_str("/test2").unwrap()).unwrap().entries.len(), 0);
    assert_eq!(get_dir(&disk, &Path::from_str("/test3").unwrap()).unwrap().entries.len(), 0);

    delete_dir(&mut disk, &Path::from_str("/test2").unwrap()).unwrap();

    let dir = get_dir(&disk, &Path::root()).unwrap();
    assert_eq!(dir.entries.len(), 3);
    assert_eq!(dir.entries[0].name, "test.c");
    assert_eq!(dir.entries[1].name, "test1");
    assert_eq!(dir.entries[2].name, "test3");

    delete_file(&mut disk, &Path::from_str("/test.c").unwrap()).unwrap();

    let dir = get_dir(&disk, &Path::root()).unwrap();
    assert_eq!(dir.entries.len(), 2);
    assert_eq!(dir.entries[0].name, "test1");
    assert_eq!(dir.entries[1].name, "test3");

    delete_file(&mut disk, &Path::from_str("/test1/test2.c").unwrap()).unwrap();

    let dir = get_dir(&disk, &Path::from_str("/test1").unwrap()).unwrap();
    assert_eq!(dir.entries.len(), 1);
    assert_eq!(dir.entries[0].name, "test4");
}

#[test]
fn rmdir_errors() {
    let mut disk = Disk::new();
    init(&mut disk);

    // Removing the root is the wrong kind of operation.
    match delete_dir(&mut disk, &Path::root()) {
        Err(Error::InvalidFileType) => {},
        _ => panic!("expected InvalidFileType"),
    }

    // Removing a non-empty directory is refused.
    create_dir(&mut disk, &Path::root(), "d").unwrap();
    create_file(&mut disk, &Path::from_str("/d").unwrap(), "inner.c").unwrap();
    match delete_dir(&mut disk, &Path::from_str("/d").unwrap()) {
        Err(Error::DirIsNotEmpty) => {},
        _ => panic!("expected DirIsNotEmpty"),
    }

    // Removing a file with rmdir is the wrong kind of operation.
    match delete_dir(&mut disk, &Path::from_str("/d/inner.c").unwrap()) {
        Err(Error::InvalidFileType) => {},
        _ => panic!("expected InvalidFileType"),
    }

    // A path that resolves to nothing is not found.
    match delete_dir(&mut disk, &Path::from_str("/missing").unwrap()) {
        Err(Error::PathNotFound(_)) => {},
        _ => panic!("expected PathNotFound"),
    }
}

#[test]
fn create_errors() {
    let mut disk = Disk::new();
    init(&mut disk);
    create_file(&mut disk, &Path::root(), "f").unwrap();

    match create_file(&mut disk, &Path::root(), "f") {
        Err(Error::FileExist(_)) => {},
        _ => panic!("expected FileExist"),
    }
    match create_dir(&mut disk, &Path::root(), "f") {
        Err(Error::FileExist(_)) => {},
        _ => panic!("expected FileExist"),
    }
    match create_dir(&mut disk, &Path::from_str("/missing").unwrap(), "x") {
        Err(Error::PathNotFound(_)) => {},
        _ => panic!("expected PathNotFound"),
    }
    assert!(path_exists(&disk, &Path::from_str("/f").unwrap()));
    assert!(!path_exists(&disk, &Path::from_str("/g").unwrap()));
}

#[test]
fn grow_test() {
    let mut disk = Disk::new();
    init(&mut disk);
    create_file(&mut disk, &Path::root(), "g").unwrap();
    let path = Path::from_str("/g").unwrap();

    let buf = vec![7u8; 4096 * 3 + 234];
    write_file(&mut disk, &path, 0, &buf).unwrap();

    let dir = get_dir(&disk, &Path::root()).unwrap();
    let inum = dir.entries[0].inum as usize;
    let inode = get_inode(&disk.i_blocks, inum);
    assert_eq!(inode.block_count, 4);
    assert_eq!(inode.block_indirect, 0);

    // Extending by one more block's worth grows the backing by one block.
    let more = vec![9u8; 4096];
    write_file(&mut disk, &path, 4096 * 3 + 234, &more).unwrap();
    let inode = get_inode(&disk.i_blocks, inum);
    assert_eq!(inode.block_count, 5);
}

#[test]
fn indirect_test() {
    let mut disk = Disk::new();
    init(&mut disk);
    create_file(&mut disk, &Path::root(), "big").unwrap();
    let path = Path::from_str("/big").unwrap();

    // Extend to 20 blocks.
    let buf = vec![1u8; 4096 * 20];
    write_file(&mut disk, &path, 0, &buf).unwrap();

    let dir = get_dir(&disk, &Path::root()).unwrap();
    let inum = dir.entries[0].inum as usize;
    let inode = get_inode(&disk.i_blocks, inum);
    assert_eq!(inode.block_count, 20);
    assert_ne!(inode.block_indirect, 0);
    // The root's data block is block 0, so the file's blocks follow it.
    for k in 0..12u32 {
        assert_eq!(inode.block_direct[k as usize], k + 1);
    }
    assert_eq!(disk.i_bitmaps[(inode.block_indirect / 32) as usize], u32::MAX);
    for k in 0..8usize {
        assert_eq!(
            vsfs::inode::get_indirect_dnum(&disk.i_blocks, inode.block_indirect as usize, k),
            13 + k as u32
        );
    }

    // Shrink back to 10 blocks: the indirect unit is released.
    let small = vec![2u8; 4096 * 10];
    write_file(&mut disk, &path, 0, &small).unwrap();
    let inode = get_inode(&disk.i_blocks, inum);
    assert_eq!(inode.block_count, 10);
    assert_eq!(inode.block_indirect, 0);
}

#[test]
fn test_create_no_space_data() {
    let mut disk = Disk::new();
    init(&mut disk);
    // Occupy every data block: no payload block is left for a new child
    // directory, so making one fails and writes nothing.
    for w in 0..disk.d_bitmaps.len() {
        disk.d_bitmaps[w] = 0xffff_ffff;
    }
    let path = Path::root();
    let r = create_dir(&mut disk, &path, "a");
    assert!(matches!(r, Err(Error::NoSpace)));
    let dir = get_dir(&disk, &path).unwrap();
    assert_eq!(dir.entries.len(), 0);
    // An empty file takes no data block and the root's entry list still
    // fits its block, so this create is owed even on a full data region.
    let r2 = create_file(&mut disk, &path, "b.c");
    assert!(r2.is_ok());
}

#[test]
fn test_create_no_space_inodes() {
    let mut disk = Disk::new();
    init(&mut disk);
    // Occupy every inode slot: the name is new and data blocks are free,
    // but no inode is left to take.
    for w in 0..disk.i_bitmaps.len() {
        disk.i_bitmaps[w] = 0xffff_ffff;
    }
    let path = Path::root();
    let r = create_file(&mut disk, &path, "b.c");
    assert!(matches!(r, Err(Error::NoSpace)));
}

#[test]
fn test_write_no_space() {
    let mut disk = Disk::new();
    init(&mut disk);
    let path = Path::root();
    create_file(&mut disk, &path, "f.c").unwrap();
    for w in 0..disk.d_bitmaps.len() {
        disk.d_bitmaps[w] = 0xffff_ffff;
    }
    let fpath = Path::from_str("/f.c").unwrap();
    let r = write_file(&mut disk, &fpath, 0, &vec![7u8]);
    assert!(matches!(r, Err(Error::NoSpace)));
    // The file is untouched.
    let inode = get_inode(&disk.i_blocks, 1);
    assert_eq!(inode.size, 0);
}
