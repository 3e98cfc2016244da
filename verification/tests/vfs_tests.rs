//! The facade: handles, sharing, listings and whole scenarios.

use vsfs::path::Path;
use vsfs::repr::Disk;
use vsfs::rw::AccessMode;
use vsfs::vsfs_vfs::{VerySimpleError, VerySimpleFileSystem};

#[test]
fn test_vfs_open() {
    let mut fs = VerySimpleFileSystem::new(Disk::new());
    fs.init().unwrap();

    let path = Path::from_str("/test.txt").unwrap();

    fs.create_file(&path).unwrap();

    let path = Path::from_str("/test.txt").unwrap();
    let file = fs.open(&path, AccessMode::ReadWrite).unwrap();

    assert_eq!(file.path().clone(), path);
    assert_eq!(file.position(), 0);
    assert_eq!(file.mode, AccessMode::ReadWrite);
}

#[test]
fn test_rw() {
    let mut fs = VerySimpleFileSystem::new(Disk::new());
    fs.init().unwrap();

    let path = Path::from_str("/test.txt").unwrap();
    fs.create_file(&path).unwrap();

    let mut file = fs.open(&path, AccessMode::ReadWrite).unwrap();

    let mut buf = vec![0u8; 10020];
    for i in 0..buf.len() {
        buf[i] = i as u8;
    }

    fs.write(&mut file, &buf).unwrap();

    assert_eq!(file.position(), 10020);

    let mut read_buf = vec![0u8; 10020];
    file.set_position(0);
    fs.read(&mut file, &mut read_buf).unwrap();

    assert_eq!(buf, read_buf);
    assert_eq!(file.position(), 10020);

    let fd = fs.description(&file).unwrap();
    assert_eq!(fd.size(), 10020);
}

#[test]
fn test_dir_list() {
    let mut fs = VerySimpleFileSystem::new(Disk::new());
    fs.init().unwrap();

    let path = Path::from_str("/test.txt").unwrap();
    fs.create_file(&path).unwrap();

    let fds = fs.list(&Path::root()).unwrap();
    assert_eq!(fds.len(), 1);
    assert_eq!(fds[0].is_dir(), false);
    assert_eq!(fds[0].name(), "test.txt");
}

#[test]
fn test_mkdir() {
    let mut fs = VerySimpleFileSystem::new(Disk::new());
    fs.init().unwrap();

    let path = Path::from_str("/test").unwrap();
    fs.mkdir(&path).unwrap();

    let fds = fs.list(&Path::root()).unwrap();
    assert_eq!(fds.len(), 1);
    assert_eq!(fds[0].is_dir(), true);
    assert_eq!(fds[0].name(), "test");

    let path = Path::from_str("/test2").unwrap();
    fs.mkdir(&path).unwrap();

    let fds = fs.list(&Path::root()).unwrap();
    assert_eq!(fds.len(), 2);
    assert_eq!(fds[0].is_dir(), true);
    assert_eq!(fds[0].name(), "test");
    assert_eq!(fds[1].is_dir(), true);
    assert_eq!(fds[1].name(), "test2");

    let path = Path::from_str("/test/test3").unwrap();
    fs.mkdir(&path).unwrap();

    let fds = fs.list(&Path::root()).unwrap();
    assert_eq!(fds.len(), 2);
    assert_eq!(fds[0].is_dir(), true);
    assert_eq!(fds[0].name(), "test");
    assert_eq!(fds[1].is_dir(), true);
    assert_eq!(fds[1].name(), "test2");

    let fds = fs.list(&Path::root().move_push("test".to_string())).unwrap();
    assert_eq!(fds.len(), 1);
    assert_eq!(fds[0].is_dir(), true);
    assert_eq!(fds[0].name(), "test3");
}

#[test]
fn fresh_image_scenario() {
    let mut fs = VerySimpleFileSystem::new(Disk::new());
    fs.init().unwrap();

    let fds = fs.list(&Path::root()).unwrap();
    assert_eq!(fds.len(), 0);

    fs.mkdir(&Path::from_str("/a").unwrap()).unwrap();

    let fds = fs.list(&Path::root()).unwrap();
    assert_eq!(fds.len(), 1);
    assert_eq!(fds[0].name(), "a");
    assert_eq!(fds[0].is_dir(), true);
}

#[test]
fn write_read_description_scenario() {
    let mut fs = VerySimpleFileSystem::new(Disk::new());
    fs.init().unwrap();

    fs.create_file(&Path::from_str("/f").unwrap()).unwrap();
    let mut file = fs.open(&Path::from_str("/f").unwrap(), AccessMode::ReadWrite).unwrap();

    let mut buf = vec![0u8; 10020];
    for i in 0..buf.len() {
        buf[i] = (i % 256) as u8;
    }
    file.set_position(0);
    fs.write(&mut file, &buf).unwrap();

    file.set_position(0);
    let mut read_buf = vec![0u8; 10020];
    let n = fs.read(&mut file, &mut read_buf).unwrap();
    assert_eq!(n, 10020);
    assert_eq!(read_buf, buf);

    let fd = fs.description(&file).unwrap();
    assert_eq!(fd.size(), 10020);
}

#[test]
fn delete_scenario() {
    let mut fs = VerySimpleFileSystem::new(Disk::new());
    fs.init().unwrap();

    fs.create_file(&Path::from_str("/x.c").unwrap()).unwrap();
    fs.mkdir(&Path::from_str("/d1").unwrap()).unwrap();
    fs.mkdir(&Path::from_str("/d2").unwrap()).unwrap();
    fs.mkdir(&Path::from_str("/d3").unwrap()).unwrap();
    fs.create_file(&Path::from_str("/d1/y.c").unwrap()).unwrap();
    fs.mkdir(&Path::from_str("/d1/sub").unwrap()).unwrap();

    fs.rmdir(&Path::from_str("/d2").unwrap()).unwrap();
    fs.delete_file(&Path::from_str("/x.c").unwrap()).unwrap();
    fs.delete_file(&Path::from_str("/d1/y.c").unwrap()).unwrap();

    let fds = fs.list(&Path::root()).unwrap();
    assert_eq!(fds.len(), 2);
    assert_eq!(fds[0].name(), "d1");
    assert_eq!(fds[1].name(), "d3");

    let fds = fs.list(&Path::from_str("/d1").unwrap()).unwrap();
    assert_eq!(fds.len(), 1);
    assert_eq!(fds[0].name(), "sub");
}

#[test]
fn sharing_scenario() {
    let mut fs = VerySimpleFileSystem::new(Disk::new());
    fs.init().unwrap();
    fs.create_file(&Path::from_str("/f").unwrap()).unwrap();

    let first = fs.open(&Path::from_str("/f").unwrap(), AccessMode::ReadWrite).unwrap();
    match fs.open(&Path::from_str("/f").unwrap(), AccessMode::ReadWrite) {
        Err(VerySimpleError::FileCannotWrite) => {},
        _ => panic!("expected FileCannotWrite"),
    }
    fs.close(first).unwrap();
    let again = fs.open(&Path::from_str("/f").unwrap(), AccessMode::ReadWrite).unwrap();
    fs.close(again).unwrap();
}

#[test]
fn close_twice_is_refused() {
    let mut fs = VerySimpleFileSystem::new(Disk::new());
    fs.init().unwrap();
    fs.create_file(&Path::from_str("/f").unwrap()).unwrap();
    let f1 = fs.open(&Path::from_str("/f").unwrap(), AccessMode::Read).unwrap();
    let id = f1.id;
    fs.close(f1).unwrap();
    let stale = vsfs::vsfs_vfs::VerySimpleFile {
        path: Path::from_str("/f").unwrap(),
        mode: AccessMode::Read,
        position: 0,
        id,
    };
    match fs.close(stale) {
        Err(VerySimpleError::FileNotOpen) => {},
        _ => panic!("expected FileNotOpen"),
    }
}

#[test]
fn access_mode_is_enforced() {
    let mut fs = VerySimpleFileSystem::new(Disk::new());
    fs.init().unwrap();
    fs.create_file(&Path::from_str("/f").unwrap()).unwrap();

    let mut wo = fs.open(&Path::from_str("/f").unwrap(), AccessMode::Write).unwrap();
    let mut buf = vec![0u8; 4];
    match fs.read(&mut wo, &mut buf) {
        Err(VerySimpleError::AccessError) => {},
        _ => panic!("expected AccessError"),
    }
    fs.close(wo).unwrap();

    let mut ro = fs.open(&Path::from_str("/f").unwrap(), AccessMode::Read).unwrap();
    match fs.write(&mut ro, &buf) {
        Err(VerySimpleError::AccessError) => {},
        _ => panic!("expected AccessError"),
    }
    fs.close(ro).unwrap();

    match fs.open(&Path::from_str("/missing").unwrap(), AccessMode::Read) {
        Err(VerySimpleError::FileNotExist) => {},
        _ => panic!("expected FileNotExist"),
    }
}

#[test]
fn test_vfs_write_no_space() {
    let mut fs = VerySimpleFileSystem::new(Disk::new());
    fs.init().unwrap();
    let path = Path::from_str("/full.txt").unwrap();
    fs.create_file(&path).unwrap();
    let mut file = fs.open(&path, AccessMode::ReadWrite).unwrap();
    // Occupy every data block, then ask for one more.
    for w in 0..fs.disk.d_bitmaps.len() {
        fs.disk.d_bitmaps[w] = 0xffff_ffff;
    }
    let before_mtime = {
        let fd = fs.description(&file).unwrap();
        fd.mtime()
    };
    let r = fs.write(&mut file, &vec![1u8, 2, 3]);
    assert!(matches!(
        r,
        Err(VerySimpleError::VSFSError(vsfs::vsfs::Error::NoSpace))
    ));
    // The refused write did not even stamp the modification time.
    let fd = fs.description(&file).unwrap();
    assert_eq!(fd.mtime(), before_mtime);
    assert_eq!(fd.size(), 0);
}
