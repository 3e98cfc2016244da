//! The open-handle manager and the single-writer rule.

use vsfs::rw::{AccessMode, RWManager};

#[test]
fn test_rw_manager() {
    let mut rw_manager = RWManager::new();
    let x = rw_manager.open(1, "test.txt", AccessMode::Read);
    assert_eq!(rw_manager.can_write("test.txt"), true);

    rw_manager.close(x);

    let x = rw_manager.open(1, "test.txt", AccessMode::Write);
    assert_eq!(rw_manager.can_write("test.txt"), false);

    rw_manager.close(x);

    let x = rw_manager.open(1, "test.txt", AccessMode::ReadWrite);
    assert_eq!(rw_manager.can_write("test.txt"), false);
    assert_eq!(rw_manager.is_open(1, "test.txt", AccessMode::Read), false);
    assert_eq!(rw_manager.is_open(1, "test.txt", AccessMode::Write), false);
    assert_eq!(rw_manager.is_open(1, "test.txt", AccessMode::ReadWrite), true);

    assert_eq!(rw_manager.can_write("test.txt"), false);
    rw_manager.close(x);

    assert_eq!(rw_manager.can_write("test.txt"), true);
    assert_eq!(rw_manager.is_open(1, "test.txt", AccessMode::Read), false);
}

#[test]
fn readers_never_block_each_other() {
    let mut rw = RWManager::new();
    let a = rw.open(1, "shared", AccessMode::Read);
    let b = rw.open(2, "shared", AccessMode::Read);
    assert!(rw.can_write("shared"));
    assert!(rw.is_open(1, "shared", AccessMode::Read));
    assert!(rw.is_open(2, "shared", AccessMode::Read));
    rw.close(a);
    rw.close(b);
    assert!(rw.can_write("shared"));
}

#[test]
fn writer_blocks_per_path_only() {
    let mut rw = RWManager::new();
    let w = rw.open(1, "one", AccessMode::Write);
    assert!(!rw.can_write("one"));
    assert!(rw.can_write("two"));
    assert!(!rw.already_open(w));
    rw.close(w);
    assert!(rw.already_open(w));
    assert!(rw.can_write("one"));
    assert_eq!(rw.access_mode(w), None);
}

#[test]
fn handle_ids_are_never_recycled() {
    let mut rw = RWManager::new();
    let a = rw.open(0, "f", AccessMode::Write);
    rw.close(a);
    let b = rw.open(0, "f", AccessMode::Write);
    assert_ne!(a, b);
    assert_eq!(b, 1);
    assert_eq!(rw.access_mode(b), Some(AccessMode::Write));
}
