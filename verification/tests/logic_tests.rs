//! The indexing and byte read/write engine, exercised on real images.

use vsfs::bitmap::{get_state, set_state};
use vsfs::dir::{deserialize_dir, read_data_struct, serialize_dir, write_data_struct,
    write_data_struct_auto_resize, DirectoryData, DirectoryEntry};
use vsfs::data::{read_data, write_data, write_data_auto_resize};
use vsfs::grow::extend_data_block_of_inode;
use vsfs::inode::{get_dnum, get_indirect_dnum, get_inode, get_size_of_data_block, set_indirect_dnum,
    set_inode, transform_pos};
use vsfs::repr::{Disk, INode, IndexRegion, DIRECT_BLOCK_COUNT};
use vsfs::shrink::{free_inode, resize, shrink_data_block_of_inode};

fn plain_inode(size: u32, block_count: u32, block_direct: [u32; 12], block_indirect: u32) -> INode {
    INode {
        size,
        is_dir: false,
        atime: 0,
        ctime: 0,
        mtime: 0,
        block_count,
        block_direct,
        block_indirect,
    }
}

#[test]
fn test_transform_pos() {
    let inode = plain_inode(3134333, 15, [0, 1, 2, 3, 4, 5, 6, 7, 8, 9, 10, 11], 32);

    let mut blocks = IndexRegion { inodes: vec![inode], indirect: vec![0u32; 2048] };
    blocks.indirect[1024] = 12;
    blocks.indirect[1025] = 13;
    blocks.indirect[1026] = 14;

    assert_eq!(transform_pos(&blocks, 0, 0), (0, 0));
    assert_eq!(transform_pos(&blocks, 0, 4096), (1, 0));
    assert_eq!(transform_pos(&blocks, 0, 4096 * 12), (12, 0));
    assert_eq!(transform_pos(&blocks, 0, 4096 * 12 + 1), (12, 1));
    assert_eq!(transform_pos(&blocks, 0, 4096 * 12 + 4095), (12, 4095));
    assert_eq!(transform_pos(&blocks, 0, 4096 * 13), (13, 0));
    assert_eq!(transform_pos(&blocks, 0, 4096 * 13 + 1), (13, 1));
    assert_eq!(transform_pos(&blocks, 0, 4096 * 13 + 4095), (13, 4095));

    let old_idx: Vec<u32> = blocks.indirect.clone();

    set_indirect_dnum(&mut blocks, 32, 0, 100);

    assert_eq!(transform_pos(&blocks, 0, 4096 * 12), (100, 0));
    assert_eq!(transform_pos(&blocks, 0, 4096 * 12 + 1), (100, 1));
    assert_eq!(transform_pos(&blocks, 0, 4096 * 12 + 4095), (100, 4095));

    assert_ne!(old_idx, blocks.indirect);
}

#[test]
fn test_read_write_data() {
    let mut disk = Disk::new();
    disk.i_bitmaps[0] = 3;
    disk.d_bitmaps[0] = 16383;

    set_inode(
        &mut disk.i_blocks,
        0,
        plain_inode(23423, 14, [0, 1, 2, 3, 4, 5, 6, 7, 8, 9, 10, 11], 32),
    );

    set_indirect_dnum(&mut disk.i_blocks, 32, 0, 12);
    set_indirect_dnum(&mut disk.i_blocks, 32, 1, 13);

    let mut buf = vec![0u8; 4096 * 3 + 234];
    for i in 0..buf.len() {
        buf[i] = i as u8;
    }

    write_data(&mut disk.d_blocks, &disk.i_blocks, 0, 0, &buf);

    let mut read_buf = vec![0u8; 4096 * 3 + 234];
    read_data(&disk.d_blocks, &disk.i_blocks, 0, 0, &mut read_buf);

    assert_eq!(buf, read_buf);

    let mut buf = vec![0u8; 32];
    for i in 0..buf.len() {
        buf[i] = i as u8;
    }

    write_data(&mut disk.d_blocks, &disk.i_blocks, 0, 4096 * 5 + 23, &buf);

    let mut read_buf = vec![0u8; 32];
    read_data(&disk.d_blocks, &disk.i_blocks, 0, 4096 * 5 + 23, &mut read_buf);

    assert_eq!(buf, read_buf);
}

#[test]
fn test_get_data_size() {
    let inode = plain_inode(4096 * 3 + 234, 4, [0, 1, 2, 3, 0, 0, 0, 0, 0, 0, 0, 0], 0);

    assert_eq!(get_size_of_data_block(&inode, 0), 4096);
    assert_eq!(get_size_of_data_block(&inode, 1), 4096);
    assert_eq!(get_size_of_data_block(&inode, 2), 4096);
    assert_eq!(get_size_of_data_block(&inode, 3), 234);
}

#[test]
fn test_resize() {
    let mut disk = Disk::new();

    set_inode(
        &mut disk.i_blocks,
        0,
        plain_inode(4096 * 3 + 234, 4, [0, 1, 2, 3, 0, 0, 0, 0, 0, 0, 0, 0], 0),
    );
    disk.d_bitmaps[0] = 15;
    disk.i_bitmaps[0] = 1;

    resize(&mut disk.i_bitmaps, &mut disk.d_bitmaps, &mut disk.i_blocks, 0, 4096 * 3 + 234 + 4096);

    let inode = get_inode(&disk.i_blocks, 0);
    assert_eq!(inode.size, 4096 * 3 + 234 + 4096);
    assert_eq!(inode.block_count, 5);

    assert_eq!(get_state(&disk.d_bitmaps, 0), true);
    assert_eq!(get_state(&disk.d_bitmaps, 1), true);
    assert_eq!(get_state(&disk.d_bitmaps, 2), true);
    assert_eq!(get_state(&disk.d_bitmaps, 3), true);
    assert_eq!(get_state(&disk.d_bitmaps, 4), true);

    assert_eq!(get_state(&disk.d_bitmaps, 5), false);
    assert_eq!(get_state(&disk.d_bitmaps, 6), false);

    resize(&mut disk.i_bitmaps, &mut disk.d_bitmaps, &mut disk.i_blocks, 0, 4096 * 3 + 234);

    let inode = get_inode(&disk.i_blocks, 0);
    assert_eq!(inode.size, 4096 * 3 + 234);
    assert_eq!(inode.block_count, 4);

    assert_eq!(get_state(&disk.d_bitmaps, 0), true);
    assert_eq!(get_state(&disk.d_bitmaps, 1), true);
    assert_eq!(get_state(&disk.d_bitmaps, 2), true);
    assert_eq!(get_state(&disk.d_bitmaps, 3), true);

    assert_eq!(get_state(&disk.d_bitmaps, 4), false);
    assert_eq!(get_state(&disk.d_bitmaps, 5), false);
    assert_eq!(get_state(&disk.d_bitmaps, 6), false);

    resize(&mut disk.i_bitmaps, &mut disk.d_bitmaps, &mut disk.i_blocks, 0, 0);
    let inode = get_inode(&disk.i_blocks, 0);
    assert_eq!(inode.size, 0);
    assert_eq!(inode.block_count, 0);

    assert_eq!(get_state(&disk.d_bitmaps, 0), false);
    assert_eq!(get_state(&disk.d_bitmaps, 1), false);
    assert_eq!(get_state(&disk.d_bitmaps, 2), false);
    assert_eq!(get_state(&disk.d_bitmaps, 3), false);
}

#[test]
fn test_serde() {
    let data = DirectoryData {
        entries: vec![
            DirectoryEntry { name: "test".to_string(), inum: 1 },
            DirectoryEntry { name: "test2".to_string(), inum: 2 },
        ],
    };

    let buf = serialize_dir(&data);
    let read_data: DirectoryData = deserialize_dir(&buf);

    assert_eq!(data, read_data);
}

#[test]
fn test_rw_data_struct() {
    let mut disk = Disk::new();

    set_inode(
        &mut disk.i_blocks,
        0,
        plain_inode(4096 * 3 + 234, 4, [0, 1, 2, 3, 0, 0, 0, 0, 0, 0, 0, 0], 0),
    );
    disk.d_bitmaps[0] = 15;
    disk.i_bitmaps[0] = 1;

    let data = DirectoryData {
        entries: vec![
            DirectoryEntry { name: "test".to_string(), inum: 1 },
            DirectoryEntry { name: "test2".to_string(), inum: 2 },
        ],
    };

    write_data_struct(&mut disk.d_blocks, &disk.i_blocks, 0, 0, &data);

    let read_back = read_data_struct(&disk.d_blocks, &disk.i_blocks, 0, 0);
    assert_eq!(data, read_back);

    write_data_struct_auto_resize(
        &mut disk.i_bitmaps,
        &mut disk.d_bitmaps,
        &mut disk.i_blocks,
        &mut disk.d_blocks,
        0,
        0,
        &data,
    );

    let read_back = read_data_struct(&disk.d_blocks, &disk.i_blocks, 0, 0);
    assert_eq!(data, read_back);
}

#[test]
fn logic_test_rw() {
    let mut disk = Disk::new();

    set_inode(&mut disk.i_blocks, 0, plain_inode(0, 0, [0; 12], 0));
    disk.d_bitmaps[0] = 0;
    disk.i_bitmaps[0] = 1;

    let mut buf = vec![0u8; 4096 * 3 + 234];
    for i in 0..buf.len() {
        buf[i] = i as u8;
    }

    write_data_auto_resize(
        &mut disk.i_bitmaps,
        &mut disk.d_bitmaps,
        &mut disk.i_blocks,
        &mut disk.d_blocks,
        0,
        0,
        &buf,
    );

    assert_eq!(get_inode(&disk.i_blocks, 0).block_count, 4);
    assert_eq!(get_inode(&disk.i_blocks, 0).size, 4096 * 3 + 234);

    let mut read_buf = vec![0u8; 4096 * 3 + 234];
    read_data(&disk.d_blocks, &disk.i_blocks, 0, 0, &mut read_buf);

    assert_eq!(buf, read_buf);
}

#[test]
fn test_extend_shrink_data_block() {
    let mut disk = Disk::new();
    set_inode(&mut disk.i_blocks, 0, plain_inode(0, 0, [0; 12], 0));

    disk.i_bitmaps[0] = 1;

    extend_data_block_of_inode(&mut disk.i_bitmaps, &mut disk.d_bitmaps, &mut disk.i_blocks, 0, 3);

    let inode = get_inode(&disk.i_blocks, 0);

    assert_eq!(inode.block_count, 3);
    assert_eq!(inode.block_direct[0], 0);
    assert_eq!(inode.block_direct[1], 1);
    assert_eq!(inode.block_direct[2], 2);

    assert_eq!(inode.block_direct[3], 0);
    assert_eq!(inode.block_direct[4], 0);

    assert_eq!(get_state(&disk.d_bitmaps, 0), true);
    assert_eq!(get_state(&disk.d_bitmaps, 1), true);
    assert_eq!(get_state(&disk.d_bitmaps, 2), true);

    assert_eq!(get_state(&disk.d_bitmaps, 3), false);
    assert_eq!(get_state(&disk.d_bitmaps, 4), false);
    assert_eq!(get_state(&disk.d_bitmaps, 5), false);

    extend_data_block_of_inode(&mut disk.i_bitmaps, &mut disk.d_bitmaps, &mut disk.i_blocks, 0, 20);

    let inode = get_inode(&disk.i_blocks, 0);

    assert_eq!(inode.block_count, 20);
    assert_eq!(inode.block_direct[4], 4);
    assert_eq!(inode.block_direct[5], 5);
    assert_eq!(inode.block_direct[6], 6);
    assert_eq!(inode.block_direct[8], 8);
    assert_eq!(inode.block_direct[11], 11);

    assert_ne!(inode.block_indirect, 0);

    for i in 12u32..18u32 {
        assert_eq!(
            get_indirect_dnum(&disk.i_blocks, inode.block_indirect as usize, i as usize - 12),
            i
        );
    }

    assert_eq!(get_indirect_dnum(&disk.i_blocks, inode.block_indirect as usize, 100), 0);

    shrink_data_block_of_inode(&mut disk.i_bitmaps, &mut disk.d_bitmaps, &mut disk.i_blocks, 0, 10);

    let inode = get_inode(&disk.i_blocks, 0);

    assert_eq!(inode.block_count, 10);
    assert_eq!(inode.block_direct[4], 4);
    assert_eq!(inode.block_direct[5], 5);
    assert_eq!(inode.block_direct[6], 6);
    assert_eq!(inode.block_direct[8], 8);

    assert_eq!(inode.block_direct[11], 0);
    assert_eq!(inode.block_indirect, 0);

    shrink_data_block_of_inode(&mut disk.i_bitmaps, &mut disk.d_bitmaps, &mut disk.i_blocks, 0, 0);

    let inode = get_inode(&disk.i_blocks, 0);

    assert_eq!(inode.block_count, 0);
    assert_eq!(inode.block_direct[4], 0);
    assert_eq!(inode.block_direct[5], 0);
    assert_eq!(inode.block_direct[6], 0);
    assert_eq!(inode.block_direct[8], 0);
}

#[test]
fn test_free_inode() {
    let mut disk = Disk::new();
    set_inode(&mut disk.i_blocks, 0, plain_inode(0, 0, [0; 12], 0));

    disk.i_bitmaps[0] = 1;

    extend_data_block_of_inode(&mut disk.i_bitmaps, &mut disk.d_bitmaps, &mut disk.i_blocks, 0, 20);

    let inode = get_inode(&disk.i_blocks, 0);
    assert_eq!(inode.block_count, 20);

    free_inode(&mut disk.i_bitmaps, &mut disk.d_bitmaps, &mut disk.i_blocks, 0);

    for i in 0..20 {
        assert_eq!(get_state(&disk.d_bitmaps, i as usize), false);
    }

    assert_eq!(disk.i_bitmaps[0], 0);
    assert_eq!(disk.d_bitmaps[0], 0);
}

#[test]
fn grow_to_direct_limit_takes_no_indirect() {
    let mut disk = Disk::new();
    set_inode(&mut disk.i_blocks, 0, plain_inode(0, 0, [0; 12], 0));
    disk.i_bitmaps[0] = 1;

    extend_data_block_of_inode(
        &mut disk.i_bitmaps,
        &mut disk.d_bitmaps,
        &mut disk.i_blocks,
        0,
        DIRECT_BLOCK_COUNT,
    );
    let inode = get_inode(&disk.i_blocks, 0);
    assert_eq!(inode.block_count, 12);
    assert_eq!(inode.block_indirect, 0);
    assert_eq!(disk.i_bitmaps[1], 0);

    extend_data_block_of_inode(
        &mut disk.i_bitmaps,
        &mut disk.d_bitmaps,
        &mut disk.i_blocks,
        0,
        DIRECT_BLOCK_COUNT + 1,
    );
    let inode = get_inode(&disk.i_blocks, 0);
    assert_eq!(inode.block_count, 13);
    assert_ne!(inode.block_indirect, 0);
    // The whole word of the reserved index block is set at once.
    assert_eq!(disk.i_bitmaps[(inode.block_indirect / 32) as usize], u32::MAX);

    // Shrinking from 13 to 12 releases the indirect unit and clears the
    // handle.
    shrink_data_block_of_inode(&mut disk.i_bitmaps, &mut disk.d_bitmaps, &mut disk.i_blocks, 0, 12);
    let inode = get_inode(&disk.i_blocks, 0);
    assert_eq!(inode.block_count, 12);
    assert_eq!(inode.block_indirect, 0);
    assert_eq!(disk.i_bitmaps[1], 0);
}

#[test]
fn get_dnum_maps_direct_and_indirect() {
    let inode = plain_inode(4096 * 15, 15, [5, 6, 7, 8, 9, 10, 11, 12, 13, 14, 15, 16], 32);
    let mut blocks = IndexRegion { inodes: vec![inode], indirect: vec![0u32; 2048] };
    blocks.indirect[1024] = 90;
    blocks.indirect[1025] = 91;
    blocks.indirect[1026] = 92;

    assert_eq!(get_dnum(&blocks, 0, 0), 5);
    assert_eq!(get_dnum(&blocks, 0, 11), 16);
    assert_eq!(get_dnum(&blocks, 0, 12), 90);
    assert_eq!(get_dnum(&blocks, 0, 14), 92);
}

#[test]
fn dir_codec_handles_empty_and_odd_names() {
    let empty = DirectoryData { entries: vec![] };
    let buf = serialize_dir(&empty);
    assert_eq!(buf[0], b'[');
    assert_eq!(*buf.last().unwrap(), b']');
    assert_eq!(deserialize_dir(&buf), empty);

    let data = DirectoryData {
        entries: vec![
            DirectoryEntry { name: "a b".to_string(), inum: 7 },
            DirectoryEntry { name: "héllo".to_string(), inum: 4294967295 },
            DirectoryEntry { name: "x=y;z".to_string(), inum: 0 },
        ],
    };
    let buf = serialize_dir(&data);
    assert_eq!(deserialize_dir(&buf), data);
}

#[test]
fn data_block_copies_the_right_bytes() {
    let mut disk = Disk::new();
    disk.d_blocks[4096] = 9;
    disk.d_blocks[4097] = 8;
    let block = vsfs::data::get_data_block(&disk.d_blocks, 1);
    assert_eq!(block.len(), 4096);
    assert_eq!(block[0], 9);
    assert_eq!(block[1], 8);
    assert_eq!(block[2], 0);
}
