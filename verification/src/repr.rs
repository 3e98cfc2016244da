//! On-image layout: sizing constants and the typed regions of the image.
//!
//! The image is partitioned into a superblock, an inode bitmap, a data
//! bitmap, an index region and a data region.  The index region is kept as
//! two parallel pools: one of inode slots and one of raw `u32` words for
//! single-indirect tables; a 32-bit word of the inode bitmap reserves one
//! index block as a whole when it serves as an indirect table.

use vstd::prelude::*;

verus! {

/// Total number of 4096-byte blocks in the image.
pub const SIZE: usize = 4096 * 16;

/// Number of index blocks; each holds 32 inode slots.
pub const INDEX_BLOCK_COUNT: usize = 1024 * 4;

/// Blocks of the inode bitmap.
pub const INDEX_BITMAP_BLOCK_COUNT: usize = 4;

/// Blocks of the data bitmap.
pub const DATA_BITMAP_BLOCK_COUNT: usize = 2;

/// Number of data blocks.
pub const DATA_BLOCK_COUNT: usize = SIZE - 1 - INDEX_BLOCK_COUNT - INDEX_BITMAP_BLOCK_COUNT
    - DATA_BITMAP_BLOCK_COUNT;

/// Bytes per block.
pub const ALIGN_SIZE: usize = 4096;

/// Direct block slots in an inode.
pub const DIRECT_BLOCK_COUNT: usize = 12;

/// Number of inode slots (32 per index block).
pub const INODE_COUNT: usize = INDEX_BLOCK_COUNT * 32;

/// `u32` words in the inode bitmap.
pub const INDEX_BITMAP_WORDS: usize = INDEX_BITMAP_BLOCK_COUNT * 1024;

/// `u32` words in the data bitmap.
pub const DATA_BITMAP_WORDS: usize = DATA_BITMAP_BLOCK_COUNT * 1024;

/// Entries of a single-indirect table (one index block of `u32` words).
pub const INDIRECT_CAPACITY: usize = 1024;

/// Largest block count a file can have: 12 direct plus one indirect table.
pub const MAX_FILE_BLOCKS: usize = DIRECT_BLOCK_COUNT + INDIRECT_CAPACITY;

/// An inode: file metadata plus the direct slots and the indirect handle.
///
/// `block_indirect` is not a data-block number: it is 32 times the index
/// block whose words form the file's single-indirect table, i.e. the inum of
/// the first slot that block would have held.  Zero means "no indirect
/// table"; index block 0 always holds the root inode, so the value is
/// unambiguous.
#[derive(Clone, Copy, Debug, PartialEq)]
pub struct INode {
    pub size: u32,
    pub is_dir: bool,
    pub atime: u32,
    pub ctime: u32,
    pub mtime: u32,
    pub block_count: u32,
    pub block_direct: [u32; DIRECT_BLOCK_COUNT],
    pub block_indirect: u32,
}

/// The superblock: format version and the root directory's inum.
#[derive(Clone, Copy, Debug, PartialEq)]
pub struct SuperBlock {
    pub version: u32,
    pub root_inum: u32,
}

/// The index region, as two parallel pools over the same block numbering:
/// inode slots and raw words for indirect tables.  Index block `b` owns
/// inode slots `32·b .. 32·b+32` and words `1024·b .. 1024·b+1024`.
#[derive(PartialEq)]
pub struct IndexRegion {
    pub inodes: Vec<INode>,
    pub indirect: Vec<u32>,
}

/// The whole image.
#[derive(PartialEq)]
pub struct Disk {
    pub sb: SuperBlock,
    pub i_bitmaps: Vec<u32>,
    pub d_bitmaps: Vec<u32>,
    pub i_blocks: IndexRegion,
    pub d_blocks: Vec<u8>,
}

/// The zero inode, as a freed slot holds it.
pub open spec fn spec_zero_inode() -> INode {
    INode {
        size: 0,
        is_dir: false,
        atime: 0,
        ctime: 0,
        mtime: 0,
        block_count: 0,
        block_direct: [0u32; DIRECT_BLOCK_COUNT],
        block_indirect: 0,
    }
}

/// The index region has its full complement of slots and words.
pub open spec fn index_region_wf(ib: IndexRegion) -> bool {
    &&& ib.inodes@.len() == INODE_COUNT
    &&& ib.indirect@.len() == INDEX_BLOCK_COUNT * INDIRECT_CAPACITY
}

/// All regions of the image have their fixed lengths.
pub open spec fn disk_lens_ok(d: Disk) -> bool {
    &&& d.i_bitmaps@.len() == INDEX_BITMAP_WORDS
    &&& d.d_bitmaps@.len() == DATA_BITMAP_WORDS
    &&& index_region_wf(d.i_blocks)
    &&& d.d_blocks@.len() == DATA_BLOCK_COUNT * ALIGN_SIZE
}

/// Blocks needed to back `size` bytes: `⌈size / 4096⌉`.
pub open spec fn spec_block_count_for(size: u32) -> int {
    (size + 4095) / 4096
}

impl INode {
    /// An empty inode stamped with one time for all three timestamps.
    pub open spec fn spec_fresh(is_dir: bool, now: u32) -> INode {
        INode {
            size: 0,
            is_dir,
            atime: now,
            ctime: now,
            mtime: now,
            block_count: 0,
            block_direct: [0u32; DIRECT_BLOCK_COUNT],
            block_indirect: 0,
        }
    }
}

impl Disk {
    /// A fresh all-zero image.
    pub fn new() -> (d: Disk)
        ensures
            disk_lens_ok(d),
            d.sb.version == 0,
            d.sb.root_inum == 0,
            forall|w: int| 0 <= w < INDEX_BITMAP_WORDS ==> d.i_bitmaps@[w] == 0u32,
            forall|w: int| 0 <= w < DATA_BITMAP_WORDS ==> d.d_bitmaps@[w] == 0u32,
            forall|i: int| 0 <= i < INODE_COUNT ==> d.i_blocks.inodes@[i] == spec_zero_inode(),
            forall|w: int| 0 <= w < INDEX_BLOCK_COUNT * INDIRECT_CAPACITY
                ==> d.i_blocks.indirect@[w] == 0u32,
            forall|p: int| 0 <= p < DATA_BLOCK_COUNT * ALIGN_SIZE ==> d.d_blocks@[p] == 0u8,
    {
        let zero_inode = INode {
            size: 0,
            is_dir: false,
            atime: 0,
            ctime: 0,
            mtime: 0,
            block_count: 0,
            block_direct: [0u32; DIRECT_BLOCK_COUNT],
            block_indirect: 0,
        };
        let d = Disk {
            sb: SuperBlock { version: 0, root_inum: 0 },
            i_bitmaps: vec![0u32; INDEX_BITMAP_WORDS],
            d_bitmaps: vec![0u32; DATA_BITMAP_WORDS],
            i_blocks: IndexRegion {
                inodes: vec![zero_inode; INODE_COUNT],
                indirect: vec![0u32; INDEX_BLOCK_COUNT * INDIRECT_CAPACITY],
            },
            d_blocks: vec![0u8; DATA_BLOCK_COUNT * ALIGN_SIZE],
        };
        d
    }

    /// Zero every region, keeping the fixed lengths.
    pub fn reset_zero(&mut self)
        ensures
            disk_lens_ok(*final(self)),
            final(self).sb.version == 0,
            final(self).sb.root_inum == 0,
            forall|w: int| 0 <= w < INDEX_BITMAP_WORDS ==> final(self).i_bitmaps@[w] == 0u32,
            forall|w: int| 0 <= w < DATA_BITMAP_WORDS ==> final(self).d_bitmaps@[w] == 0u32,
            forall|i: int| 0 <= i < INODE_COUNT ==> final(self).i_blocks.inodes@[i] == spec_zero_inode(),
            forall|w: int| 0 <= w < INDEX_BLOCK_COUNT * INDIRECT_CAPACITY
                ==> final(self).i_blocks.indirect@[w] == 0u32,
            forall|p: int| 0 <= p < DATA_BLOCK_COUNT * ALIGN_SIZE ==> final(self).d_blocks@[p] == 0u8,
    {
        *self = Disk::new();
    }
}

} // verus!
