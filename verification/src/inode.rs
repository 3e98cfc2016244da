//! The inode and indexing engine: reading and writing inode slots and
//! single-indirect tables, and the map from a file's logical block index to
//! its physical data-block number.
//!
//! Logical block `i` of a file lives in `block_direct[i]` for `i < 12`, and
//! in word `i - 12` of the file's indirect table otherwise.  The indirect
//! table is the word pool of index block `block_indirect / 32`, and the
//! inode-bitmap word of that block is held at all-ones while the table is in
//! use.

use vstd::prelude::*;
use crate::repr::{
    INode, IndexRegion, index_region_wf, spec_block_count_for, ALIGN_SIZE, DATA_BLOCK_COUNT,
    DIRECT_BLOCK_COUNT, INDEX_BLOCK_COUNT, INDIRECT_CAPACITY, INODE_COUNT, MAX_FILE_BLOCKS,
};
use crate::bitmap::bm_bit;

verus! {

/// First word of the indirect table named by a `block_indirect` handle.
pub open spec fn spec_ind_base(indirect: u32) -> int {
    (indirect as int / 32) * (INDIRECT_CAPACITY as int)
}

/// Physical data-block number of logical block `idx` of inode `inum`.
pub open spec fn spec_dnum(ib: IndexRegion, inum: int, idx: int) -> u32 {
    let ino = ib.inodes@[inum];
    if idx < DIRECT_BLOCK_COUNT {
        ino.block_direct@[idx]
    } else {
        ib.indirect@[spec_ind_base(ino.block_indirect) + (idx - DIRECT_BLOCK_COUNT)]
    }
}

/// The metadata fields a resize never touches.
pub open spec fn same_inode_meta(a: INode, b: INode) -> bool {
    &&& a.is_dir == b.is_dir
    &&& a.atime == b.atime
    &&& a.ctime == b.ctime
    &&& a.mtime == b.mtime
}

/// Structural soundness of an inode's block list, apart from the relation
/// between `size` and `block_count`: the count is within the direct plus
/// single-indirect capacity, and the indirect handle is present, well
/// aligned and in range exactly when blocks spill past the direct slots.
pub open spec fn inode_shape_ok(ino: INode) -> bool {
    &&& ino.block_count <= MAX_FILE_BLOCKS
    &&& (ino.block_count > DIRECT_BLOCK_COUNT ==> {
        &&& ino.block_indirect % 32 == 0
        &&& 32 <= ino.block_indirect
        &&& ino.block_indirect / 32 < INDEX_BLOCK_COUNT
    })
    &&& (ino.block_count <= DIRECT_BLOCK_COUNT ==> ino.block_indirect == 0)
}

/// Ownership soundness of inode `inum`'s block list against the bitmaps:
/// the inode's own bit is set; every backing data block is in range, marked
/// in the data bitmap, and listed only once; and if an indirect table is in
/// use, its whole inode-bitmap word is held at all-ones and is not the word
/// that covers `inum` itself.
pub open spec fn inode_blocks_ok(ib: IndexRegion, ibm: Seq<u32>, dbm: Seq<u32>, inum: int) -> bool {
    let ino = ib.inodes@[inum];
    &&& inode_shape_ok(ino)
    &&& bm_bit(ibm, inum)
    &&& (ino.block_count > DIRECT_BLOCK_COUNT ==> {
        &&& ibm[ino.block_indirect as int / 32] == 0xffff_ffffu32
        &&& ino.block_indirect as int / 32 != inum / 32
    })
    &&& forall|k: int|
        0 <= k < ino.block_count ==> (#[trigger] spec_dnum(ib, inum, k)) < DATA_BLOCK_COUNT
    &&& forall|k: int|
        0 <= k < ino.block_count ==> bm_bit(dbm, #[trigger] spec_dnum(ib, inum, k) as int)
    &&& forall|k1: int, k2: int|
        0 <= k1 < k2 < ino.block_count
            ==> spec_dnum(ib, inum, k1) != spec_dnum(ib, inum, k2)
}

/// Full well-formedness of an allocated inode: sound block list and
/// `block_count = ⌈size / 4096⌉`.
pub open spec fn inode_wf(ib: IndexRegion, ibm: Seq<u32>, dbm: Seq<u32>, inum: int) -> bool {
    &&& inode_blocks_ok(ib, ibm, dbm, inum)
    &&& ib.inodes@[inum].block_count == spec_block_count_for(ib.inodes@[inum].size)
}

/// Inode `inum`.
pub fn get_inode(i_blocks: &IndexRegion, inum: usize) -> (r: INode)
    requires
        inum < i_blocks.inodes@.len(),
    ensures
        r == i_blocks.inodes@[inum as int],
{
    i_blocks.inodes[inum]
}

/// Store `node` in slot `inum`, leaving every other slot and the whole
/// indirect pool alone.
pub fn set_inode(i_blocks: &mut IndexRegion, inum: usize, node: INode)
    requires
        inum < old(i_blocks).inodes@.len(),
    ensures
        final(i_blocks).inodes@ == old(i_blocks).inodes@.update(inum as int, node),
        final(i_blocks).indirect@ == old(i_blocks).indirect@,
{
    i_blocks.inodes[inum] = node;
}

/// Word `index` of the indirect table named by the handle `indirect`.
pub fn get_indirect_dnum(i_blocks: &IndexRegion, indirect: usize, index: usize) -> (r: u32)
    requires
        index_region_wf(*i_blocks),
        indirect / 32 < INDEX_BLOCK_COUNT,
        index < INDIRECT_CAPACITY,
    ensures
        r == i_blocks.indirect@[spec_ind_base(indirect as u32) + index],
{
    i_blocks.indirect[(indirect / 32) * INDIRECT_CAPACITY + index]
}

/// Set word `index` of the indirect table named by `indirect`, leaving
/// every other word and every inode slot alone.
pub fn set_indirect_dnum(i_blocks: &mut IndexRegion, indirect: usize, index: usize, dnum: u32)
    requires
        index_region_wf(*old(i_blocks)),
        indirect / 32 < INDEX_BLOCK_COUNT,
        index < INDIRECT_CAPACITY,
    ensures
        final(i_blocks).inodes@ == old(i_blocks).inodes@,
        final(i_blocks).indirect@ == old(i_blocks).indirect@.update(
            spec_ind_base(indirect as u32) + index,
            dnum,
        ),
{
    i_blocks.indirect[(indirect / 32) * INDIRECT_CAPACITY + index] = dnum;
}

/// Data-block number of logical block `index` of inode `inum`.
pub fn get_dnum(i_blocks: &IndexRegion, inum: usize, index: usize) -> (r: u32)
    requires
        index_region_wf(*i_blocks),
        inum < INODE_COUNT,
        inode_shape_ok(i_blocks.inodes@[inum as int]),
        index < i_blocks.inodes@[inum as int].block_count,
    ensures
        r == spec_dnum(*i_blocks, inum as int, index as int),
{
    let inode = get_inode(i_blocks, inum);
    if index < DIRECT_BLOCK_COUNT {
        inode.block_direct[index]
    } else {
        get_indirect_dnum(i_blocks, inode.block_indirect as usize, index - DIRECT_BLOCK_COUNT)
    }
}

/// Usable bytes of logical block `index`: 4096 for every block but the
/// last, where it is `((size - 1) mod 4096) + 1`.
pub open spec fn spec_block_usable(ino: INode, idx: int) -> int {
    if idx == ino.block_count - 1 {
        (ino.size - 1) % 4096 + 1
    } else {
        4096
    }
}

/// Usable bytes of logical block `index` of `inode`.
pub fn get_size_of_data_block(inode: &INode, index: usize) -> (r: usize)
    requires
        index < inode.block_count,
        inode.block_count == spec_block_count_for(inode.size),
    ensures
        r == spec_block_usable(*inode, index as int),
        1 <= r <= 4096,
{
    if index == inode.block_count as usize - 1 {
        ((inode.size as usize - 1) % 4096) + 1
    } else {
        4096
    }
}

/// Translate byte position `pos` of inode `inum` into the data-block
/// number holding it and the offset within that block.
pub fn transform_pos(i_blocks: &IndexRegion, inum: usize, pos: usize) -> (r: (usize, usize))
    requires
        index_region_wf(*i_blocks),
        inum < INODE_COUNT,
        inode_shape_ok(i_blocks.inodes@[inum as int]),
        pos / ALIGN_SIZE < i_blocks.inodes@[inum as int].block_count,
        pos / ALIGN_SIZE < i_blocks.inodes@[inum as int].size,
    ensures
        r.0 == spec_dnum(*i_blocks, inum as int, pos as int / ALIGN_SIZE as int),
        r.1 == pos % ALIGN_SIZE,
{
    let block_index = pos / ALIGN_SIZE;
    let offset = pos % ALIGN_SIZE;
    let dnum = get_dnum(i_blocks, inum, block_index);
    (dnum as usize, offset)
}

} // verus!
