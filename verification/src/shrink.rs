//! Shrinking an inode's block list, freeing a whole inode, and resizing to
//! a byte size.
//!
//! Shrinking frees the tail blocks and zeroes their slots; once the count
//! falls back within the direct slots, the single-indirect table's whole
//! inode-bitmap word is released and `block_indirect` cleared.  Freeing an
//! inode frees every referenced data block, releases the indirect unit if
//! any, zeroes the inode slot, then clears the inode's own bitmap bit, in
//! that order.

use vstd::prelude::*;
use vstd::array::ArrayAdditionalExecFns;
use crate::repr::{
    IndexRegion, index_region_wf, spec_block_count_for, spec_zero_inode, INode, ALIGN_SIZE,
    DATA_BITMAP_WORDS, DATA_BLOCK_COUNT, DIRECT_BLOCK_COUNT, INDEX_BITMAP_WORDS,
    INDEX_BLOCK_COUNT, INDIRECT_CAPACITY, INODE_COUNT, MAX_FILE_BLOCKS,
};
use crate::bitmap::{
    bm_bit, count_clear, get_block_state, lemma_count_clear_unset, set_block_state, set_state,
};
use crate::grow::{dbm_extended, dbm_first_fit, extend_data_block_of_inode};
use crate::inode::{
    get_dnum, get_inode, inode_blocks_ok, inode_wf, same_inode_meta, set_inode, spec_dnum,
};

verus! {

/// The data bitmap `dbm` holds exactly the bits of `olddbm` minus the
/// blocks of inode `inum` of `oldib` with logical indices in `[from, to)`.
pub open spec fn dbm_shrunk(
    oldib: IndexRegion,
    dbm: Seq<u32>,
    olddbm: Seq<u32>,
    inum: int,
    from: int,
    to: int,
) -> bool {
    forall|j: int|
        0 <= j < DATA_BITMAP_WORDS * 32
            ==> bm_bit(dbm, j) == (bm_bit(olddbm, j) && !(exists|k: int|
                from <= k < to && (#[trigger] spec_dnum(oldib, inum, k)) == j))
}

/// Shrink inode `inum` to back `count` blocks; a no-op if it already backs
/// that few.  Tail blocks are freed in the data bitmap and their slots
/// zeroed; crossing back into the direct slots releases the indirect
/// table's whole inode-bitmap word and clears `block_indirect`.
pub fn shrink_data_block_of_inode(
    index_bitmap_blocks: &mut Vec<u32>,
    data_bitmap_blocks: &mut Vec<u32>,
    index_blocks: &mut IndexRegion,
    inum: usize,
    count: usize,
)
    requires
        old(index_bitmap_blocks)@.len() == INDEX_BITMAP_WORDS,
        old(data_bitmap_blocks)@.len() == DATA_BITMAP_WORDS,
        index_region_wf(*old(index_blocks)),
        inum < INODE_COUNT,
        inode_blocks_ok(
            *old(index_blocks),
            old(index_bitmap_blocks)@,
            old(data_bitmap_blocks)@,
            inum as int,
        ),
    ensures
        final(index_bitmap_blocks)@.len() == INDEX_BITMAP_WORDS,
        final(data_bitmap_blocks)@.len() == DATA_BITMAP_WORDS,
        index_region_wf(*final(index_blocks)),
        forall|i: int|
            0 <= i < INODE_COUNT && i != inum
                ==> final(index_blocks).inodes@[i] == old(index_blocks).inodes@[i],
        inode_blocks_ok(
            *final(index_blocks),
            final(index_bitmap_blocks)@,
            final(data_bitmap_blocks)@,
            inum as int,
        ),
        count >= old(index_blocks).inodes@[inum as int].block_count ==> {
            &&& final(index_bitmap_blocks)@ == old(index_bitmap_blocks)@
            &&& final(data_bitmap_blocks)@ == old(data_bitmap_blocks)@
            &&& final(index_blocks).inodes@ == old(index_blocks).inodes@
            &&& final(index_blocks).indirect@ == old(index_blocks).indirect@
        },
        count < old(index_blocks).inodes@[inum as int].block_count ==> {
            let oldino = old(index_blocks).inodes@[inum as int];
            let newino = final(index_blocks).inodes@[inum as int];
            &&& same_inode_meta(newino, oldino)
            &&& newino.size == oldino.size
            &&& newino.block_count == count
            &&& forall|k: int|
                0 <= k < count
                    ==> spec_dnum(*final(index_blocks), inum as int, k) == spec_dnum(
                        *old(index_blocks),
                        inum as int,
                        k,
                    )
            &&& forall|k: int|
                count <= k < oldino.block_count
                    ==> !bm_bit(
                        final(data_bitmap_blocks)@,
                        spec_dnum(*old(index_blocks), inum as int, k) as int,
                    )
            &&& forall|k: int|
                count <= k < oldino.block_count && k < DIRECT_BLOCK_COUNT
                    ==> newino.block_direct[k] == 0u32
            &&& (oldino.block_count > DIRECT_BLOCK_COUNT ==> forall|w: int|
                crate::inode::spec_ind_base(oldino.block_indirect) + (if count as int
                    > DIRECT_BLOCK_COUNT as int {
                    count as int - DIRECT_BLOCK_COUNT as int
                } else {
                    0int
                }) <= w < crate::inode::spec_ind_base(oldino.block_indirect) + (
                oldino.block_count - DIRECT_BLOCK_COUNT)
                    ==> #[trigger] final(index_blocks).indirect@[w] == 0u32)
            &&& dbm_shrunk(
                *old(index_blocks),
                final(data_bitmap_blocks)@,
                old(data_bitmap_blocks)@,
                inum as int,
                count as int,
                oldino.block_count as int,
            )
            &&& count_clear(final(data_bitmap_blocks)@, DATA_BLOCK_COUNT as int) == count_clear(
                old(data_bitmap_blocks)@,
                DATA_BLOCK_COUNT as int,
            ) + (oldino.block_count - count)
            &&& (count <= DIRECT_BLOCK_COUNT && oldino.block_count > DIRECT_BLOCK_COUNT ==> {
                &&& newino.block_indirect == 0
                &&& final(index_bitmap_blocks)@[oldino.block_indirect as int / 32] == 0u32
                &&& forall|w: int|
                    0 <= w < INDEX_BITMAP_WORDS && w != oldino.block_indirect as int / 32
                        ==> final(index_bitmap_blocks)@[w] == old(index_bitmap_blocks)@[w]
            })
            &&& (!(count <= DIRECT_BLOCK_COUNT && oldino.block_count > DIRECT_BLOCK_COUNT) ==> {
                &&& final(index_bitmap_blocks)@ == old(index_bitmap_blocks)@
                &&& newino.block_indirect == oldino.block_indirect
            })
            &&& (oldino.block_count <= DIRECT_BLOCK_COUNT
                ==> final(index_blocks).indirect@ == old(index_blocks).indirect@)
            &&& (oldino.block_count > DIRECT_BLOCK_COUNT ==> forall|w: int|
                0 <= w < INDEX_BLOCK_COUNT * INDIRECT_CAPACITY
                    && w / (INDIRECT_CAPACITY as int) != oldino.block_indirect as int / 32
                    ==> final(index_blocks).indirect@[w] == old(index_blocks).indirect@[w])
        },
{
    let mut ino = get_inode(index_blocks, inum);
    if ino.block_count as usize <= count {
        return ;
    }
    let ghost oldibm = index_bitmap_blocks@;
    let ghost olddbm = data_bitmap_blocks@;
    let ghost oldib = *index_blocks;
    let ghost oldino = ino;
    let obc = ino.block_count as usize;

    // Free the tail blocks and zero their slots.
    let mut i = count;
    while i < obc
        invariant
            index_bitmap_blocks@ == oldibm,
            oldibm.len() == INDEX_BITMAP_WORDS,
            data_bitmap_blocks@.len() == DATA_BITMAP_WORDS,
            olddbm.len() == DATA_BITMAP_WORDS,
            index_region_wf(*index_blocks),
            index_region_wf(oldib),
            inum < INODE_COUNT,
            count <= i <= obc,
            obc == oldino.block_count,
            obc <= MAX_FILE_BLOCKS,
            oldino == oldib.inodes@[inum as int],
            ino == index_blocks.inodes@[inum as int],
            ino.block_count == oldino.block_count,
            ino.block_indirect == oldino.block_indirect,
            same_inode_meta(ino, oldino),
            ino.size == oldino.size,
            inode_blocks_ok(oldib, oldibm, olddbm, inum as int),
            bm_bit(index_bitmap_blocks@, inum as int),
            forall|ii: int|
                0 <= ii < INODE_COUNT && ii != inum
                    ==> index_blocks.inodes@[ii] == oldib.inodes@[ii],
            (oldino.block_count <= DIRECT_BLOCK_COUNT
                ==> index_blocks.indirect@ == oldib.indirect@),
            (oldino.block_count > DIRECT_BLOCK_COUNT ==> forall|w: int|
                0 <= w < INDEX_BLOCK_COUNT * INDIRECT_CAPACITY
                    && w / (INDIRECT_CAPACITY as int) != oldino.block_indirect as int / 32
                    ==> index_blocks.indirect@[w] == oldib.indirect@[w]),
            forall|k: int|
                0 <= k < count
                    ==> spec_dnum(*index_blocks, inum as int, k) == spec_dnum(
                        oldib,
                        inum as int,
                        k,
                    ),
            forall|k: int|
                i <= k < obc
                    ==> spec_dnum(*index_blocks, inum as int, k) == spec_dnum(
                        oldib,
                        inum as int,
                        k,
                    ),
            forall|k: int|
                count <= k < i
                    ==> !bm_bit(
                        data_bitmap_blocks@,
                        spec_dnum(oldib, inum as int, k) as int,
                    ),
            forall|k: int|
                count <= k < i && k < DIRECT_BLOCK_COUNT ==> ino.block_direct[k] == 0u32,
            forall|w: int|
                crate::inode::spec_ind_base(oldino.block_indirect) + (if count as int
                    > DIRECT_BLOCK_COUNT as int {
                    count as int - DIRECT_BLOCK_COUNT as int
                } else {
                    0int
                }) <= w < crate::inode::spec_ind_base(oldino.block_indirect) + (i
                - DIRECT_BLOCK_COUNT)
                    ==> #[trigger] index_blocks.indirect@[w] == 0u32,
            dbm_shrunk(oldib, data_bitmap_blocks@, olddbm, inum as int, count as int, i as int),
            count_clear(data_bitmap_blocks@, DATA_BLOCK_COUNT as int) == count_clear(
                olddbm,
                DATA_BLOCK_COUNT as int,
            ) + (i - count),
        decreases obc - i,
    {
        let dnum = get_dnum(index_blocks, inum, i);
        let ghost prev_dbm = data_bitmap_blocks@;
        let ghost prev_ib = *index_blocks;
        proof {
            assert(spec_dnum(oldib, inum as int, i as int) < DATA_BLOCK_COUNT);
            assert(bm_bit(prev_dbm, dnum as int)) by {
                assert(bm_bit(olddbm, dnum as int));
                assert forall|k: int|
                    count <= k < i implies (#[trigger] spec_dnum(oldib, inum as int, k))
                    != dnum by {}
            }
        }
        set_state(data_bitmap_blocks, dnum as usize, false);
        proof {
            lemma_count_clear_unset(
                prev_dbm,
                data_bitmap_blocks@,
                dnum as int,
                DATA_BLOCK_COUNT as int,
            );
            assert forall|j: int| 0 <= j < DATA_BITMAP_WORDS * 32 implies bm_bit(
                data_bitmap_blocks@,
                j,
            ) == (bm_bit(olddbm, j) && !(exists|k: int|
                count <= k < i + 1 && (#[trigger] spec_dnum(oldib, inum as int, k)) == j)) by {
                if j == dnum {
                    assert(spec_dnum(oldib, inum as int, i as int) == j);
                } else {
                    if exists|k: int|
                        count <= k < i + 1 && (#[trigger] spec_dnum(oldib, inum as int, k)) == j {
                        let k = choose|k: int|
                            count <= k < i + 1 && (#[trigger] spec_dnum(oldib, inum as int, k))
                                == j;
                        assert(k < i);
                    }
                }
            }
        }
        // Zero the slot.
        if i < DIRECT_BLOCK_COUNT {
            ino.block_direct.set(i, 0u32);
            set_inode(index_blocks, inum, ino);
        } else {
            crate::inode::set_indirect_dnum(
                index_blocks,
                ino.block_indirect as usize,
                i - DIRECT_BLOCK_COUNT,
                0u32,
            );
        }
        proof {
            assert forall|k: int| 0 <= k < count || i + 1 <= k < obc implies #[trigger] spec_dnum(
                *index_blocks,
                inum as int,
                k,
            ) == spec_dnum(prev_ib, inum as int, k) by {}
        }
        i = i + 1;
    }

    // Release the indirect table if the shrink crossed back into the
    // direct slots; the word must be whole, a mixed word is corruption.
    if count <= DIRECT_BLOCK_COUNT && obc > DIRECT_BLOCK_COUNT {
        let state = get_block_state(index_bitmap_blocks, ino.block_indirect as usize / 32);
        if state != 0xffff_ffffu32 && state != 0u32 {
            proof {
                assert(false);
            }
        }
        set_block_state(index_bitmap_blocks, ino.block_indirect as usize / 32, false);
        ino.block_indirect = 0;
    }

    ino.block_count = count as u32;
    set_inode(index_blocks, inum, ino);
    proof {
        assert forall|k: int| 0 <= k < count implies #[trigger] spec_dnum(
            *index_blocks,
            inum as int,
            k,
        ) == spec_dnum(oldib, inum as int, k) by {}
        assert forall|k: int| 0 <= k < count implies bm_bit(
            data_bitmap_blocks@,
            (#[trigger] spec_dnum(*index_blocks, inum as int, k)) as int,
        ) by {
            let j = spec_dnum(oldib, inum as int, k) as int;
            assert(bm_bit(olddbm, j));
            assert forall|kk: int| count <= kk < obc implies (#[trigger] spec_dnum(
                oldib,
                inum as int,
                kk,
            )) as int != j by {}
        }
    }
}

/// The inode bitmap after freeing inode `t` whose inode was `ino`: the
/// indirect unit's word zeroed if one was held, and then the inode's own
/// bit cleared.
pub open spec fn spec_ibm_after_free(ibm: Seq<u32>, ino: INode, t: int) -> Seq<u32> {
    let w1 = if ino.block_indirect != 0 {
        ibm.update(ino.block_indirect as int / 32, 0u32)
    } else {
        ibm
    };
    w1.update(t / 32, w1[t / 32] & !(1u32 << ((t % 32) as u32)))
}

/// Free inode `inum`: free every referenced data block, release the
/// indirect unit if any, zero the inode slot, then clear the inode's own
/// bitmap bit.
pub fn free_inode(
    index_bitmap_blocks: &mut Vec<u32>,
    block_bitmap_blocks: &mut Vec<u32>,
    index_blocks: &mut IndexRegion,
    inum: usize,
)
    requires
        old(index_bitmap_blocks)@.len() == INDEX_BITMAP_WORDS,
        old(block_bitmap_blocks)@.len() == DATA_BITMAP_WORDS,
        index_region_wf(*old(index_blocks)),
        inum < INODE_COUNT,
        inode_blocks_ok(
            *old(index_blocks),
            old(index_bitmap_blocks)@,
            old(block_bitmap_blocks)@,
            inum as int,
        ),
    ensures
        final(index_bitmap_blocks)@.len() == INDEX_BITMAP_WORDS,
        final(block_bitmap_blocks)@.len() == DATA_BITMAP_WORDS,
        index_region_wf(*final(index_blocks)),
        forall|i: int|
            0 <= i < INODE_COUNT && i != inum
                ==> final(index_blocks).inodes@[i] == old(index_blocks).inodes@[i],
        final(index_blocks).indirect@ == old(index_blocks).indirect@,
        final(index_blocks).inodes@[inum as int] == spec_zero_inode(),
        !bm_bit(final(index_bitmap_blocks)@, inum as int),
        dbm_shrunk(
            *old(index_blocks),
            final(block_bitmap_blocks)@,
            old(block_bitmap_blocks)@,
            inum as int,
            0,
            old(index_blocks).inodes@[inum as int].block_count as int,
        ),
        forall|k: int|
            0 <= k < old(index_blocks).inodes@[inum as int].block_count
                ==> !bm_bit(
                    final(block_bitmap_blocks)@,
                    spec_dnum(*old(index_blocks), inum as int, k) as int,
                ),
        count_clear(final(block_bitmap_blocks)@, DATA_BLOCK_COUNT as int) == count_clear(
            old(block_bitmap_blocks)@,
            DATA_BLOCK_COUNT as int,
        ) + old(index_blocks).inodes@[inum as int].block_count,
        final(index_bitmap_blocks)@ == spec_ibm_after_free(
            old(index_bitmap_blocks)@,
            old(index_blocks).inodes@[inum as int],
            inum as int,
        ),
        ({
            let oldino = old(index_blocks).inodes@[inum as int];
            &&& (oldino.block_count > DIRECT_BLOCK_COUNT ==> {
                &&& final(index_bitmap_blocks)@[oldino.block_indirect as int / 32] == 0u32
                &&& forall|j: int|
                    0 <= j < INDEX_BITMAP_WORDS * 32 && j != inum
                        && j / 32 != oldino.block_indirect as int / 32
                        ==> bm_bit(final(index_bitmap_blocks)@, j) == bm_bit(
                            old(index_bitmap_blocks)@,
                            j,
                        )
            })
            &&& (oldino.block_count <= DIRECT_BLOCK_COUNT ==> forall|j: int|
                0 <= j < INDEX_BITMAP_WORDS * 32 && j != inum
                    ==> bm_bit(final(index_bitmap_blocks)@, j) == bm_bit(
                        old(index_bitmap_blocks)@,
                        j,
                    ))
        }),
{
    let ino = get_inode(index_blocks, inum);
    let ghost olddbm = block_bitmap_blocks@;
    let ghost oldib = *index_blocks;
    let bc = ino.block_count as usize;

    let mut k = 0usize;
    while k < bc
        invariant
            block_bitmap_blocks@.len() == DATA_BITMAP_WORDS,
            olddbm.len() == DATA_BITMAP_WORDS,
            index_region_wf(*index_blocks),
            inum < INODE_COUNT,
            0 <= k <= bc,
            *index_blocks == oldib,
            ino == oldib.inodes@[inum as int],
            bc == ino.block_count,
            inode_blocks_ok(oldib, index_bitmap_blocks@, olddbm, inum as int),
            index_bitmap_blocks@.len() == INDEX_BITMAP_WORDS,
            forall|kk: int|
                0 <= kk < k
                    ==> !bm_bit(
                        block_bitmap_blocks@,
                        spec_dnum(oldib, inum as int, kk) as int,
                    ),
            dbm_shrunk(oldib, block_bitmap_blocks@, olddbm, inum as int, 0, k as int),
            count_clear(block_bitmap_blocks@, DATA_BLOCK_COUNT as int) == count_clear(
                olddbm,
                DATA_BLOCK_COUNT as int,
            ) + k,
        decreases bc - k,
    {
        let dnum = get_dnum(index_blocks, inum, k);
        let ghost prev_dbm = block_bitmap_blocks@;
        proof {
            assert(bm_bit(prev_dbm, dnum as int)) by {
                assert(bm_bit(olddbm, dnum as int));
                assert forall|kk: int|
                    0 <= kk < k implies (#[trigger] spec_dnum(oldib, inum as int, kk))
                    != dnum by {}
            }
        }
        set_state(block_bitmap_blocks, dnum as usize, false);
        proof {
            lemma_count_clear_unset(
                prev_dbm,
                block_bitmap_blocks@,
                dnum as int,
                DATA_BLOCK_COUNT as int,
            );
            assert forall|j: int| 0 <= j < DATA_BITMAP_WORDS * 32 implies bm_bit(
                block_bitmap_blocks@,
                j,
            ) == (bm_bit(olddbm, j) && !(exists|kk: int|
                0 <= kk < k + 1 && (#[trigger] spec_dnum(oldib, inum as int, kk)) == j)) by {
                if j == dnum {
                    assert(spec_dnum(oldib, inum as int, k as int) == j);
                } else {
                    if exists|kk: int|
                        0 <= kk < k + 1 && (#[trigger] spec_dnum(oldib, inum as int, kk)) == j {
                        let kk = choose|kk: int|
                            0 <= kk < k + 1 && (#[trigger] spec_dnum(oldib, inum as int, kk))
                                == j;
                        assert(kk < k);
                    }
                }
            }
        }
        k = k + 1;
    }

    // Release the indirect unit, as one whole word.
    if ino.block_indirect != 0 {
        set_block_state(index_bitmap_blocks, ino.block_indirect as usize / 32, false);
    }

    // Zero the inode slot, then clear its own bit, in that order.
    let zero = INode {
        size: 0,
        is_dir: false,
        atime: 0,
        ctime: 0,
        mtime: 0,
        block_count: 0,
        block_direct: [0u32; DIRECT_BLOCK_COUNT],
        block_indirect: 0,
    };
    set_inode(index_blocks, inum, zero);
    set_state(index_bitmap_blocks, inum, false);
    proof {
        assert(index_bitmap_blocks@ =~= spec_ibm_after_free(
            old(index_bitmap_blocks)@,
            ino,
            inum as int,
        ));
    }
}


/// Grow or shrink inode `inum` to back exactly `count` blocks.
pub fn resize_data_block_of_inode(
    index_bitmap_blocks: &mut Vec<u32>,
    data_bitmap_blocks: &mut Vec<u32>,
    index_blocks: &mut IndexRegion,
    inum: usize,
    count: usize,
)
    requires
        old(index_bitmap_blocks)@.len() == INDEX_BITMAP_WORDS,
        old(data_bitmap_blocks)@.len() == DATA_BITMAP_WORDS,
        index_region_wf(*old(index_blocks)),
        inum < INODE_COUNT,
        count <= MAX_FILE_BLOCKS,
        bm_bit(old(index_bitmap_blocks)@, 0),
        inode_blocks_ok(
            *old(index_blocks),
            old(index_bitmap_blocks)@,
            old(data_bitmap_blocks)@,
            inum as int,
        ),
        count > old(index_blocks).inodes@[inum as int].block_count ==> count_clear(
            old(data_bitmap_blocks)@,
            DATA_BLOCK_COUNT as int,
        ) >= count - old(index_blocks).inodes@[inum as int].block_count,
        (count > DIRECT_BLOCK_COUNT
            && old(index_blocks).inodes@[inum as int].block_count <= DIRECT_BLOCK_COUNT)
            ==> exists|w: int| 0 <= w < INDEX_BLOCK_COUNT && old(index_bitmap_blocks)@[w] == 0u32,
    ensures
        final(index_bitmap_blocks)@.len() == INDEX_BITMAP_WORDS,
        final(data_bitmap_blocks)@.len() == DATA_BITMAP_WORDS,
        index_region_wf(*final(index_blocks)),
        forall|i: int|
            0 <= i < INODE_COUNT && i != inum
                ==> final(index_blocks).inodes@[i] == old(index_blocks).inodes@[i],
        inode_blocks_ok(
            *final(index_blocks),
            final(index_bitmap_blocks)@,
            final(data_bitmap_blocks)@,
            inum as int,
        ),
        final(index_blocks).inodes@[inum as int].block_count == count,
        same_inode_meta(
            final(index_blocks).inodes@[inum as int],
            old(index_blocks).inodes@[inum as int],
        ),
        final(index_blocks).inodes@[inum as int].size
            == old(index_blocks).inodes@[inum as int].size,
        forall|k: int|
            0 <= k < count && k < old(index_blocks).inodes@[inum as int].block_count
                ==> spec_dnum(*final(index_blocks), inum as int, k) == spec_dnum(
                    *old(index_blocks),
                    inum as int,
                    k,
                ),
        count > old(index_blocks).inodes@[inum as int].block_count ==> {
            let oldino = old(index_blocks).inodes@[inum as int];
            let newino = final(index_blocks).inodes@[inum as int];
            &&& forall|k: int|
                oldino.block_count <= k < count
                    ==> !bm_bit(
                        old(data_bitmap_blocks)@,
                        spec_dnum(*final(index_blocks), inum as int, k) as int,
                    )
            &&& dbm_extended(
                *final(index_blocks),
                final(data_bitmap_blocks)@,
                old(data_bitmap_blocks)@,
                inum as int,
                oldino.block_count as int,
                count as int,
            )
            &&& dbm_first_fit(
                *final(index_blocks),
                old(data_bitmap_blocks)@,
                inum as int,
                oldino.block_count as int,
                count as int,
            )
            &&& count_clear(final(data_bitmap_blocks)@, DATA_BLOCK_COUNT as int) == count_clear(
                old(data_bitmap_blocks)@,
                DATA_BLOCK_COUNT as int,
            ) - (count - oldino.block_count)
            &&& (count <= DIRECT_BLOCK_COUNT ==> final(index_bitmap_blocks)@ == old(
                index_bitmap_blocks,
            )@ && newino.block_indirect == oldino.block_indirect)
            &&& (count > DIRECT_BLOCK_COUNT && oldino.block_count > DIRECT_BLOCK_COUNT
                ==> final(index_bitmap_blocks)@ == old(index_bitmap_blocks)@
                    && newino.block_indirect == oldino.block_indirect)
            &&& (count > DIRECT_BLOCK_COUNT && oldino.block_count <= DIRECT_BLOCK_COUNT ==> {
                &&& old(index_bitmap_blocks)@[newino.block_indirect as int / 32] == 0u32
                &&& final(index_bitmap_blocks)@[newino.block_indirect as int / 32]
                    == 0xffff_ffffu32
                &&& forall|w: int|
                    0 <= w < INDEX_BITMAP_WORDS && w != newino.block_indirect as int / 32
                        ==> final(index_bitmap_blocks)@[w] == old(index_bitmap_blocks)@[w]
                &&& forall|w: int|
                    0 <= w < newino.block_indirect as int / 32
                        ==> old(index_bitmap_blocks)@[w] != 0u32
            })
        },
        count < old(index_blocks).inodes@[inum as int].block_count ==> {
            let oldino = old(index_blocks).inodes@[inum as int];
            let newino = final(index_blocks).inodes@[inum as int];
            &&& forall|k: int|
                count <= k < oldino.block_count
                    ==> !bm_bit(
                        final(data_bitmap_blocks)@,
                        spec_dnum(*old(index_blocks), inum as int, k) as int,
                    )
            &&& dbm_shrunk(
                *old(index_blocks),
                final(data_bitmap_blocks)@,
                old(data_bitmap_blocks)@,
                inum as int,
                count as int,
                oldino.block_count as int,
            )
            &&& count_clear(final(data_bitmap_blocks)@, DATA_BLOCK_COUNT as int) == count_clear(
                old(data_bitmap_blocks)@,
                DATA_BLOCK_COUNT as int,
            ) + (oldino.block_count - count)
            &&& (count <= DIRECT_BLOCK_COUNT && oldino.block_count > DIRECT_BLOCK_COUNT ==> {
                &&& newino.block_indirect == 0
                &&& final(index_bitmap_blocks)@[oldino.block_indirect as int / 32] == 0u32
                &&& forall|w: int|
                    0 <= w < INDEX_BITMAP_WORDS && w != oldino.block_indirect as int / 32
                        ==> final(index_bitmap_blocks)@[w] == old(index_bitmap_blocks)@[w]
            })
            &&& (!(count <= DIRECT_BLOCK_COUNT && oldino.block_count > DIRECT_BLOCK_COUNT)
                ==> final(index_bitmap_blocks)@ == old(index_bitmap_blocks)@
                    && newino.block_indirect == oldino.block_indirect)
        },
        count == old(index_blocks).inodes@[inum as int].block_count ==> {
            &&& final(index_bitmap_blocks)@ == old(index_bitmap_blocks)@
            &&& final(data_bitmap_blocks)@ == old(data_bitmap_blocks)@
            &&& final(index_blocks).inodes@ == old(index_blocks).inodes@
            &&& final(index_blocks).indirect@ == old(index_blocks).indirect@
        },
        forall|w: int|
            0 <= w < INDEX_BLOCK_COUNT * INDIRECT_CAPACITY && !(
            final(index_blocks).inodes@[inum as int].block_count > DIRECT_BLOCK_COUNT && w / (
            INDIRECT_CAPACITY as int) == final(index_blocks).inodes@[inum as int].block_indirect
                as int / 32) && !(old(index_blocks).inodes@[inum as int].block_count
                > DIRECT_BLOCK_COUNT && w / (INDIRECT_CAPACITY as int) == old(
                index_blocks,
            ).inodes@[inum as int].block_indirect as int / 32)
                ==> final(index_blocks).indirect@[w] == old(index_blocks).indirect@[w],
{
    let ino = get_inode(index_blocks, inum);
    if (ino.block_count as usize) < count {
        extend_data_block_of_inode(
            index_bitmap_blocks,
            data_bitmap_blocks,
            index_blocks,
            inum,
            count,
        );
    } else if (ino.block_count as usize) > count {
        shrink_data_block_of_inode(
            index_bitmap_blocks,
            data_bitmap_blocks,
            index_blocks,
            inum,
            count,
        );
    }
}

/// Set inode `inum` to back exactly `new_size` bytes: grow or shrink to
/// `⌈new_size / 4096⌉` blocks, then record the byte size.
pub fn resize(
    index_bitmap_blocks: &mut Vec<u32>,
    data_bitmap_blocks: &mut Vec<u32>,
    index_blocks: &mut IndexRegion,
    inum: usize,
    new_size: usize,
)
    requires
        old(index_bitmap_blocks)@.len() == INDEX_BITMAP_WORDS,
        old(data_bitmap_blocks)@.len() == DATA_BITMAP_WORDS,
        index_region_wf(*old(index_blocks)),
        inum < INODE_COUNT,
        new_size <= MAX_FILE_BLOCKS * ALIGN_SIZE,
        bm_bit(old(index_bitmap_blocks)@, 0),
        inode_blocks_ok(
            *old(index_blocks),
            old(index_bitmap_blocks)@,
            old(data_bitmap_blocks)@,
            inum as int,
        ),
        (new_size + 4095) / 4096 > old(index_blocks).inodes@[inum as int].block_count
            ==> count_clear(old(data_bitmap_blocks)@, DATA_BLOCK_COUNT as int) >= (new_size
                + 4095) / 4096 - old(index_blocks).inodes@[inum as int].block_count,
        ((new_size + 4095) / 4096 > DIRECT_BLOCK_COUNT
            && old(index_blocks).inodes@[inum as int].block_count <= DIRECT_BLOCK_COUNT)
            ==> exists|w: int| 0 <= w < INDEX_BLOCK_COUNT && old(index_bitmap_blocks)@[w] == 0u32,
    ensures
        final(index_bitmap_blocks)@.len() == INDEX_BITMAP_WORDS,
        final(data_bitmap_blocks)@.len() == DATA_BITMAP_WORDS,
        index_region_wf(*final(index_blocks)),
        forall|i: int|
            0 <= i < INODE_COUNT && i != inum
                ==> final(index_blocks).inodes@[i] == old(index_blocks).inodes@[i],
        inode_wf(
            *final(index_blocks),
            final(index_bitmap_blocks)@,
            final(data_bitmap_blocks)@,
            inum as int,
        ),
        final(index_blocks).inodes@[inum as int].size == new_size,
        final(index_blocks).inodes@[inum as int].block_count == spec_block_count_for(
            new_size as u32,
        ),
        same_inode_meta(
            final(index_blocks).inodes@[inum as int],
            old(index_blocks).inodes@[inum as int],
        ),
        forall|k: int|
            0 <= k < final(index_blocks).inodes@[inum as int].block_count
                && k < old(index_blocks).inodes@[inum as int].block_count
                ==> spec_dnum(*final(index_blocks), inum as int, k) == spec_dnum(
                    *old(index_blocks),
                    inum as int,
                    k,
                ),
        final(index_blocks).inodes@[inum as int].block_count
            >= old(index_blocks).inodes@[inum as int].block_count ==> forall|j: int|
            0 <= j < DATA_BITMAP_WORDS * 32 && bm_bit(old(data_bitmap_blocks)@, j)
                ==> bm_bit(final(data_bitmap_blocks)@, j),
        forall|j: int|
            0 <= j < DATA_BITMAP_WORDS * 32 && bm_bit(old(data_bitmap_blocks)@, j) && !(
            exists|k: int|
                0 <= k < old(index_blocks).inodes@[inum as int].block_count && (
                #[trigger] spec_dnum(*old(index_blocks), inum as int, k)) == j) ==> bm_bit(
                final(data_bitmap_blocks)@,
                j,
            ),
        forall|w: int|
            0 <= w < INDEX_BITMAP_WORDS && old(index_bitmap_blocks)@[w] != 0u32 && !(old(
                index_blocks,
            ).inodes@[inum as int].block_count > DIRECT_BLOCK_COUNT && w == old(
                index_blocks,
            ).inodes@[inum as int].block_indirect as int / 32)
                ==> final(index_bitmap_blocks)@[w] == old(index_bitmap_blocks)@[w],
        count_clear(final(data_bitmap_blocks)@, DATA_BLOCK_COUNT as int) == count_clear(
            old(data_bitmap_blocks)@,
            DATA_BLOCK_COUNT as int,
        ) - (final(index_blocks).inodes@[inum as int].block_count
            - old(index_blocks).inodes@[inum as int].block_count),
        forall|k: int|
            old(index_blocks).inodes@[inum as int].block_count <= k
                < final(index_blocks).inodes@[inum as int].block_count ==> !bm_bit(
                old(data_bitmap_blocks)@,
                (#[trigger] spec_dnum(*final(index_blocks), inum as int, k)) as int,
            ) && bm_bit(
                final(data_bitmap_blocks)@,
                spec_dnum(*final(index_blocks), inum as int, k) as int,
            ),
        final(index_blocks).inodes@[inum as int].block_count >= old(
            index_blocks,
        ).inodes@[inum as int].block_count ==> crate::grow::dbm_extended(
            *final(index_blocks),
            final(data_bitmap_blocks)@,
            old(data_bitmap_blocks)@,
            inum as int,
            old(index_blocks).inodes@[inum as int].block_count as int,
            final(index_blocks).inodes@[inum as int].block_count as int,
        ),
        final(index_blocks).inodes@[inum as int].block_count >= old(
            index_blocks,
        ).inodes@[inum as int].block_count ==> crate::grow::dbm_first_fit(
            *final(index_blocks),
            old(data_bitmap_blocks)@,
            inum as int,
            old(index_blocks).inodes@[inum as int].block_count as int,
            final(index_blocks).inodes@[inum as int].block_count as int,
        ),
        (final(index_blocks).inodes@[inum as int].block_count > DIRECT_BLOCK_COUNT && old(
            index_blocks,
        ).inodes@[inum as int].block_count <= DIRECT_BLOCK_COUNT) ==> {
            let w0 = final(index_blocks).inodes@[inum as int].block_indirect as int / 32;
            &&& old(index_bitmap_blocks)@[w0] == 0u32
            &&& final(index_bitmap_blocks)@[w0] == 0xffff_ffffu32
            &&& (forall|w: int| 0 <= w < w0 ==> old(index_bitmap_blocks)@[w] != 0u32)
            &&& forall|w: int|
                0 <= w < INDEX_BITMAP_WORDS && w != w0 ==> final(index_bitmap_blocks)@[w]
                    == old(index_bitmap_blocks)@[w]
        },
        (spec_block_count_for(new_size as u32) <= DIRECT_BLOCK_COUNT && spec_block_count_for(
            new_size as u32,
        ) >= old(index_blocks).inodes@[inum as int].block_count)
            ==> final(index_bitmap_blocks)@ == old(index_bitmap_blocks)@,
        (final(index_blocks).inodes@[inum as int].block_count >= old(
            index_blocks,
        ).inodes@[inum as int].block_count && old(index_blocks).inodes@[inum as int].block_count
            > DIRECT_BLOCK_COUNT) ==> final(index_bitmap_blocks)@ == old(index_bitmap_blocks)@,
        final(index_blocks).inodes@[inum as int].block_count <= old(
            index_blocks,
        ).inodes@[inum as int].block_count ==> forall|j: int|
            0 <= j < DATA_BITMAP_WORDS * 32 && !bm_bit(old(data_bitmap_blocks)@, j) ==> !bm_bit(
                final(data_bitmap_blocks)@,
                j,
            ),
        (final(index_blocks).inodes@[inum as int].block_count <= DIRECT_BLOCK_COUNT && old(
            index_blocks,
        ).inodes@[inum as int].block_count > DIRECT_BLOCK_COUNT)
            ==> final(index_bitmap_blocks)@ == old(index_bitmap_blocks)@.update(
                old(index_blocks).inodes@[inum as int].block_indirect as int / 32,
                0u32,
            ),
        (final(index_blocks).inodes@[inum as int].block_count > DIRECT_BLOCK_COUNT || old(
            index_blocks,
        ).inodes@[inum as int].block_count <= DIRECT_BLOCK_COUNT)
            && final(index_blocks).inodes@[inum as int].block_count <= old(
            index_blocks,
        ).inodes@[inum as int].block_count ==> final(index_bitmap_blocks)@ == old(
            index_bitmap_blocks,
        )@,
        forall|w: int|
            0 <= w < INDEX_BLOCK_COUNT * INDIRECT_CAPACITY && !(
            final(index_blocks).inodes@[inum as int].block_count > DIRECT_BLOCK_COUNT && w / (
            INDIRECT_CAPACITY as int) == final(index_blocks).inodes@[inum as int].block_indirect
                as int / 32) && !(old(index_blocks).inodes@[inum as int].block_count
                > DIRECT_BLOCK_COUNT && w / (INDIRECT_CAPACITY as int) == old(
                index_blocks,
            ).inodes@[inum as int].block_indirect as int / 32)
                ==> final(index_blocks).indirect@[w] == old(index_blocks).indirect@[w],
{
    proof {
        crate::bitmap::lemma_word_bit_nonzero(
            old(index_bitmap_blocks)@[0int],
            0u32,
        );
    }
    let new_block_count = (new_size + 4095) / 4096;
    resize_data_block_of_inode(
        index_bitmap_blocks,
        data_bitmap_blocks,
        index_blocks,
        inum,
        new_block_count,
    );
    let ghost mid_ib = *index_blocks;
    let mut ino = get_inode(index_blocks, inum);
    ino.size = new_size as u32;
    set_inode(index_blocks, inum, ino);
    proof {
        assert forall|k: int| 0 <= k < ino.block_count implies #[trigger] spec_dnum(
            *index_blocks,
            inum as int,
            k,
        ) == spec_dnum(mid_ib, inum as int, k) by {}
        let obc = old(index_blocks).inodes@[inum as int].block_count as int;
        let nbc = ino.block_count as int;
        if nbc >= obc {
            assert forall|j: int| 0 <= j < DATA_BITMAP_WORDS * 32 implies bm_bit(
                data_bitmap_blocks@,
                j,
            ) == (bm_bit(old(data_bitmap_blocks)@, j) || exists|k: int|
                obc <= k < nbc && (#[trigger] spec_dnum(*index_blocks, inum as int, k))
                    == j) by {
                if bm_bit(data_bitmap_blocks@, j) && !bm_bit(old(data_bitmap_blocks)@, j) {
                    let k = choose|k: int|
                        obc <= k < nbc && (#[trigger] spec_dnum(mid_ib, inum as int, k)) == j;
                    assert(spec_dnum(*index_blocks, inum as int, k) == j);
                }
                if exists|k: int|
                    obc <= k < nbc && (#[trigger] spec_dnum(*index_blocks, inum as int, k))
                        == j {
                    let k = choose|k: int|
                        obc <= k < nbc && (#[trigger] spec_dnum(*index_blocks, inum as int, k))
                            == j;
                    assert(spec_dnum(mid_ib, inum as int, k) == j);
                }
            }
            assert forall|k: int, j: int|
                #![trigger spec_dnum(*index_blocks, inum as int, k), bm_bit(old(data_bitmap_blocks)@, j)]
                obc <= k < nbc && 0 <= j < spec_dnum(*index_blocks, inum as int, k) && !bm_bit(
                    old(data_bitmap_blocks)@,
                    j,
                ) implies exists|k2: int|
                obc <= k2 < k && #[trigger] spec_dnum(*index_blocks, inum as int, k2) == j by {
                assert(spec_dnum(mid_ib, inum as int, k) == spec_dnum(
                    *index_blocks,
                    inum as int,
                    k,
                ));
                let k2 = choose|k2: int|
                    obc <= k2 < k && #[trigger] spec_dnum(mid_ib, inum as int, k2) == j;
                assert(spec_dnum(*index_blocks, inum as int, k2) == j);
            }
        }
    }
}

/// Data-block number of logical block `index` of inode `inum`, growing the
/// file first if it does not reach that block yet.
pub fn get_or_extend_dnum(
    index_bitmap_blocks: &mut Vec<u32>,
    data_bitmap_blocks: &mut Vec<u32>,
    index_blocks: &mut IndexRegion,
    inum: usize,
    index: usize,
) -> (r: u32)
    requires
        old(index_bitmap_blocks)@.len() == INDEX_BITMAP_WORDS,
        old(data_bitmap_blocks)@.len() == DATA_BITMAP_WORDS,
        index_region_wf(*old(index_blocks)),
        inum < INODE_COUNT,
        index < MAX_FILE_BLOCKS,
        bm_bit(old(index_bitmap_blocks)@, 0),
        inode_blocks_ok(
            *old(index_blocks),
            old(index_bitmap_blocks)@,
            old(data_bitmap_blocks)@,
            inum as int,
        ),
        index + 1 > old(index_blocks).inodes@[inum as int].block_count ==> count_clear(
            old(data_bitmap_blocks)@,
            DATA_BLOCK_COUNT as int,
        ) >= index + 1 - old(index_blocks).inodes@[inum as int].block_count,
        (index + 1 > DIRECT_BLOCK_COUNT
            && old(index_blocks).inodes@[inum as int].block_count <= DIRECT_BLOCK_COUNT)
            ==> exists|w: int| 0 <= w < INDEX_BLOCK_COUNT && old(index_bitmap_blocks)@[w] == 0u32,
    ensures
        final(index_bitmap_blocks)@.len() == INDEX_BITMAP_WORDS,
        final(data_bitmap_blocks)@.len() == DATA_BITMAP_WORDS,
        index_region_wf(*final(index_blocks)),
        inode_blocks_ok(
            *final(index_blocks),
            final(index_bitmap_blocks)@,
            final(data_bitmap_blocks)@,
            inum as int,
        ),
        final(index_blocks).inodes@[inum as int].block_count >= index + 1,
        r == spec_dnum(*final(index_blocks), inum as int, index as int),
        forall|i: int|
            0 <= i < INODE_COUNT && i != inum
                ==> final(index_blocks).inodes@[i] == old(index_blocks).inodes@[i],
        forall|k: int|
            0 <= k < old(index_blocks).inodes@[inum as int].block_count
                && k < final(index_blocks).inodes@[inum as int].block_count
                ==> spec_dnum(*final(index_blocks), inum as int, k) == spec_dnum(
                    *old(index_blocks),
                    inum as int,
                    k,
                ),
        final(index_blocks).inodes@[inum as int].block_count == if index + 1
            > old(index_blocks).inodes@[inum as int].block_count {
            (index + 1) as int
        } else {
            old(index_blocks).inodes@[inum as int].block_count as int
        },
        same_inode_meta(
            final(index_blocks).inodes@[inum as int],
            old(index_blocks).inodes@[inum as int],
        ),
        final(index_blocks).inodes@[inum as int].size
            == old(index_blocks).inodes@[inum as int].size,
{
    extend_data_block_of_inode(
        index_bitmap_blocks,
        data_bitmap_blocks,
        index_blocks,
        inum,
        index + 1,
    );
    get_dnum(index_blocks, inum, index)
}

} // verus!
