//! Growing an inode's block list.
//!
//! Growth fills the direct slots first; past twelve blocks it reserves one
//! index block as a single-indirect table by setting that block's whole
//! inode-bitmap word, and fills the table.  Allocation is first-fit and the
//! caller must have ensured the space; running out mid-way is out of
//! contract.

use vstd::prelude::*;
use vstd::array::ArrayAdditionalExecFns;
use crate::repr::{
    IndexRegion, index_region_wf, DATA_BITMAP_WORDS, DATA_BLOCK_COUNT, DIRECT_BLOCK_COUNT,
    INDEX_BITMAP_WORDS, INDEX_BLOCK_COUNT, INDIRECT_CAPACITY, INODE_COUNT, MAX_FILE_BLOCKS,
};
use crate::bitmap::{
    bm_bit, count_clear, get_free_block, get_free_item, lemma_count_clear_pos,
    lemma_count_clear_set, lemma_word_bit_nonzero, set_block_state, set_state,
};
use crate::inode::{
    get_inode, inode_blocks_ok, same_inode_meta, set_indirect_dnum, set_inode, spec_dnum,
};

verus! {

/// The data bitmap `dbm` holds exactly the bits of `olddbm` plus the
/// blocks of inode `inum` of `ib` with logical indices in `[from, to)`.
pub open spec fn dbm_extended(
    ib: IndexRegion,
    dbm: Seq<u32>,
    olddbm: Seq<u32>,
    inum: int,
    from: int,
    to: int,
) -> bool {
    forall|j: int|
        0 <= j < DATA_BITMAP_WORDS * 32
            ==> bm_bit(dbm, j) == (bm_bit(olddbm, j) || exists|k: int|
                from <= k < to && (#[trigger] spec_dnum(ib, inum, k)) == j)
}

/// The blocks of inode `inum` with logical indices in `[from, to)` are
/// the first free blocks of `olddbm`, taken in increasing order: below
/// any of them, every block free in `olddbm` was taken by an earlier
/// index of the same run.
pub open spec fn dbm_first_fit(
    ib: IndexRegion,
    olddbm: Seq<u32>,
    inum: int,
    from: int,
    to: int,
) -> bool {
    forall|k: int, j: int|
        from <= k < to && 0 <= j < #[trigger] spec_dnum(ib, inum, k) && !(#[trigger] bm_bit(
            olddbm,
            j,
        )) ==> exists|k2: int| from <= k2 < k && #[trigger] spec_dnum(ib, inum, k2) == j
}

/// Grow inode `inum` to back `count` blocks; a no-op if it already backs
/// that many.  Newly allocated blocks are the first free ones of the data
/// bitmap, taken in order; crossing the direct capacity reserves the first
/// free inode-bitmap word as the indirect table.
pub fn extend_data_block_of_inode(
    index_bitmap_blocks: &mut Vec<u32>,
    data_bitmap_blocks: &mut Vec<u32>,
    index_blocks: &mut IndexRegion,
    inum: usize,
    count: usize,
)
    requires
        old(index_bitmap_blocks)@.len() == INDEX_BITMAP_WORDS,
        old(data_bitmap_blocks)@.len() == DATA_BITMAP_WORDS,
        index_region_wf(*old(index_blocks)),
        inum < INODE_COUNT,
        count <= MAX_FILE_BLOCKS,
        bm_bit(old(index_bitmap_blocks)@, 0),
        inode_blocks_ok(
            *old(index_blocks),
            old(index_bitmap_blocks)@,
            old(data_bitmap_blocks)@,
            inum as int,
        ),
        count > old(index_blocks).inodes@[inum as int].block_count ==> count_clear(
            old(data_bitmap_blocks)@,
            DATA_BLOCK_COUNT as int,
        ) >= count - old(index_blocks).inodes@[inum as int].block_count,
        (count > DIRECT_BLOCK_COUNT
            && old(index_blocks).inodes@[inum as int].block_count <= DIRECT_BLOCK_COUNT)
            ==> exists|w: int| 0 <= w < INDEX_BLOCK_COUNT && old(index_bitmap_blocks)@[w] == 0u32,
    ensures
        final(index_bitmap_blocks)@.len() == INDEX_BITMAP_WORDS,
        final(data_bitmap_blocks)@.len() == DATA_BITMAP_WORDS,
        index_region_wf(*final(index_blocks)),
        forall|i: int|
            0 <= i < INODE_COUNT && i != inum
                ==> final(index_blocks).inodes@[i] == old(index_blocks).inodes@[i],
        inode_blocks_ok(
            *final(index_blocks),
            final(index_bitmap_blocks)@,
            final(data_bitmap_blocks)@,
            inum as int,
        ),
        count <= old(index_blocks).inodes@[inum as int].block_count ==> {
            &&& final(index_bitmap_blocks)@ == old(index_bitmap_blocks)@
            &&& final(data_bitmap_blocks)@ == old(data_bitmap_blocks)@
            &&& final(index_blocks).inodes@ == old(index_blocks).inodes@
            &&& final(index_blocks).indirect@ == old(index_blocks).indirect@
        },
        count > old(index_blocks).inodes@[inum as int].block_count ==> {
            let oldino = old(index_blocks).inodes@[inum as int];
            let newino = final(index_blocks).inodes@[inum as int];
            &&& same_inode_meta(newino, oldino)
            &&& newino.size == oldino.size
            &&& newino.block_count == count
            &&& forall|k: int|
                0 <= k < oldino.block_count
                    ==> spec_dnum(*final(index_blocks), inum as int, k) == spec_dnum(
                        *old(index_blocks),
                        inum as int,
                        k,
                    )
            &&& forall|k: int|
                oldino.block_count <= k < count
                    ==> !bm_bit(
                        old(data_bitmap_blocks)@,
                        spec_dnum(*final(index_blocks), inum as int, k) as int,
                    )
            &&& dbm_extended(
                *final(index_blocks),
                final(data_bitmap_blocks)@,
                old(data_bitmap_blocks)@,
                inum as int,
                oldino.block_count as int,
                count as int,
            )
            &&& dbm_first_fit(
                *final(index_blocks),
                old(data_bitmap_blocks)@,
                inum as int,
                oldino.block_count as int,
                count as int,
            )
            &&& count_clear(final(data_bitmap_blocks)@, DATA_BLOCK_COUNT as int) == count_clear(
                old(data_bitmap_blocks)@,
                DATA_BLOCK_COUNT as int,
            ) - (count - oldino.block_count)
            &&& (count <= DIRECT_BLOCK_COUNT ==> {
                &&& final(index_bitmap_blocks)@ == old(index_bitmap_blocks)@
                &&& newino.block_indirect == oldino.block_indirect
                &&& final(index_blocks).indirect@ == old(index_blocks).indirect@
            })
            &&& (count > DIRECT_BLOCK_COUNT && oldino.block_count > DIRECT_BLOCK_COUNT ==> {
                &&& final(index_bitmap_blocks)@ == old(index_bitmap_blocks)@
                &&& newino.block_indirect == oldino.block_indirect
            })
            &&& (count > DIRECT_BLOCK_COUNT && oldino.block_count <= DIRECT_BLOCK_COUNT ==> {
                &&& old(index_bitmap_blocks)@[newino.block_indirect as int / 32] == 0u32
                &&& final(index_bitmap_blocks)@[newino.block_indirect as int / 32]
                    == 0xffff_ffffu32
                &&& forall|w: int|
                    0 <= w < INDEX_BITMAP_WORDS && w != newino.block_indirect as int / 32
                        ==> final(index_bitmap_blocks)@[w] == old(index_bitmap_blocks)@[w]
                &&& forall|w: int|
                    0 <= w < newino.block_indirect as int / 32
                        ==> old(index_bitmap_blocks)@[w] != 0u32
            })
            &&& (count > DIRECT_BLOCK_COUNT ==> forall|w: int|
                0 <= w < INDEX_BLOCK_COUNT * INDIRECT_CAPACITY
                    && w / (INDIRECT_CAPACITY as int) != newino.block_indirect as int / 32
                    ==> final(index_blocks).indirect@[w] == old(index_blocks).indirect@[w])
        },
{
    let mut ino = get_inode(index_blocks, inum);
    if ino.block_count as usize >= count {
        return ;
    }
    let ghost oldibm = index_bitmap_blocks@;
    let ghost olddbm = data_bitmap_blocks@;
    let ghost oldib = *index_blocks;
    let ghost oldino = ino;

    // Fill direct slots up to min(count, 12).
    let direct_goal = if count < DIRECT_BLOCK_COUNT {
        count
    } else {
        DIRECT_BLOCK_COUNT
    };
    while (ino.block_count as usize) < direct_goal
        invariant
            index_bitmap_blocks@ == oldibm,
            data_bitmap_blocks@.len() == DATA_BITMAP_WORDS,
            olddbm.len() == DATA_BITMAP_WORDS,
            index_region_wf(*index_blocks),
            index_region_wf(oldib),
            oldibm.len() == INDEX_BITMAP_WORDS,
            inum < INODE_COUNT,
            direct_goal <= DIRECT_BLOCK_COUNT,
            direct_goal <= count <= MAX_FILE_BLOCKS,
            oldino == oldib.inodes@[inum as int],
            oldino.block_count <= ino.block_count,
            ino.block_count <= direct_goal || ino.block_count == oldino.block_count,
            ino == index_blocks.inodes@[inum as int],
            same_inode_meta(ino, oldino),
            ino.size == oldino.size,
            ino.block_indirect == oldino.block_indirect,
            forall|i: int|
                0 <= i < INODE_COUNT && i != inum
                    ==> index_blocks.inodes@[i] == oldib.inodes@[i],
            index_blocks.indirect@ == oldib.indirect@,
            inode_blocks_ok(*index_blocks, index_bitmap_blocks@, data_bitmap_blocks@, inum as int),
            forall|k: int|
                0 <= k < oldino.block_count
                    ==> spec_dnum(*index_blocks, inum as int, k) == spec_dnum(oldib, inum as int, k),
            forall|k: int|
                oldino.block_count <= k < ino.block_count
                    ==> !bm_bit(olddbm, spec_dnum(*index_blocks, inum as int, k) as int),
            dbm_extended(
                *index_blocks,
                data_bitmap_blocks@,
                olddbm,
                inum as int,
                oldino.block_count as int,
                ino.block_count as int,
            ),
            count_clear(data_bitmap_blocks@, DATA_BLOCK_COUNT as int) == count_clear(
                olddbm,
                DATA_BLOCK_COUNT as int,
            ) - (ino.block_count - oldino.block_count),
            count_clear(olddbm, DATA_BLOCK_COUNT as int) >= count - oldino.block_count,
            dbm_first_fit(
                *index_blocks,
                olddbm,
                inum as int,
                oldino.block_count as int,
                ino.block_count as int,
            ),
        decreases direct_goal - ino.block_count,
    {
        proof {
            lemma_count_clear_pos(data_bitmap_blocks@, DATA_BLOCK_COUNT as int);
        }
        let dnum = match get_free_item(data_bitmap_blocks, 0..DATA_BLOCK_COUNT) {
            Some(d) => d,
            None => {
                proof {
                    assert(false);
                }
                vstd::pervasive::unreached()
            },
        };
        let ghost prev_dbm = data_bitmap_blocks@;
        let ghost prev_ib = *index_blocks;
        set_state(data_bitmap_blocks, dnum, true);
        proof {
            lemma_count_clear_set(
                prev_dbm,
                data_bitmap_blocks@,
                dnum as int,
                DATA_BLOCK_COUNT as int,
            );
        }
        let bc = ino.block_count as usize;
        ino.block_direct.set(bc, dnum as u32);
        ino.block_count = ino.block_count + 1;
        set_inode(index_blocks, inum, ino);
        proof {
            assert forall|k: int| 0 <= k < ino.block_count implies #[trigger] spec_dnum(
                *index_blocks,
                inum as int,
                k,
            ) == if k == bc { dnum as u32 } else { spec_dnum(prev_ib, inum as int, k) } by {}
            assert forall|j: int| 0 <= j < DATA_BITMAP_WORDS * 32 implies bm_bit(
                data_bitmap_blocks@,
                j,
            ) == (bm_bit(olddbm, j) || exists|k: int|
                oldino.block_count <= k < ino.block_count && (#[trigger] spec_dnum(
                    *index_blocks,
                    inum as int,
                    k,
                )) == j) by {
                if bm_bit(data_bitmap_blocks@, j) {
                    if j == dnum {
                        assert(spec_dnum(*index_blocks, inum as int, bc as int) == j);
                    } else if !bm_bit(olddbm, j) {
                        let k = choose|k: int|
                            oldino.block_count <= k < bc && (#[trigger] spec_dnum(
                                prev_ib,
                                inum as int,
                                k,
                            )) == j;
                        assert(spec_dnum(*index_blocks, inum as int, k) == j);
                    }
                } else {
                    assert(!bm_bit(prev_dbm, j));
                    assert(!bm_bit(olddbm, j));
                    assert forall|k: int|
                        oldino.block_count <= k < ino.block_count implies (#[trigger] spec_dnum(
                        *index_blocks,
                        inum as int,
                        k,
                    )) != j by {
                        if k < bc {
                            if spec_dnum(prev_ib, inum as int, k) == j {
                                assert(bm_bit(prev_dbm, j));
                            }
                        } else {
                            assert(spec_dnum(*index_blocks, inum as int, k) == dnum as u32);
                            assert(bm_bit(data_bitmap_blocks@, dnum as int));
                        }
                    }
                }
            }
        }
        proof {
            assert forall|k: int, j: int|
                #![trigger spec_dnum(*index_blocks, inum as int, k), bm_bit(olddbm, j)]
                oldino.block_count <= k < ino.block_count && 0 <= j < spec_dnum(
                    *index_blocks,
                    inum as int,
                    k,
                ) && !bm_bit(olddbm, j) implies exists|k2: int|
                oldino.block_count <= k2 < k && #[trigger] spec_dnum(*index_blocks, inum as int, k2)
                    == j by {
                if k < bc {
                    assert(spec_dnum(prev_ib, inum as int, k) == spec_dnum(
                        *index_blocks,
                        inum as int,
                        k,
                    ));
                    let k2 = choose|k2: int|
                        oldino.block_count <= k2 < k && #[trigger] spec_dnum(prev_ib, inum as int, k2)
                            == j;
                    assert(spec_dnum(*index_blocks, inum as int, k2) == j);
                } else {
                    assert(bm_bit(prev_dbm, j));
                    let k2 = choose|k2: int|
                        oldino.block_count <= k2 < bc && #[trigger] spec_dnum(prev_ib, inum as int, k2)
                            == j;
                    assert(spec_dnum(*index_blocks, inum as int, k2) == j);
                }
            }
        }
    }

    if count > DIRECT_BLOCK_COUNT {
        // Reserve an index block as the single-indirect table if the file
        // has none yet: one whole inode-bitmap word, set at once.
        if ino.block_indirect == 0 {
            let block_id = match get_free_block(index_bitmap_blocks, 0..INDEX_BLOCK_COUNT) {
                Some(b) => b,
                None => {
                    proof {
                        assert(false);
                    }
                    vstd::pervasive::unreached()
                },
            };
            proof {
                lemma_word_bit_nonzero(
                    index_bitmap_blocks@[inum as int / 32],
                    (inum % 32) as u32,
                );
                assert(block_id != inum as int / 32);
                lemma_word_bit_nonzero(index_bitmap_blocks@[0int], 0u32);
                assert(block_id >= 1);
            }
            let ghost resv_ib = *index_blocks;
            set_block_state(index_bitmap_blocks, block_id, true);
            ino.block_indirect = (block_id * 32) as u32;
            set_inode(index_blocks, inum, ino);
            proof {
                assert(ino.block_count == DIRECT_BLOCK_COUNT);
                assert forall|k: int| 0 <= k < DIRECT_BLOCK_COUNT implies #[trigger] spec_dnum(
                    *index_blocks,
                    inum as int,
                    k,
                ) == spec_dnum(resv_ib, inum as int, k) by {}
                assert forall|j: int| 0 <= j < DATA_BITMAP_WORDS * 32 implies bm_bit(
                    data_bitmap_blocks@,
                    j,
                ) == (bm_bit(olddbm, j) || exists|k: int|
                    oldino.block_count <= k < ino.block_count && (#[trigger] spec_dnum(
                        *index_blocks,
                        inum as int,
                        k,
                    )) == j) by {
                    if bm_bit(data_bitmap_blocks@, j) && !bm_bit(olddbm, j) {
                        let k = choose|k: int|
                            oldino.block_count <= k < ino.block_count && (#[trigger] spec_dnum(
                                resv_ib,
                                inum as int,
                                k,
                            )) == j;
                        assert(spec_dnum(*index_blocks, inum as int, k) == j);
                    }
                    if exists|k: int|
                        oldino.block_count <= k < ino.block_count && (#[trigger] spec_dnum(
                            *index_blocks,
                            inum as int,
                            k,
                        )) == j {
                        let k = choose|k: int|
                            oldino.block_count <= k < ino.block_count && (#[trigger] spec_dnum(
                                *index_blocks,
                                inum as int,
                                k,
                            )) == j;
                        assert(spec_dnum(resv_ib, inum as int, k) == j);
                    }
                }
                assert forall|k: int, j: int|
                    #![trigger spec_dnum(*index_blocks, inum as int, k), bm_bit(olddbm, j)]
                    oldino.block_count <= k < ino.block_count && 0 <= j < spec_dnum(
                        *index_blocks,
                        inum as int,
                        k,
                    ) && !bm_bit(olddbm, j) implies exists|k2: int|
                    oldino.block_count <= k2 < k && #[trigger] spec_dnum(*index_blocks, inum as int, k2)
                        == j by {
                    assert(spec_dnum(resv_ib, inum as int, k) == spec_dnum(*index_blocks, inum as int, k));
                    let k2 = choose|k2: int|
                        oldino.block_count <= k2 < k && #[trigger] spec_dnum(resv_ib, inum as int, k2) == j;
                    assert(spec_dnum(*index_blocks, inum as int, k2) == j);
                }
            }
        }

        // Fill the indirect table.
        while (ino.block_count as usize) < count
            invariant
                index_bitmap_blocks@.len() == INDEX_BITMAP_WORDS,
                oldibm.len() == INDEX_BITMAP_WORDS,
                data_bitmap_blocks@.len() == DATA_BITMAP_WORDS,
                olddbm.len() == DATA_BITMAP_WORDS,
                index_region_wf(*index_blocks),
                index_region_wf(oldib),
                inum < INODE_COUNT,
                DIRECT_BLOCK_COUNT < count <= MAX_FILE_BLOCKS,
                ino.block_count <= count,
                oldino.block_count <= ino.block_count,
                DIRECT_BLOCK_COUNT <= ino.block_count,
                oldino == oldib.inodes@[inum as int],
                ino == index_blocks.inodes@[inum as int],
                same_inode_meta(ino, oldino),
                ino.size == oldino.size,
                forall|i: int|
                    0 <= i < INODE_COUNT && i != inum
                        ==> index_blocks.inodes@[i] == oldib.inodes@[i],
                forall|w: int|
                    0 <= w < INDEX_BLOCK_COUNT * INDIRECT_CAPACITY
                        && w / (INDIRECT_CAPACITY as int) != ino.block_indirect as int / 32
                        ==> index_blocks.indirect@[w] == oldib.indirect@[w],
                (oldino.block_count > DIRECT_BLOCK_COUNT ==> index_bitmap_blocks@ == oldibm
                    && ino.block_indirect == oldino.block_indirect),
                (oldino.block_count <= DIRECT_BLOCK_COUNT ==> {
                    &&& oldibm[ino.block_indirect as int / 32] == 0u32
                    &&& forall|w: int|
                        0 <= w < INDEX_BITMAP_WORDS && w != ino.block_indirect as int / 32
                            ==> index_bitmap_blocks@[w] == oldibm[w]
                    &&& forall|w: int|
                        0 <= w < ino.block_indirect as int / 32 ==> oldibm[w] != 0u32
                }),
                bm_bit(index_bitmap_blocks@, inum as int),
                forall|k: int|
                    0 <= k < ino.block_count ==> (#[trigger] spec_dnum(
                        *index_blocks,
                        inum as int,
                        k,
                    )) < DATA_BLOCK_COUNT,
                forall|k: int|
                    0 <= k < ino.block_count ==> bm_bit(
                        data_bitmap_blocks@,
                        (#[trigger] spec_dnum(*index_blocks, inum as int, k)) as int,
                    ),
                forall|k1: int, k2: int|
                    0 <= k1 < k2 < ino.block_count
                        ==> spec_dnum(*index_blocks, inum as int, k1) != spec_dnum(
                            *index_blocks,
                            inum as int,
                            k2,
                        ),
                ino.block_indirect % 32 == 0,
                32 <= ino.block_indirect,
                ino.block_indirect as int / 32 < INDEX_BLOCK_COUNT,
                index_bitmap_blocks@[ino.block_indirect as int / 32] == 0xffff_ffffu32,
                ino.block_indirect as int / 32 != inum as int / 32,
                forall|k: int|
                    0 <= k < oldino.block_count
                        ==> spec_dnum(*index_blocks, inum as int, k) == spec_dnum(
                            oldib,
                            inum as int,
                            k,
                        ),
                forall|k: int|
                    oldino.block_count <= k < ino.block_count
                        ==> !bm_bit(olddbm, spec_dnum(*index_blocks, inum as int, k) as int),
                dbm_extended(
                    *index_blocks,
                    data_bitmap_blocks@,
                    olddbm,
                    inum as int,
                    oldino.block_count as int,
                    ino.block_count as int,
                ),
                dbm_first_fit(
                    *index_blocks,
                    olddbm,
                    inum as int,
                    oldino.block_count as int,
                    ino.block_count as int,
                ),
                count_clear(data_bitmap_blocks@, DATA_BLOCK_COUNT as int) == count_clear(
                    olddbm,
                    DATA_BLOCK_COUNT as int,
                ) - (ino.block_count - oldino.block_count),
                count_clear(olddbm, DATA_BLOCK_COUNT as int) >= count - oldino.block_count,
            decreases count - ino.block_count,
        {
            proof {
                lemma_count_clear_pos(data_bitmap_blocks@, DATA_BLOCK_COUNT as int);
            }
            let dnum = match get_free_item(data_bitmap_blocks, 0..DATA_BLOCK_COUNT) {
                Some(d) => d,
                None => {
                    proof {
                        assert(false);
                    }
                    vstd::pervasive::unreached()
                },
            };
            let ghost prev_dbm = data_bitmap_blocks@;
            let ghost prev_ib = *index_blocks;
            set_state(data_bitmap_blocks, dnum, true);
            proof {
                lemma_count_clear_set(
                    prev_dbm,
                    data_bitmap_blocks@,
                    dnum as int,
                    DATA_BLOCK_COUNT as int,
                );
            }
            let bc = ino.block_count as usize;
            set_indirect_dnum(
                index_blocks,
                ino.block_indirect as usize,
                bc - DIRECT_BLOCK_COUNT,
                dnum as u32,
            );
            ino.block_count = ino.block_count + 1;
            set_inode(index_blocks, inum, ino);
            proof {
                assert forall|k: int| 0 <= k < ino.block_count implies #[trigger] spec_dnum(
                    *index_blocks,
                    inum as int,
                    k,
                ) == if k == bc { dnum as u32 } else { spec_dnum(prev_ib, inum as int, k) } by {}
                assert forall|j: int| 0 <= j < DATA_BITMAP_WORDS * 32 implies bm_bit(
                    data_bitmap_blocks@,
                    j,
                ) == (bm_bit(olddbm, j) || exists|k: int|
                    oldino.block_count <= k < ino.block_count && (#[trigger] spec_dnum(
                        *index_blocks,
                        inum as int,
                        k,
                    )) == j) by {
                    if bm_bit(data_bitmap_blocks@, j) {
                        if j == dnum {
                            assert(spec_dnum(*index_blocks, inum as int, bc as int) == j);
                        } else if !bm_bit(olddbm, j) {
                            let k = choose|k: int|
                                oldino.block_count <= k < bc && (#[trigger] spec_dnum(
                                    prev_ib,
                                    inum as int,
                                    k,
                                )) == j;
                            assert(spec_dnum(*index_blocks, inum as int, k) == j);
                        }
                    } else {
                        assert(!bm_bit(prev_dbm, j));
                        assert(!bm_bit(olddbm, j));
                        assert forall|k: int|
                            oldino.block_count <= k < ino.block_count implies (
                        #[trigger] spec_dnum(*index_blocks, inum as int, k)) != j by {
                            if k < bc {
                                if spec_dnum(prev_ib, inum as int, k) == j {
                                    assert(bm_bit(prev_dbm, j));
                                }
                            } else {
                                assert(spec_dnum(*index_blocks, inum as int, k) == dnum as u32);
                                assert(bm_bit(data_bitmap_blocks@, dnum as int));
                            }
                        }
                    }
                }
            }
            proof {
                assert forall|k: int, j: int|
                    #![trigger spec_dnum(*index_blocks, inum as int, k), bm_bit(olddbm, j)]
                    oldino.block_count <= k < ino.block_count && 0 <= j < spec_dnum(
                        *index_blocks,
                        inum as int,
                        k,
                    ) && !bm_bit(olddbm, j) implies exists|k2: int|
                    oldino.block_count <= k2 < k && #[trigger] spec_dnum(*index_blocks, inum as int, k2)
                        == j by {
                    if k < bc {
                        assert(spec_dnum(prev_ib, inum as int, k) == spec_dnum(
                            *index_blocks,
                            inum as int,
                            k,
                        ));
                        let k2 = choose|k2: int|
                            oldino.block_count <= k2 < k && #[trigger] spec_dnum(prev_ib, inum as int, k2)
                                == j;
                        assert(spec_dnum(*index_blocks, inum as int, k2) == j);
                    } else {
                        assert(bm_bit(prev_dbm, j));
                        let k2 = choose|k2: int|
                            oldino.block_count <= k2 < bc && #[trigger] spec_dnum(prev_ib, inum as int, k2)
                                == j;
                        assert(spec_dnum(*index_blocks, inum as int, k2) == j);
                    }
                }
            }
        }
    }
}

} // verus!
