//! The byte read/write engine: translating a byte position into block
//! copies over the indexing engine, with automatic resize on write.

use vstd::prelude::*;
use crate::repr::{
    IndexRegion, index_region_wf, spec_block_count_for, ALIGN_SIZE, DATA_BITMAP_WORDS,
    DATA_BLOCK_COUNT, DIRECT_BLOCK_COUNT, INDEX_BITMAP_WORDS, INDEX_BLOCK_COUNT, INODE_COUNT,
    MAX_FILE_BLOCKS,
};
use crate::bitmap::{bm_bit, count_clear};
use crate::inode::{
    get_inode, get_size_of_data_block, inode_shape_ok, inode_wf, same_inode_meta, spec_dnum,
    transform_pos,
};
use crate::shrink::resize;

verus! {

/// An inode whose block list can be read through: sound shape, the count
/// matching the size, and every backing block number in range.
pub open spec fn inode_readable(ib: IndexRegion, inum: int) -> bool {
    let ino = ib.inodes@[inum];
    &&& inode_shape_ok(ino)
    &&& ino.block_count == spec_block_count_for(ino.size)
    &&& forall|k: int|
        0 <= k < ino.block_count ==> (#[trigger] spec_dnum(ib, inum, k)) < DATA_BLOCK_COUNT
}

/// An inode whose block list can also be written through: readable, and no
/// data block listed twice, so a write to one logical block cannot land in
/// another.
pub open spec fn inode_writable(ib: IndexRegion, inum: int) -> bool {
    &&& inode_readable(ib, inum)
    &&& forall|k1: int, k2: int|
        0 <= k1 < k2 < ib.inodes@[inum].block_count
            ==> spec_dnum(ib, inum, k1) != spec_dnum(ib, inum, k2)
}

/// Position in the flat data region holding byte `pos` of inode `inum`.
pub open spec fn raw_pos(ib: IndexRegion, inum: int, pos: int) -> int {
    spec_dnum(ib, inum, pos / 4096) as int * 4096 + pos % 4096
}

/// Byte `pos` of the file backed by inode `inum`.
pub open spec fn spec_byte(ib: IndexRegion, data: Seq<u8>, inum: int, pos: int) -> u8 {
    data[raw_pos(ib, inum, pos)]
}

/// The whole content of the file backed by inode `inum`.
pub open spec fn spec_file_bytes(ib: IndexRegion, data: Seq<u8>, inum: int) -> Seq<u8> {
    Seq::new(ib.inodes@[inum].size as nat, |i: int| spec_byte(ib, data, inum, i))
}

/// Two in-range positions of one well-formed file occupy distinct places
/// of the data region.
pub proof fn lemma_raw_pos_injective(ib: IndexRegion, inum: int, p: int, q: int)
    requires
        inode_writable(ib, inum),
        0 <= p,
        0 <= q,
        p / 4096 < ib.inodes@[inum].block_count,
        q / 4096 < ib.inodes@[inum].block_count,
        raw_pos(ib, inum, p) == raw_pos(ib, inum, q),
    ensures
        p == q,
{
    if p / 4096 != q / 4096 {
        assert(spec_dnum(ib, inum, p / 4096) != spec_dnum(ib, inum, q / 4096));
    }
}

/// Read `buf.len()` bytes starting at byte `start_pos` of inode `inum`
/// into `buf`; the caller guarantees the range lies within the file.
pub fn read_data(
    data_blocks: &Vec<u8>,
    index_blocks: &IndexRegion,
    inum: usize,
    start_pos: usize,
    buf: &mut Vec<u8>,
)
    requires
        data_blocks@.len() == DATA_BLOCK_COUNT * ALIGN_SIZE,
        index_region_wf(*index_blocks),
        inum < INODE_COUNT,
        inode_readable(*index_blocks, inum as int),
        start_pos + old(buf)@.len() <= index_blocks.inodes@[inum as int].size,
    ensures
        final(buf)@.len() == old(buf)@.len(),
        forall|i: int|
            0 <= i < old(buf)@.len()
                ==> final(buf)@[i] == spec_byte(
                    *index_blocks,
                    data_blocks@,
                    inum as int,
                    start_pos + i,
                ),
{
    let inode = get_inode(index_blocks, inum);
    let total = buf.len();
    let mut readed: usize = 0;
    while readed < total
        invariant
            data_blocks@.len() == DATA_BLOCK_COUNT * ALIGN_SIZE,
            index_region_wf(*index_blocks),
            inum < INODE_COUNT,
            inode_readable(*index_blocks, inum as int),
            inode == index_blocks.inodes@[inum as int],
            start_pos + total <= inode.size,
            0 <= readed <= total,
            buf@.len() == total,
            forall|i: int|
                0 <= i < readed
                    ==> buf@[i] == spec_byte(
                        *index_blocks,
                        data_blocks@,
                        inum as int,
                        start_pos + i,
                    ),
        decreases total - readed,
    {
        let pos = start_pos + readed;
        proof {
            assert(pos < inode.size);
            assert(pos / 4096 < inode.block_count);
            assert(pos / 4096 < inode.size);
        }
        let (dnum, offset) = transform_pos(index_blocks, inum, pos);
        let block_index = pos / 4096;
        let size_of_data = get_size_of_data_block(&inode, block_index);
        proof {
            if block_index == inode.block_count - 1 {
                assert(pos % 4096 <= (inode.size - 1) % 4096);
            }
        }
        let len = if total - readed < size_of_data - offset {
            total - readed
        } else {
            size_of_data - offset
        };
        let base = dnum * 4096;
        let mut t: usize = 0;
        while t < len
            invariant
                data_blocks@.len() == DATA_BLOCK_COUNT * ALIGN_SIZE,
                index_region_wf(*index_blocks),
                inum < INODE_COUNT,
                inode_readable(*index_blocks, inum as int),
                inode == index_blocks.inodes@[inum as int],
                start_pos + total <= inode.size,
                0 <= readed,
                readed + len <= total,
                1 <= len,
                buf@.len() == total,
                0 <= t <= len,
                pos == start_pos + readed,
                offset == pos % 4096,
                offset + len <= 4096,
                dnum == spec_dnum(*index_blocks, inum as int, pos as int / 4096),
                dnum < DATA_BLOCK_COUNT,
                base == dnum * 4096,
                forall|i: int|
                    0 <= i < readed
                        ==> buf@[i] == spec_byte(
                            *index_blocks,
                            data_blocks@,
                            inum as int,
                            start_pos + i,
                        ),
                forall|tt: int|
                    0 <= tt < t
                        ==> #[trigger] buf@[readed + tt] == spec_byte(
                            *index_blocks,
                            data_blocks@,
                            inum as int,
                            pos + tt,
                        ),
            decreases len - t,
        {
            let b = data_blocks[base + offset + t];
            buf[readed + t] = b;
            proof {
                assert((pos + t) / 4096 == pos as int / 4096 && (pos + t) % 4096 == offset + t)
                    by {
                    assert(pos == (pos as int / 4096) * 4096 + pos % 4096);
                };
                assert(spec_byte(*index_blocks, data_blocks@, inum as int, pos + t) == data_blocks@[
                    base + offset + t]);
            }
            t = t + 1;
        }
        proof {
            assert forall|i: int| 0 <= i < readed + len implies buf@[i] == spec_byte(
                *index_blocks,
                data_blocks@,
                inum as int,
                start_pos + i,
            ) by {
                if i >= readed {
                    let tt = i - readed;
                    assert(buf@[readed + tt] == spec_byte(
                        *index_blocks,
                        data_blocks@,
                        inum as int,
                        pos + tt,
                    ));
                }
            }
        }
        readed = readed + len;
    }
}

/// Write all of `buf` starting at byte `start_pos` of inode `inum`; the
/// caller guarantees the range lies within the file.  Bytes of the file
/// outside the written range, and bytes of the data region outside this
/// file's blocks, are untouched.
pub fn write_data(
    data_blocks: &mut Vec<u8>,
    index_blocks: &IndexRegion,
    inum: usize,
    start_pos: usize,
    buf: &Vec<u8>,
)
    requires
        old(data_blocks)@.len() == DATA_BLOCK_COUNT * ALIGN_SIZE,
        index_region_wf(*index_blocks),
        inum < INODE_COUNT,
        inode_writable(*index_blocks, inum as int),
        start_pos + buf@.len() <= index_blocks.inodes@[inum as int].size,
    ensures
        final(data_blocks)@.len() == old(data_blocks)@.len(),
        forall|i: int|
            0 <= i < buf@.len()
                ==> spec_byte(*index_blocks, final(data_blocks)@, inum as int, start_pos + i)
                    == buf@[i],
        forall|p: int|
            0 <= p < index_blocks.inodes@[inum as int].size && !(start_pos <= p < start_pos
                + buf@.len()) ==> spec_byte(*index_blocks, final(data_blocks)@, inum as int, p)
                == spec_byte(*index_blocks, old(data_blocks)@, inum as int, p),
        forall|q: int|
            0 <= q < old(data_blocks)@.len() && !(exists|i: int|
                0 <= i < buf@.len() && q == #[trigger] raw_pos(*index_blocks, inum as int, start_pos + i))
                ==> final(data_blocks)@[q] == old(data_blocks)@[q],
{
    let ghost olddata = data_blocks@;
    let inode = get_inode(index_blocks, inum);
    let total = buf.len();
    let mut written: usize = 0;
    while written < total
        invariant
            data_blocks@.len() == DATA_BLOCK_COUNT * ALIGN_SIZE,
            olddata.len() == DATA_BLOCK_COUNT * ALIGN_SIZE,
            index_region_wf(*index_blocks),
            inum < INODE_COUNT,
            inode_writable(*index_blocks, inum as int),
            inode == index_blocks.inodes@[inum as int],
            start_pos + total <= inode.size,
            total == buf@.len(),
            0 <= written <= total,
            forall|i: int|
                0 <= i < written
                    ==> data_blocks@[raw_pos(*index_blocks, inum as int, start_pos + i)]
                        == buf@[i],
            forall|q: int|
                0 <= q < olddata.len() && !(exists|i: int|
                    0 <= i < written && q == #[trigger] raw_pos(*index_blocks, inum as int, start_pos + i))
                    ==> data_blocks@[q] == olddata[q],
        decreases total - written,
    {
        let pos = start_pos + written;
        proof {
            assert(pos < inode.size);
            assert(pos / 4096 < inode.block_count);
            assert(pos / 4096 < inode.size);
        }
        let (dnum, offset) = transform_pos(index_blocks, inum, pos);
        let block_index = pos / 4096;
        let size_of_data = get_size_of_data_block(&inode, block_index);
        proof {
            if block_index == inode.block_count - 1 {
                assert(pos % 4096 <= (inode.size - 1) % 4096);
            }
        }
        let len = if total - written < size_of_data - offset {
            total - written
        } else {
            size_of_data - offset
        };
        let base = dnum * 4096;
        let ghost middata = data_blocks@;
        let mut t: usize = 0;
        while t < len
            invariant
                data_blocks@.len() == DATA_BLOCK_COUNT * ALIGN_SIZE,
                middata.len() == DATA_BLOCK_COUNT * ALIGN_SIZE,
                index_region_wf(*index_blocks),
                inum < INODE_COUNT,
                inode_writable(*index_blocks, inum as int),
                inode == index_blocks.inodes@[inum as int],
                start_pos + total <= inode.size,
                total == buf@.len(),
                0 <= written,
                written + len <= total,
                1 <= len,
                0 <= t <= len,
                pos == start_pos + written,
                offset == pos % 4096,
                offset + len <= 4096,
                dnum == spec_dnum(*index_blocks, inum as int, pos as int / 4096),
                dnum < DATA_BLOCK_COUNT,
                base == dnum * 4096,
                forall|tt: int|
                    0 <= tt < t ==> data_blocks@[base + offset + tt] == #[trigger] buf@[written + tt],
                forall|q: int|
                    0 <= q < middata.len() && !(base + offset <= q < base + offset + t)
                        ==> data_blocks@[q] == middata[q],
            decreases len - t,
        {
            let b = buf[written + t];
            data_blocks[base + offset + t] = b;
            t = t + 1;
        }
        proof {
            // Bytes `written + tt` for `tt < len` live at the contiguous
            // raw positions just written.
            assert forall|tt: int| 0 <= tt < len implies #[trigger] raw_pos(
                *index_blocks,
                inum as int,
                pos + tt,
            ) == base + offset + tt by {
                assert((pos + tt) / 4096 == pos as int / 4096 && (pos + tt) % 4096 == offset + tt)
                    by {
                    assert(pos == (pos as int / 4096) * 4096 + pos % 4096);
                };
            }
            assert forall|i: int| 0 <= i < written + len implies data_blocks@[raw_pos(
                *index_blocks,
                inum as int,
                start_pos + i,
            )] == buf@[i] by {
                if i < written {
                    let r = raw_pos(*index_blocks, inum as int, start_pos + i);
                    if base + offset <= r < base + offset + len {
                        let tt = r - (base + offset);
                        assert(raw_pos(*index_blocks, inum as int, pos + tt) == r);
                        lemma_raw_pos_injective(
                            *index_blocks,
                            inum as int,
                            start_pos + i,
                            pos + tt,
                        );
                        assert(false);
                    }
                } else {
                    let tt = i - written;
                    assert(data_blocks@[base + offset + tt] == buf@[written + tt]);
                }
            }
            assert forall|q: int|
                0 <= q < olddata.len() && !(exists|i: int|
                    0 <= i < written + len && q == #[trigger] raw_pos(
                        *index_blocks,
                        inum as int,
                        start_pos + i,
                    )) implies data_blocks@[q] == olddata[q] by {
                if base + offset <= q < base + offset + len {
                    let tt = q - (base + offset);
                    assert(q == raw_pos(*index_blocks, inum as int, start_pos + (written + tt)));
                    assert(false);
                }
                assert(data_blocks@[q] == middata[q]);
            }
        }
        written = written + len;
    }
    proof {
        assert forall|p: int|
            0 <= p < index_blocks.inodes@[inum as int].size && !(start_pos <= p < start_pos
                + buf@.len()) implies spec_byte(*index_blocks, data_blocks@, inum as int, p)
            == spec_byte(*index_blocks, olddata, inum as int, p) by {
            let r = raw_pos(*index_blocks, inum as int, p);
            assert(p / 4096 < inode.block_count);
            if exists|i: int|
                0 <= i < buf@.len() && r == #[trigger] raw_pos(*index_blocks, inum as int, start_pos + i) {
                let i = choose|i: int|
                    0 <= i < buf@.len() && r == #[trigger] raw_pos(*index_blocks, inum as int, start_pos + i);
                assert((start_pos + i) / 4096 < inode.block_count);
                lemma_raw_pos_injective(*index_blocks, inum as int, p, start_pos + i);
                assert(false);
            }
        }
    }
}

/// Write all of `buf` at byte `start_pos` of inode `inum`, first resizing
/// the file to end exactly at `start_pos + buf.len()` if it does not
/// already.  This is the one primitive that changes a file's size.
pub fn write_data_auto_resize(
    index_bitmap_blocks: &mut Vec<u32>,
    data_bitmap_blocks: &mut Vec<u32>,
    index_blocks: &mut IndexRegion,
    data_blocks: &mut Vec<u8>,
    inum: usize,
    start_pos: usize,
    buf: &Vec<u8>,
)
    requires
        old(index_bitmap_blocks)@.len() == INDEX_BITMAP_WORDS,
        old(data_bitmap_blocks)@.len() == DATA_BITMAP_WORDS,
        index_region_wf(*old(index_blocks)),
        old(data_blocks)@.len() == DATA_BLOCK_COUNT * ALIGN_SIZE,
        inum < INODE_COUNT,
        start_pos + buf@.len() <= MAX_FILE_BLOCKS * ALIGN_SIZE,
        bm_bit(old(index_bitmap_blocks)@, 0),
        inode_wf(
            *old(index_blocks),
            old(index_bitmap_blocks)@,
            old(data_bitmap_blocks)@,
            inum as int,
        ),
        (start_pos + buf@.len() + 4095) / 4096 > old(index_blocks).inodes@[inum as int].block_count
            ==> count_clear(old(data_bitmap_blocks)@, DATA_BLOCK_COUNT as int) >= (start_pos
                + buf@.len() + 4095) / 4096 - old(index_blocks).inodes@[inum as int].block_count,
        ((start_pos + buf@.len() + 4095) / 4096 > DIRECT_BLOCK_COUNT && old(
            index_blocks,
        ).inodes@[inum as int].block_count <= DIRECT_BLOCK_COUNT) ==> exists|w: int|
            0 <= w < INDEX_BLOCK_COUNT && old(index_bitmap_blocks)@[w] == 0u32,
    ensures
        final(index_bitmap_blocks)@.len() == INDEX_BITMAP_WORDS,
        final(data_bitmap_blocks)@.len() == DATA_BITMAP_WORDS,
        index_region_wf(*final(index_blocks)),
        final(data_blocks)@.len() == old(data_blocks)@.len(),
        forall|i: int|
            0 <= i < INODE_COUNT && i != inum
                ==> final(index_blocks).inodes@[i] == old(index_blocks).inodes@[i],
        inode_wf(
            *final(index_blocks),
            final(index_bitmap_blocks)@,
            final(data_bitmap_blocks)@,
            inum as int,
        ),
        final(index_blocks).inodes@[inum as int].size == start_pos + buf@.len(),
        final(index_blocks).inodes@[inum as int].block_count == spec_block_count_for(
            (start_pos + buf@.len()) as u32,
        ),
        same_inode_meta(
            final(index_blocks).inodes@[inum as int],
            old(index_blocks).inodes@[inum as int],
        ),
        forall|i: int|
            0 <= i < buf@.len()
                ==> spec_byte(
                    *final(index_blocks),
                    final(data_blocks)@,
                    inum as int,
                    start_pos + i,
                ) == buf@[i],
        forall|p: int|
            0 <= p < start_pos && p < old(index_blocks).inodes@[inum as int].size
                ==> spec_byte(*final(index_blocks), final(data_blocks)@, inum as int, p)
                    == spec_byte(*old(index_blocks), old(data_blocks)@, inum as int, p),
        forall|q: int|
            0 <= q < old(data_blocks)@.len() && !(exists|i: int|
                0 <= i < buf@.len() && q == #[trigger] raw_pos(
                    *final(index_blocks),
                    inum as int,
                    start_pos + i,
                )) ==> final(data_blocks)@[q] == old(data_blocks)@[q],
        final(index_blocks).inodes@[inum as int].block_count >= old(
            index_blocks,
        ).inodes@[inum as int].block_count ==> crate::grow::dbm_extended(
            *final(index_blocks),
            final(data_bitmap_blocks)@,
            old(data_bitmap_blocks)@,
            inum as int,
            old(index_blocks).inodes@[inum as int].block_count as int,
            final(index_blocks).inodes@[inum as int].block_count as int,
        ) && crate::grow::dbm_first_fit(
            *final(index_blocks),
            old(data_bitmap_blocks)@,
            inum as int,
            old(index_blocks).inodes@[inum as int].block_count as int,
            final(index_blocks).inodes@[inum as int].block_count as int,
        ),
        count_clear(final(data_bitmap_blocks)@, DATA_BLOCK_COUNT as int) == count_clear(
            old(data_bitmap_blocks)@,
            DATA_BLOCK_COUNT as int,
        ) - (final(index_blocks).inodes@[inum as int].block_count
            - old(index_blocks).inodes@[inum as int].block_count),
        forall|k: int|
            0 <= k < final(index_blocks).inodes@[inum as int].block_count && k < old(
                index_blocks,
            ).inodes@[inum as int].block_count ==> spec_dnum(
                *final(index_blocks),
                inum as int,
                k,
            ) == spec_dnum(*old(index_blocks), inum as int, k),
        (final(index_blocks).inodes@[inum as int].block_count > DIRECT_BLOCK_COUNT && old(
            index_blocks,
        ).inodes@[inum as int].block_count <= DIRECT_BLOCK_COUNT) ==> {
            let w0 = final(index_blocks).inodes@[inum as int].block_indirect as int / 32;
            &&& old(index_bitmap_blocks)@[w0] == 0u32
            &&& final(index_bitmap_blocks)@[w0] == 0xffff_ffffu32
            &&& (forall|w: int| 0 <= w < w0 ==> old(index_bitmap_blocks)@[w] != 0u32)
            &&& forall|w: int|
                0 <= w < INDEX_BITMAP_WORDS && w != w0 ==> final(index_bitmap_blocks)@[w]
                    == old(index_bitmap_blocks)@[w]
        },
{
    let new_size = start_pos + buf.len();
    let inode = get_inode(index_blocks, inum);
    if new_size != inode.size as usize {
        resize(index_bitmap_blocks, data_bitmap_blocks, index_blocks, inum, new_size);
    }
    let ghost mid_ib = *index_blocks;
    let ghost middata = data_blocks@;
    write_data(data_blocks, index_blocks, inum, start_pos, buf);
    proof {
        let newino = index_blocks.inodes@[inum as int];
        let oldino = old(index_blocks).inodes@[inum as int];
        assert forall|p: int|
            0 <= p < start_pos && p < oldino.size implies spec_byte(
            *index_blocks,
            data_blocks@,
            inum as int,
            p,
        ) == spec_byte(*old(index_blocks), old(data_blocks)@, inum as int, p) by {
            assert(p / 4096 <= p);
            assert(p / 4096 < oldino.block_count);
            assert(p / 4096 < newino.block_count);
            assert(spec_dnum(*index_blocks, inum as int, p / 4096) == spec_dnum(
                *old(index_blocks),
                inum as int,
                p / 4096,
            ));
            assert(raw_pos(*index_blocks, inum as int, p) == raw_pos(
                *old(index_blocks),
                inum as int,
                p,
            ));
            assert(spec_byte(*index_blocks, middata, inum as int, p) == spec_byte(
                *old(index_blocks),
                old(data_blocks)@,
                inum as int,
                p,
            ));
        }
    }
}


/// Read-after-write: a write of `b` at position `p` leaves the file bytes
/// at `[p, p + |b|)` equal to `b` (as `write_data` ensures), and a read of
/// `|b|` bytes at `p` returns exactly those file bytes (as `read_data`
/// ensures), so the read returns `b`.
pub proof fn lemma_read_after_write(
    ib: IndexRegion,
    data: Seq<u8>,
    inum: int,
    p: int,
    b: Seq<u8>,
    r: Seq<u8>,
)
    requires
        forall|i: int| 0 <= i < b.len() ==> spec_byte(ib, data, inum, p + i) == b[i],
        r.len() == b.len(),
        forall|i: int| 0 <= i < r.len() ==> r[i] == spec_byte(ib, data, inum, p + i),
    ensures
        r =~= b,
{
}


/// A copy of data block `dnum`'s 4096 bytes.
pub fn get_data_block(data_blocks: &Vec<u8>, dnum: usize) -> (r: Vec<u8>)
    requires
        data_blocks@.len() == DATA_BLOCK_COUNT * ALIGN_SIZE,
        dnum < DATA_BLOCK_COUNT,
    ensures
        r@ == data_blocks@.subrange(dnum as int * 4096, dnum as int * 4096 + 4096),
{
    let mut r: Vec<u8> = Vec::new();
    let base = dnum * 4096;
    let mut i: usize = 0;
    while i < 4096
        invariant
            data_blocks@.len() == DATA_BLOCK_COUNT * ALIGN_SIZE,
            dnum < DATA_BLOCK_COUNT,
            base == dnum * 4096,
            0 <= i <= 4096,
            r@ =~= data_blocks@.subrange(base as int, base + i),
        decreases 4096 - i,
    {
        let b = data_blocks[base + i];
        r.push(b);
        proof {
            assert(data_blocks@.subrange(base as int, base + i + 1) =~= data_blocks@.subrange(
                base as int,
                base + i,
            ).push(data_blocks@[base + i]));
        }
        i = i + 1;
    }
    r
}

} // verus!
