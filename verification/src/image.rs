//! The image's byte form: export and import of the whole filesystem as
//! one contiguous little-endian byte region, region by region in layout
//! order.

use vstd::prelude::*;
use crate::repr::{
    Disk, INode, IndexRegion, SuperBlock, disk_lens_ok, ALIGN_SIZE, DATA_BITMAP_WORDS,
    DATA_BLOCK_COUNT, DIRECT_BLOCK_COUNT, INDEX_BITMAP_WORDS, INDEX_BLOCK_COUNT,
    INDIRECT_CAPACITY, INODE_COUNT,
};
use crate::dir::{lemma_le32_reconstruct, spec_le32_byte};
use crate::vsfs::same_disk;

verus! {

/// Byte offset where the inode bitmap region starts.
pub const IBM_OFF: usize = 4096;

/// Byte offset where the data bitmap region starts.
pub const DBM_OFF: usize = IBM_OFF + INDEX_BITMAP_WORDS * 4;

/// Byte offset where the inode slots start.
pub const INODE_OFF: usize = DBM_OFF + DATA_BITMAP_WORDS * 4;

/// Byte offset where the single-indirect word pool starts.
pub const IND_OFF: usize = INODE_OFF + INODE_COUNT * 128;

/// Byte offset where the data region starts.
pub const DATA_OFF: usize = IND_OFF + INDEX_BLOCK_COUNT * INDIRECT_CAPACITY * 4;

/// Total byte size of an image.
pub const IMAGE_BYTES: usize = DATA_OFF + DATA_BLOCK_COUNT * ALIGN_SIZE;

/// The 32-bit words of one inode slot: its fields in order, zero padding
/// after them.
pub open spec fn spec_inode_word(ino: INode, f: int) -> int {
    if f == 0 {
        ino.size as int
    } else if f == 1 {
        if ino.is_dir {
            1
        } else {
            0
        }
    } else if f == 2 {
        ino.atime as int
    } else if f == 3 {
        ino.ctime as int
    } else if f == 4 {
        ino.mtime as int
    } else if f == 5 {
        ino.block_count as int
    } else if 6 <= f < 18 {
        ino.block_direct@[f - 6] as int
    } else if f == 18 {
        ino.block_indirect as int
    } else {
        0
    }
}

/// Byte `i` of the image's byte form.
pub open spec fn spec_image_byte(d: Disk, i: int) -> u8 {
    if i < IBM_OFF {
        if i < 4 {
            spec_le32_byte(d.sb.version as int, i)
        } else if i < 8 {
            spec_le32_byte(d.sb.root_inum as int, i - 4)
        } else {
            0
        }
    } else if i < DBM_OFF {
        let o = i - IBM_OFF;
        spec_le32_byte(d.i_bitmaps@[o / 4] as int, o % 4)
    } else if i < INODE_OFF {
        let o = i - DBM_OFF;
        spec_le32_byte(d.d_bitmaps@[o / 4] as int, o % 4)
    } else if i < IND_OFF {
        let o = i - INODE_OFF;
        spec_le32_byte(spec_inode_word(d.i_blocks.inodes@[o / 128], (o % 128) / 4), o % 4)
    } else if i < DATA_OFF {
        let o = i - IND_OFF;
        spec_le32_byte(d.i_blocks.indirect@[o / 4] as int, o % 4)
    } else {
        d.d_blocks@[i - DATA_OFF]
    }
}

/// The whole byte form.
pub open spec fn spec_image_bytes(d: Disk) -> Seq<u8> {
    Seq::new(IMAGE_BYTES as nat, |i: int| spec_image_byte(d, i))
}

/// Append the four little-endian bytes of one word.
fn push_word(out: &mut Vec<u8>, w: u32)
    ensures
        final(out)@.len() == old(out)@.len() + 4,
        forall|j: int| 0 <= j < old(out)@.len() ==> final(out)@[j] == old(out)@[j],
        forall|j: int|
            0 <= j < 4 ==> final(out)@[old(out)@.len() + j] == spec_le32_byte(w as int, j),
{
    out.push((w % 256) as u8);
    out.push(((w / 256) % 256) as u8);
    out.push(((w / 65536) % 256) as u8);
    out.push(((w / 16777216) % 256) as u8);
}

/// The word read back from four little-endian bytes.
fn read_word(bytes: &Vec<u8>, at: usize) -> (r: u32)
    requires
        at + 4 <= bytes@.len(),
    ensures
        r == bytes@[at as int] + 256 * (bytes@[at as int + 1] + 256 * (bytes@[at as int + 2]
            + 256 * bytes@[at as int + 3])),
{
    let blen = bytes.len();
    bytes[at] as u32 + 256 * (bytes[at + 1] as u32 + 256 * (bytes[at + 2] as u32 + 256 * (
    bytes[at + 3] as u32)))
}

impl Disk {
    /// Export the image verbatim: superblock, bitmaps, inode slots,
    /// indirect pool and data region, all multi-byte integers
    /// little-endian.
    pub fn to_bytes(&self) -> (r: Vec<u8>)
        requires
            disk_lens_ok(*self),
        ensures
            r@ == spec_image_bytes(*self),
    {
        let mut out: Vec<u8> = Vec::new();
        push_word(&mut out, self.sb.version);
        push_word(&mut out, self.sb.root_inum);
        while out.len() < IBM_OFF
            invariant
                disk_lens_ok(*self),
                8 <= out@.len() <= IBM_OFF,
                forall|j: int| 0 <= j < out@.len() ==> out@[j] == spec_image_byte(*self, j),
            decreases IBM_OFF - out@.len(),
        {
            out.push(0u8);
        }
        let mut w: usize = 0;
        while w < INDEX_BITMAP_WORDS
            invariant
                disk_lens_ok(*self),
                0 <= w <= INDEX_BITMAP_WORDS,
                out@.len() == IBM_OFF + 4 * w,
                forall|j: int| 0 <= j < out@.len() ==> out@[j] == spec_image_byte(*self, j),
            decreases INDEX_BITMAP_WORDS - w,
        {
            push_word(&mut out, self.i_bitmaps[w]);
            proof {
                assert forall|j: int|
                    IBM_OFF + 4 * w <= j < IBM_OFF + 4 * w + 4 implies out@[j]
                    == spec_image_byte(*self, j) by {
                    let o = j - IBM_OFF;
                    assert(o / 4 == w && o % 4 == j - (IBM_OFF + 4 * w));
                }
            }
            w = w + 1;
        }
        let mut w: usize = 0;
        while w < DATA_BITMAP_WORDS
            invariant
                disk_lens_ok(*self),
                0 <= w <= DATA_BITMAP_WORDS,
                out@.len() == DBM_OFF + 4 * w,
                forall|j: int| 0 <= j < out@.len() ==> out@[j] == spec_image_byte(*self, j),
            decreases DATA_BITMAP_WORDS - w,
        {
            push_word(&mut out, self.d_bitmaps[w]);
            proof {
                assert forall|j: int|
                    DBM_OFF + 4 * w <= j < DBM_OFF + 4 * w + 4 implies out@[j]
                    == spec_image_byte(*self, j) by {
                    let o = j - DBM_OFF;
                    assert(o / 4 == w && o % 4 == j - (DBM_OFF + 4 * w));
                }
            }
            w = w + 1;
        }
        let mut n: usize = 0;
        while n < INODE_COUNT
            invariant
                disk_lens_ok(*self),
                0 <= n <= INODE_COUNT,
                out@.len() == INODE_OFF + 128 * n,
                forall|j: int| 0 <= j < out@.len() ==> out@[j] == spec_image_byte(*self, j),
            decreases INODE_COUNT - n,
        {
            let ino = self.i_blocks.inodes[n];
            let mut f: usize = 0;
            while f < 32
                invariant
                    disk_lens_ok(*self),
                    n < INODE_COUNT,
                    ino == self.i_blocks.inodes@[n as int],
                    0 <= f <= 32,
                    out@.len() == INODE_OFF + 128 * n + 4 * f,
                    forall|j: int| 0 <= j < out@.len() ==> out@[j] == spec_image_byte(*self, j),
                decreases 32 - f,
            {
                let word: u32 = if f == 0 {
                    ino.size
                } else if f == 1 {
                    if ino.is_dir {
                        1
                    } else {
                        0
                    }
                } else if f == 2 {
                    ino.atime
                } else if f == 3 {
                    ino.ctime
                } else if f == 4 {
                    ino.mtime
                } else if f == 5 {
                    ino.block_count
                } else if f < 18 {
                    ino.block_direct[f - 6]
                } else if f == 18 {
                    ino.block_indirect
                } else {
                    0
                };
                push_word(&mut out, word);
                proof {
                    assert(word == spec_inode_word(ino, f as int));
                    assert forall|j: int|
                        INODE_OFF + 128 * n + 4 * f <= j < INODE_OFF + 128 * n + 4 * f
                            + 4 implies out@[j] == spec_image_byte(*self, j) by {
                        let o = j - INODE_OFF;
                        assert(o / 128 == n && (o % 128) / 4 == f && o % 4 == j - (INODE_OFF + 128
                            * n + 4 * f)) by (nonlinear_arith)
                            requires
                                o == 128 * n + 4 * f + (j - (INODE_OFF + 128 * n + 4 * f)),
                                0 <= j - (INODE_OFF + 128 * n + 4 * f) < 4,
                                0 <= f < 32,
                                0 <= n,
                        ;
                    }
                }
                f = f + 1;
            }
            n = n + 1;
        }
        let mut w: usize = 0;
        while w < INDEX_BLOCK_COUNT * INDIRECT_CAPACITY
            invariant
                disk_lens_ok(*self),
                0 <= w <= INDEX_BLOCK_COUNT * INDIRECT_CAPACITY,
                out@.len() == IND_OFF + 4 * w,
                forall|j: int| 0 <= j < out@.len() ==> out@[j] == spec_image_byte(*self, j),
            decreases INDEX_BLOCK_COUNT * INDIRECT_CAPACITY - w,
        {
            push_word(&mut out, self.i_blocks.indirect[w]);
            proof {
                assert forall|j: int|
                    IND_OFF + 4 * w <= j < IND_OFF + 4 * w + 4 implies out@[j] == spec_image_byte(
                    *self,
                    j,
                ) by {
                    let o = j - IND_OFF;
                    assert(o / 4 == w && o % 4 == j - (IND_OFF + 4 * w));
                }
            }
            w = w + 1;
        }
        let mut q: usize = 0;
        while q < DATA_BLOCK_COUNT * ALIGN_SIZE
            invariant
                disk_lens_ok(*self),
                0 <= q <= DATA_BLOCK_COUNT * ALIGN_SIZE,
                out@.len() == DATA_OFF + q,
                forall|j: int| 0 <= j < out@.len() ==> out@[j] == spec_image_byte(*self, j),
            decreases DATA_BLOCK_COUNT * ALIGN_SIZE - q,
        {
            let b = self.d_blocks[q];
            out.push(b);
            q = q + 1;
        }
        proof {
            assert(out@ =~= spec_image_bytes(*self));
        }
        out
    }

    /// Import an image from its byte form, reading every region back.
    pub fn from_bytes(bytes: &Vec<u8>) -> (d: Disk)
        requires
            bytes@.len() == IMAGE_BYTES,
        ensures
            disk_lens_ok(d),
            forall|x: Disk|
                disk_lens_ok(x) && bytes@ == spec_image_bytes(x) ==> same_disk(d, x),
    {
        let version = read_word(bytes, 0);
        let root_inum = read_word(bytes, 4);
        let mut i_bitmaps: Vec<u32> = Vec::new();
        let mut w: usize = 0;
        while w < INDEX_BITMAP_WORDS
            invariant
                bytes@.len() == IMAGE_BYTES,
                0 <= w <= INDEX_BITMAP_WORDS,
                i_bitmaps@.len() == w,
                forall|k: int|
                    0 <= k < w ==> #[trigger] i_bitmaps@[k] == bytes@[IBM_OFF + 4 * k] + 256 * (
                    bytes@[IBM_OFF + 4 * k + 1] + 256 * (bytes@[IBM_OFF + 4 * k + 2] + 256
                        * bytes@[IBM_OFF + 4 * k + 3])),
            decreases INDEX_BITMAP_WORDS - w,
        {
            let v = read_word(bytes, IBM_OFF + 4 * w);
            i_bitmaps.push(v);
            w = w + 1;
        }
        let mut d_bitmaps: Vec<u32> = Vec::new();
        let mut w: usize = 0;
        while w < DATA_BITMAP_WORDS
            invariant
                bytes@.len() == IMAGE_BYTES,
                0 <= w <= DATA_BITMAP_WORDS,
                d_bitmaps@.len() == w,
                forall|k: int|
                    0 <= k < w ==> #[trigger] d_bitmaps@[k] == bytes@[DBM_OFF + 4 * k] + 256 * (
                    bytes@[DBM_OFF + 4 * k + 1] + 256 * (bytes@[DBM_OFF + 4 * k + 2] + 256
                        * bytes@[DBM_OFF + 4 * k + 3])),
            decreases DATA_BITMAP_WORDS - w,
        {
            let v = read_word(bytes, DBM_OFF + 4 * w);
            d_bitmaps.push(v);
            w = w + 1;
        }
        let mut inodes: Vec<INode> = Vec::new();
        let mut n: usize = 0;
        while n < INODE_COUNT
            invariant
                bytes@.len() == IMAGE_BYTES,
                0 <= n <= INODE_COUNT,
                inodes@.len() == n,
                forall|k: int|
                    0 <= k < n ==> inode_read_back(bytes@, k, #[trigger] inodes@[k]),
            decreases INODE_COUNT - n,
        {
            let base = INODE_OFF + 128 * n;
            let mut direct: [u32; DIRECT_BLOCK_COUNT] = [0u32; DIRECT_BLOCK_COUNT];
            let mut f: usize = 0;
            while f < DIRECT_BLOCK_COUNT
                invariant
                    bytes@.len() == IMAGE_BYTES,
                    n < INODE_COUNT,
                    base == INODE_OFF + 128 * n,
                    0 <= f <= DIRECT_BLOCK_COUNT,
                    forall|k: int|
                        0 <= k < f ==> #[trigger] direct@[k] == image_word(
                            bytes@,
                            INODE_OFF + 128 * n + 4 * (6 + k),
                        ),
                decreases DIRECT_BLOCK_COUNT - f,
            {
                let v = read_word(bytes, base + 4 * (6 + f));
                direct.set(f, v);
                f = f + 1;
            }
            let ino = INode {
                size: read_word(bytes, base),
                is_dir: read_word(bytes, base + 4) != 0,
                atime: read_word(bytes, base + 8),
                ctime: read_word(bytes, base + 12),
                mtime: read_word(bytes, base + 16),
                block_count: read_word(bytes, base + 20),
                block_direct: direct,
                block_indirect: read_word(bytes, base + 72),
            };
            inodes.push(ino);
            n = n + 1;
        }
        let mut indirect: Vec<u32> = Vec::new();
        let mut w: usize = 0;
        while w < INDEX_BLOCK_COUNT * INDIRECT_CAPACITY
            invariant
                bytes@.len() == IMAGE_BYTES,
                0 <= w <= INDEX_BLOCK_COUNT * INDIRECT_CAPACITY,
                indirect@.len() == w,
                forall|k: int|
                    0 <= k < w ==> #[trigger] indirect@[k] == image_word(bytes@, IND_OFF + 4 * k),
            decreases INDEX_BLOCK_COUNT * INDIRECT_CAPACITY - w,
        {
            let v = read_word(bytes, IND_OFF + 4 * w);
            indirect.push(v);
            w = w + 1;
        }
        let mut d_blocks: Vec<u8> = Vec::new();
        let mut q: usize = 0;
        while q < DATA_BLOCK_COUNT * ALIGN_SIZE
            invariant
                bytes@.len() == IMAGE_BYTES,
                0 <= q <= DATA_BLOCK_COUNT * ALIGN_SIZE,
                d_blocks@.len() == q,
                forall|k: int| 0 <= k < q ==> #[trigger] d_blocks@[k] == bytes@[DATA_OFF + k],
            decreases DATA_BLOCK_COUNT * ALIGN_SIZE - q,
        {
            let b = bytes[DATA_OFF + q];
            d_blocks.push(b);
            q = q + 1;
        }
        let d = Disk {
            sb: SuperBlock { version, root_inum },
            i_bitmaps,
            d_bitmaps,
            i_blocks: IndexRegion { inodes, indirect },
            d_blocks,
        };
        proof {
            assert forall|x: Disk|
                disk_lens_ok(x) && bytes@ == spec_image_bytes(x) implies same_disk(d, x) by {
                lemma_read_back_exact(bytes@, d, x);
            }
        }
        d
    }
}

/// The word whose four little-endian bytes sit at `at`.
pub open spec fn image_word(bytes: Seq<u8>, at: int) -> int {
    bytes[at] + 256 * (bytes[at + 1] + 256 * (bytes[at + 2] + 256 * bytes[at + 3]))
}

/// Inode `k` as decoded from the byte form.
pub open spec fn inode_read_back(bytes: Seq<u8>, k: int, ino: INode) -> bool {
    let base = INODE_OFF + 128 * k;
    &&& ino.size == image_word(bytes, base)
    &&& ino.is_dir == (image_word(bytes, base + 4) != 0)
    &&& ino.atime == image_word(bytes, base + 8)
    &&& ino.ctime == image_word(bytes, base + 12)
    &&& ino.mtime == image_word(bytes, base + 16)
    &&& ino.block_count == image_word(bytes, base + 20)
    &&& forall|f: int|
        0 <= f < DIRECT_BLOCK_COUNT ==> #[trigger] ino.block_direct@[f] == image_word(
            bytes,
            base + 4 * (6 + f),
        )
    &&& ino.block_indirect == image_word(bytes, base + 72)
}

/// A decoded image equals the image it was encoded from: every region's
/// words come back through the little-endian round trip.
proof fn lemma_read_back_exact(bytes: Seq<u8>, d: Disk, x: Disk)
    requires
        disk_lens_ok(x),
        bytes == spec_image_bytes(x),
        bytes.len() == IMAGE_BYTES,
        d.i_bitmaps@.len() == INDEX_BITMAP_WORDS,
        d.d_bitmaps@.len() == DATA_BITMAP_WORDS,
        d.i_blocks.inodes@.len() == INODE_COUNT,
        d.i_blocks.indirect@.len() == INDEX_BLOCK_COUNT * INDIRECT_CAPACITY,
        d.d_blocks@.len() == DATA_BLOCK_COUNT * ALIGN_SIZE,
        d.sb.version == image_word(bytes, 0),
        d.sb.root_inum == image_word(bytes, 4),
        forall|k: int|
            0 <= k < INDEX_BITMAP_WORDS ==> #[trigger] d.i_bitmaps@[k] == image_word(
                bytes,
                IBM_OFF + 4 * k,
            ),
        forall|k: int|
            0 <= k < DATA_BITMAP_WORDS ==> #[trigger] d.d_bitmaps@[k] == image_word(
                bytes,
                DBM_OFF + 4 * k,
            ),
        forall|k: int| 0 <= k < INODE_COUNT ==> inode_read_back(bytes, k, #[trigger] d.i_blocks.inodes@[k]),
        forall|k: int|
            0 <= k < INDEX_BLOCK_COUNT * INDIRECT_CAPACITY ==> #[trigger] d.i_blocks.indirect@[k]
                == image_word(bytes, IND_OFF + 4 * k),
        forall|k: int|
            0 <= k < DATA_BLOCK_COUNT * ALIGN_SIZE ==> #[trigger] d.d_blocks@[k] == bytes[DATA_OFF
                + k],
    ensures
        same_disk(d, x),
{
    lemma_word_at(bytes, x, 0, x.sb.version as int);
    lemma_word_at(bytes, x, 4, x.sb.root_inum as int);
    assert(d.i_bitmaps@ =~= x.i_bitmaps@) by {
        assert forall|k: int| 0 <= k < INDEX_BITMAP_WORDS implies d.i_bitmaps@[k]
            == x.i_bitmaps@[k] by {
            lemma_word_at(bytes, x, IBM_OFF + 4 * k, x.i_bitmaps@[k] as int);
        }
    }
    assert(d.d_bitmaps@ =~= x.d_bitmaps@) by {
        assert forall|k: int| 0 <= k < DATA_BITMAP_WORDS implies d.d_bitmaps@[k]
            == x.d_bitmaps@[k] by {
            lemma_word_at(bytes, x, DBM_OFF + 4 * k, x.d_bitmaps@[k] as int);
        }
    }
    assert(d.i_blocks.indirect@ =~= x.i_blocks.indirect@) by {
        assert forall|k: int|
            0 <= k < INDEX_BLOCK_COUNT * INDIRECT_CAPACITY implies d.i_blocks.indirect@[k]
            == x.i_blocks.indirect@[k] by {
            lemma_word_at(bytes, x, IND_OFF + 4 * k, x.i_blocks.indirect@[k] as int);
        }
    }
    assert(d.d_blocks@ =~= x.d_blocks@) by {
        assert forall|k: int| 0 <= k < DATA_BLOCK_COUNT * ALIGN_SIZE implies d.d_blocks@[k]
            == x.d_blocks@[k] by {
            assert(bytes[DATA_OFF + k] == spec_image_byte(x, DATA_OFF + k));
        }
    }
    assert(d.i_blocks.inodes@ =~= x.i_blocks.inodes@) by {
        assert forall|k: int| 0 <= k < INODE_COUNT implies d.i_blocks.inodes@[k]
            == x.i_blocks.inodes@[k] by {
            assert forall|f: int|
                0 <= f < 19 implies image_word(bytes, INODE_OFF + 128 * k + 4 * f) == #[trigger
            ] spec_inode_word(x.i_blocks.inodes@[k], f) by {
                lemma_inode_word_at(bytes, x, k, f);
            }
            lemma_inode_round(bytes, x.i_blocks.inodes@[k], k, d.i_blocks.inodes@[k]);
        }
    }
}

/// The word encoded at an aligned offset of a region reads back exactly.
proof fn lemma_word_at(bytes: Seq<u8>, x: Disk, at: int, v: int)
    requires
        disk_lens_ok(x),
        bytes == spec_image_bytes(x),
        0 <= at,
        at + 4 <= IMAGE_BYTES,
        at % 4 == 0,
        0 <= v < 4294967296,
        forall|j: int| 0 <= j < 4 ==> bytes[at + j] == spec_le32_byte(v, j),
    ensures
        image_word(bytes, at) == v,
{
    lemma_le32_reconstruct(v);
}

/// One word of one inode slot reads back exactly.
proof fn lemma_inode_word_at(bytes: Seq<u8>, x: Disk, k: int, f: int)
    requires
        disk_lens_ok(x),
        bytes == spec_image_bytes(x),
        0 <= k < INODE_COUNT,
        0 <= f < 19,
    ensures
        image_word(bytes, INODE_OFF + 128 * k + 4 * f) == spec_inode_word(
            x.i_blocks.inodes@[k],
            f,
        ),
{
    let base = INODE_OFF + 128 * k;
    let xo = x.i_blocks.inodes@[k];
    assert forall|j: int| 0 <= j < 4 implies bytes[base + 4 * f + j] == spec_le32_byte(
        spec_inode_word(xo, f),
        j,
    ) by {
        let i = base + 4 * f + j;
        let o = i - INODE_OFF;
        assert(o / 128 == k && (o % 128) / 4 == f && o % 4 == j) by (nonlinear_arith)
            requires
                o == 128 * k + 4 * f + j,
                0 <= j < 4,
                0 <= f < 19,
                0 <= k,
        ;
        assert(bytes[i] == spec_image_byte(x, i));
    }
    lemma_le32_reconstruct(spec_inode_word(xo, f));
}

/// One inode slot decodes back to the inode it encoded.
proof fn lemma_inode_round(bytes: Seq<u8>, xo: INode, k: int, ino: INode)
    requires
        0 <= k < INODE_COUNT,
        inode_read_back(bytes, k, ino),
        forall|f: int|
            0 <= f < 19 ==> image_word(bytes, INODE_OFF + 128 * k + 4 * f) == #[trigger
            ] spec_inode_word(xo, f),
    ensures
        ino == xo,
{
    let base = INODE_OFF + 128 * k;
    assert(image_word(bytes, base + 4 * 0) == spec_inode_word(xo, 0));
    assert(image_word(bytes, base + 4 * 1) == spec_inode_word(xo, 1));
    assert(image_word(bytes, base + 4 * 2) == spec_inode_word(xo, 2));
    assert(image_word(bytes, base + 4 * 3) == spec_inode_word(xo, 3));
    assert(image_word(bytes, base + 4 * 4) == spec_inode_word(xo, 4));
    assert(image_word(bytes, base + 4 * 5) == spec_inode_word(xo, 5));
    assert(image_word(bytes, base + 4 * 18) == spec_inode_word(xo, 18));
    assert(ino.size == xo.size);
    assert(ino.is_dir == xo.is_dir);
    assert(ino.atime == xo.atime);
    assert(ino.ctime == xo.ctime);
    assert(ino.mtime == xo.mtime);
    assert(ino.block_count == xo.block_count);
    assert(ino.block_indirect == xo.block_indirect);
    assert(ino.block_direct =~= xo.block_direct) by {
        assert forall|f: int| 0 <= f < DIRECT_BLOCK_COUNT implies ino.block_direct@[f]
            == xo.block_direct@[f] by {
            assert(image_word(bytes, base + 4 * (6 + f)) == spec_inode_word(xo, 6 + f));
        }
    }
}

/// Round-trip on disk: importing an exported image gives back the same
/// image, byte for byte in every region.
pub proof fn lemma_image_round_trip(d: Disk, r: Disk)
    requires
        disk_lens_ok(d),
        disk_lens_ok(r),
        forall|x: Disk|
            disk_lens_ok(x) && spec_image_bytes(d) == spec_image_bytes(x) ==> same_disk(r, x),
    ensures
        same_disk(r, d),
{
}

} // verus!
