//! The filesystem API: creating and deleting directories and files,
//! reading and writing file bytes, and resolving paths, all over one
//! exclusively borrowed image.

use vstd::prelude::*;
use vstd::string::StringSliceAdditionalSpecFns;
use vstd::utf8::{decode_utf8, decode_utf8_encode_utf8, encode_utf8, encode_utf8_decode_utf8};
use crate::repr::{
    Disk, SuperBlock, INode, disk_lens_ok, spec_block_count_for, ALIGN_SIZE, DATA_BITMAP_WORDS,
    DATA_BLOCK_COUNT, DIRECT_BLOCK_COUNT, INDEX_BITMAP_WORDS, INDEX_BLOCK_COUNT, INDIRECT_CAPACITY,
    INODE_COUNT,
    MAX_FILE_BLOCKS,
};
use crate::bitmap::{
    bm_bit, count_clear, count_free, get_free_block, get_free_item, get_state,
    get_two_free_blocks, set_state,
};
use crate::data::{inode_readable, read_data, spec_byte, write_data_auto_resize};
use crate::dir::{
    dir_entries_wf, dir_view, entry_view, read_data_struct, serialize_dir, spec_dir_stored,
    spec_encode_dir, write_data_struct_auto_resize, DirectoryData, DirectoryEntry,
};
use crate::inode::{get_inode, inode_wf, set_inode, spec_dnum};
use crate::path::{path_bytes_view, str_eq, Path};
use crate::shrink::free_inode;
use crate::utils::time;

verus! {

/// The filesystem format version a fresh image carries.
pub const VERSION: u32 = 1;

/// What a call at the engine boundary can fail with.
#[derive(Debug)]
pub enum Error {
    /// A path segment resolves to no entry.
    PathNotFound(Path),
    /// A create collides with an existing name.
    FileExist(Path),
    /// No free inode slot.
    NoSpace,
    /// The operation was applied to the wrong kind of object.
    InvalidFileType,
    /// A directory to be removed still has entries.
    DirIsNotEmpty,
}

/// Some well-formed entry list is stored at the start of inode `inum`.
pub open spec fn spec_dir_ok(d: Disk, inum: int) -> bool {
    exists|s: Seq<(Seq<u8>, u32)>|
        dir_entries_wf(s) && spec_dir_stored(d.i_blocks, d.d_blocks@, inum, 0, s)
}

/// The entry list stored at the start of inode `inum`.
pub open spec fn spec_dir_at(d: Disk, inum: int) -> Seq<(Seq<u8>, u32)> {
    choose|s: Seq<(Seq<u8>, u32)>|
        dir_entries_wf(s) && spec_dir_stored(d.i_blocks, d.d_blocks@, inum, 0, s)
}

/// First entry named `name`, scanning in insertion order.
pub open spec fn spec_lookup(s: Seq<(Seq<u8>, u32)>, name: Seq<u8>) -> Option<u32>
    decreases s.len(),
{
    if s.len() == 0 {
        None
    } else if s[0].0 == name {
        Some(s[0].1)
    } else {
        spec_lookup(s.drop_first(), name)
    }
}

/// A name-free prefix does not change what a lookup finds.
pub proof fn lemma_lookup_skip(s: Seq<(Seq<u8>, u32)>, name: Seq<u8>, t: int)
    requires
        0 <= t <= s.len(),
        forall|j: int| 0 <= j < t ==> (#[trigger] s[j]).0 != name,
    ensures
        spec_lookup(s, name) == spec_lookup(s.skip(t), name),
    decreases t,
{
    if t > 0 {
        lemma_lookup_skip(s.drop_first(), name, t - 1);
        assert(s.drop_first().skip(t - 1) =~= s.skip(t));
    } else {
        assert(s.skip(0) =~= s);
    }
}

/// An inode standing for a directory that can be walked through: it is a
/// readable directory holding a well-formed entry list.
pub open spec fn dir_readable(d: Disk, inum: int) -> bool {
    &&& 0 <= inum < INODE_COUNT
    &&& d.i_blocks.inodes@[inum].is_dir
    &&& inode_readable(d.i_blocks, inum)
    &&& spec_dir_ok(d, inum)
}

/// The walk from inode `cur` along `segs[i..]` meets only directories it
/// can read, for as far as the names resolve.
pub open spec fn resolve_ready(d: Disk, segs: Seq<Seq<u8>>, i: int, cur: int) -> bool
    decreases segs.len() - i,
{
    i >= segs.len() || {
        &&& dir_readable(d, cur)
        &&& match spec_lookup(spec_dir_at(d, cur), segs[i]) {
            Option::None => true,
            Option::Some(n) => n < INODE_COUNT && resolve_ready(d, segs, i + 1, n as int),
        }
    }
}

/// The inum a path leads to: start at the root, and follow each segment
/// through the directory it names.
pub open spec fn spec_resolve_from(d: Disk, segs: Seq<Seq<u8>>, i: int, cur: int) -> Option<int>
    decreases segs.len() - i,
{
    if i >= segs.len() {
        Some(cur)
    } else {
        match spec_lookup(spec_dir_at(d, cur), segs[i]) {
            Option::None => None,
            Option::Some(n) => spec_resolve_from(d, segs, i + 1, n as int),
        }
    }
}

/// The inum a whole path resolves to, if every segment is found.
pub open spec fn spec_resolve(d: Disk, segs: Seq<Seq<u8>>) -> Option<int> {
    spec_resolve_from(d, segs, 0, 0)
}

/// A resolved inum lies within the inode table.
pub proof fn lemma_resolve_bound(d: Disk, segs: Seq<Seq<u8>>, i: int, cur: int)
    requires
        resolve_ready(d, segs, i, cur),
        0 <= cur < INODE_COUNT,
        0 <= i <= segs.len(),
    ensures
        match spec_resolve_from(d, segs, i, cur) {
            Option::Some(r) => 0 <= r < INODE_COUNT,
            Option::None => true,
        },
    decreases segs.len() - i,
{
    if i < segs.len() {
        match spec_lookup(spec_dir_at(d, cur), segs[i]) {
            Option::None => {},
            Option::Some(n) => {
                lemma_resolve_bound(d, segs, i + 1, n as int);
            },
        }
    }
}

/// Find the first entry of `dd` named `name`, as the stored list has it.
fn lookup_entry(dd: &DirectoryData, name: &str) -> (r: Option<u32>)
    ensures
        r == spec_lookup(dir_view(*dd), name.spec_bytes()),
{
    let ghost v = dir_view(*dd);
    let ghost nb = name.spec_bytes();
    let n = dd.entries.len();
    let mut i: usize = 0;
    while i < n
        invariant
            v == dir_view(*dd),
            nb == name.spec_bytes(),
            n == dd.entries@.len(),
            0 <= i <= n,
            forall|j: int| 0 <= j < i ==> (#[trigger] v[j]).0 != nb,
        decreases n - i,
    {
        if str_eq(dd.entries[i].name.as_str(), name) {
            proof {
                assert(v[i as int] == entry_view(dd.entries@[i as int]));
                assert(v[i as int].0 == nb);
                lemma_lookup_skip(v, nb, i as int);
                assert(v.skip(i as int)[0] == v[i as int]);
            }
            return Some(dd.entries[i].inum);
        }
        proof {
            assert(v[i as int] == entry_view(dd.entries@[i as int]));
            assert(encode_utf8(dd.entries@[i as int].name@) != nb) by {
                if encode_utf8(dd.entries@[i as int].name@) == nb {
                    broadcast use encode_utf8_decode_utf8;

                    assert(decode_utf8(encode_utf8(dd.entries@[i as int].name@)) == decode_utf8(
                        nb,
                    ));
                }
            }
        }
        i = i + 1;
    }
    proof {
        lemma_lookup_skip(v, nb, n as int);
        assert(v.skip(n as int) =~= Seq::<(Seq<u8>, u32)>::empty());
    }
    None
}

/// Resolve a path to its inum, walking directories from the root.
pub fn get_inum_by_path(disk: &Disk, path: &Path) -> (r: Option<usize>)
    requires
        disk_lens_ok(*disk),
        resolve_ready(*disk, path_bytes_view(*path), 0, 0),
    ensures
        match r {
            Some(i) => spec_resolve(*disk, path_bytes_view(*path)) == Some(i as int) && i
                < INODE_COUNT,
            None => spec_resolve(*disk, path_bytes_view(*path)) is None,
        },
{
    let ghost segs = path_bytes_view(*path);
    let mut inum: usize = 0;
    let n = path.segs().len();
    let mut i: usize = 0;
    while i < n
        invariant
            disk_lens_ok(*disk),
            segs == path_bytes_view(*path),
            n == segs.len(),
            0 <= i <= n,
            inum < INODE_COUNT,
            resolve_ready(*disk, segs, i as int, inum as int),
            spec_resolve(*disk, segs) == spec_resolve_from(*disk, segs, i as int, inum as int),
        decreases n - i,
    {
        let ghost cur_entries = spec_dir_at(*disk, inum as int);
        let dir_data = read_data_struct(&disk.d_blocks, &disk.i_blocks, inum, 0);
        proof {
            assert(dir_view(dir_data) =~= cur_entries);
            assert(segs[i as int] == encode_utf8(path.segs@[i as int]@));
        }
        let seg: &String = &path.segs()[i];
        let target = lookup_entry(&dir_data, seg.as_str());
        match target {
            Some(next) => {
                inum = next as usize;
            },
            None => {
                return None;
            },
        }
        i = i + 1;
    }
    Some(inum)
}

/// Resolve a path and read the directory it names, handing back the
/// entries and the inum.
pub fn get_dir_by_path(disk: &Disk, path: &Path) -> (r: Option<(DirectoryData, usize)>)
    requires
        disk_lens_ok(*disk),
        resolve_ready(*disk, path_bytes_view(*path), 0, 0),
        match spec_resolve(*disk, path_bytes_view(*path)) {
            Option::Some(p) => dir_readable(*disk, p),
            Option::None => true,
        },
    ensures
        match r {
            Some((dd, i)) => {
                &&& spec_resolve(*disk, path_bytes_view(*path)) == Some(i as int)
                &&& i < INODE_COUNT
                &&& dir_view(dd) == spec_dir_at(*disk, i as int)
                &&& dir_entries_wf(dir_view(dd))
            },
            None => spec_resolve(*disk, path_bytes_view(*path)) is None,
        },
{
    let inum = match get_inum_by_path(disk, path) {
        Some(i) => i,
        None => {
            return None;
        },
    };
    let dir = read_data_struct(&disk.d_blocks, &disk.i_blocks, inum, 0);
    proof {
        assert(dir_view(dir) =~= spec_dir_at(*disk, inum as int));
    }
    Some((dir, inum))
}

/// Whether the path names an existing object.
pub fn path_exists(disk: &Disk, path: &Path) -> (r: bool)
    requires
        disk_lens_ok(*disk),
        resolve_ready(*disk, path_bytes_view(*path), 0, 0),
    ensures
        r == (spec_resolve(*disk, path_bytes_view(*path)) is Some),
{
    get_inum_by_path(disk, path).is_some()
}

/// Whether the path names a directory; `PathNotFound` if it names
/// nothing.
pub fn is_dir(disk: &Disk, path: &Path) -> (r: Result<bool, Error>)
    requires
        disk_lens_ok(*disk),
        resolve_ready(*disk, path_bytes_view(*path), 0, 0),
    ensures
        match r {
            Ok(b) => {
                &&& spec_resolve(*disk, path_bytes_view(*path)) matches Some(i)
                &&& b == disk.i_blocks.inodes@[spec_resolve(
                    *disk,
                    path_bytes_view(*path),
                ).unwrap()].is_dir
            },
            Err(e) => spec_resolve(*disk, path_bytes_view(*path)) is None && e is PathNotFound,
        },
{
    let inum = match get_inum_by_path(disk, path) {
        Some(i) => i,
        None => {
            return Err(Error::PathNotFound(path.clone()));
        },
    };
    let inode = get_inode(&disk.i_blocks, inum);
    Ok(inode.is_dir)
}

/// The inode a path resolves to, if any.
pub fn get_inode_by_path(disk: &Disk, path: &Path) -> (r: Option<INode>)
    requires
        disk_lens_ok(*disk),
        resolve_ready(*disk, path_bytes_view(*path), 0, 0),
    ensures
        match r {
            Some(ino) => {
                &&& spec_resolve(*disk, path_bytes_view(*path)) matches Some(i)
                &&& ino == disk.i_blocks.inodes@[spec_resolve(
                    *disk,
                    path_bytes_view(*path),
                ).unwrap()]
            },
            None => spec_resolve(*disk, path_bytes_view(*path)) is None,
        },
{
    let inum = match get_inum_by_path(disk, path) {
        Some(i) => i,
        None => {
            return None;
        },
    };
    Some(get_inode(&disk.i_blocks, inum))
}


/// The two images hold the same bytes everywhere.
pub open spec fn same_disk(a: Disk, b: Disk) -> bool {
    &&& a.sb == b.sb
    &&& a.i_bitmaps@ == b.i_bitmaps@
    &&& a.d_bitmaps@ == b.d_bitmaps@
    &&& a.i_blocks.inodes@ == b.i_blocks.inodes@
    &&& a.i_blocks.indirect@ == b.i_blocks.indirect@
    &&& a.d_blocks@ == b.d_blocks@
}

/// The two inodes agree on every field but the access time.
pub open spec fn same_inode_but_atime(a: INode, b: INode) -> bool {
    &&& a.size == b.size
    &&& a.is_dir == b.is_dir
    &&& a.ctime == b.ctime
    &&& a.mtime == b.mtime
    &&& a.block_count == b.block_count
    &&& a.block_direct == b.block_direct
    &&& a.block_indirect == b.block_indirect
}

/// The two images agree everywhere but the access time of inode `i`.
pub open spec fn same_disk_but_atime(a: Disk, b: Disk, i: int) -> bool {
    &&& a.sb == b.sb
    &&& a.i_bitmaps@ == b.i_bitmaps@
    &&& a.d_bitmaps@ == b.d_bitmaps@
    &&& a.i_blocks.indirect@ == b.i_blocks.indirect@
    &&& a.d_blocks@ == b.d_blocks@
    &&& a.i_blocks.inodes@.len() == b.i_blocks.inodes@.len()
    &&& forall|j: int|
        0 <= j < a.i_blocks.inodes@.len() && j != i ==> a.i_blocks.inodes@[j]
            == b.i_blocks.inodes@[j]
    &&& (0 <= i < a.i_blocks.inodes@.len() ==> same_inode_but_atime(
        a.i_blocks.inodes@[i],
        b.i_blocks.inodes@[i],
    ))
}

impl DirectoryData {
    /// Whether some entry carries this name.
    pub fn has_entry(&self, name: &str) -> (r: bool)
        ensures
            r == (spec_lookup(dir_view(*self), name.spec_bytes()) is Some),
    {
        lookup_entry(self, name).is_some()
    }
}

/// Install a fresh empty file inode in slot `inum`, stamped with the
/// current time.
pub fn init_file(disk: &mut Disk, inum: usize)
    requires
        disk_lens_ok(*old(disk)),
        inum < INODE_COUNT,
    ensures
        disk_lens_ok(*final(disk)),
        final(disk).sb == old(disk).sb,
        final(disk).i_bitmaps@ == old(disk).i_bitmaps@,
        final(disk).d_bitmaps@ == old(disk).d_bitmaps@,
        final(disk).i_blocks.indirect@ == old(disk).i_blocks.indirect@,
        final(disk).d_blocks@ == old(disk).d_blocks@,
        forall|i: int|
            0 <= i < INODE_COUNT && i != inum
                ==> final(disk).i_blocks.inodes@[i] == old(disk).i_blocks.inodes@[i],
        ({
            let ino = final(disk).i_blocks.inodes@[inum as int];
            &&& ino.size == 0
            &&& !ino.is_dir
            &&& ino.block_count == 0
            &&& ino.block_indirect == 0
            &&& ino.atime == ino.ctime && ino.ctime == ino.mtime
            &&& ino.block_direct@ == [0u32; DIRECT_BLOCK_COUNT]@
        }),
{
    let now = time();
    let file_inode = INode {
        size: 0,
        is_dir: false,
        atime: now,
        ctime: now,
        mtime: now,
        block_count: 0,
        block_direct: [0u32; DIRECT_BLOCK_COUNT],
        block_indirect: 0,
    };
    set_inode(&mut disk.i_blocks, inum, file_inode);
}

/// Install a fresh directory inode in slot `inum`, stamped with the
/// current time, and store an empty entry list as its payload.  The
/// slot's bitmap bit must already be set, and a data block must be free
/// for the payload.
pub fn init_dir(disk: &mut Disk, inum: usize)
    requires
        disk_lens_ok(*old(disk)),
        inum < INODE_COUNT,
        bm_bit(old(disk).i_bitmaps@, 0),
        bm_bit(old(disk).i_bitmaps@, inum as int),
        count_clear(old(disk).d_bitmaps@, DATA_BLOCK_COUNT as int) >= 1,
    ensures
        disk_lens_ok(*final(disk)),
        final(disk).sb == old(disk).sb,
        final(disk).i_bitmaps@ == old(disk).i_bitmaps@,
        forall|i: int|
            0 <= i < INODE_COUNT && i != inum
                ==> final(disk).i_blocks.inodes@[i] == old(disk).i_blocks.inodes@[i],
        ({
            let ino = final(disk).i_blocks.inodes@[inum as int];
            &&& ino.is_dir
            &&& ino.atime == ino.ctime && ino.ctime == ino.mtime
        }),
        inode_wf(
            final(disk).i_blocks,
            final(disk).i_bitmaps@,
            final(disk).d_bitmaps@,
            inum as int,
        ),
        spec_dir_stored(
            final(disk).i_blocks,
            final(disk).d_blocks@,
            inum as int,
            0,
            Seq::empty(),
        ),
        dir_entries_wf(Seq::empty()),
        final(disk).i_blocks.inodes@[inum as int].block_count == 1,
        exists|dn: int|
            #![auto]
            {
                &&& 0 <= dn < DATA_BLOCK_COUNT
                &&& !bm_bit(old(disk).d_bitmaps@, dn)
                &&& dn == spec_dnum(final(disk).i_blocks, inum as int, 0) as int
            },
        forall|j: int|
            0 <= j < DATA_BITMAP_WORDS * 32 ==> (bm_bit(final(disk).d_bitmaps@, j) <==> (bm_bit(
                old(disk).d_bitmaps@,
                j,
            ) || j == spec_dnum(final(disk).i_blocks, inum as int, 0) as int)),
        count_clear(final(disk).d_bitmaps@, DATA_BLOCK_COUNT as int) == count_clear(
            old(disk).d_bitmaps@,
            DATA_BLOCK_COUNT as int,
        ) - 1,
        final(disk).i_blocks.indirect@ == old(disk).i_blocks.indirect@,
        forall|q: int|
            0 <= q < old(disk).d_blocks@.len() && q / 4096 != spec_dnum(
                final(disk).i_blocks,
                inum as int,
                0,
            ) as int ==> final(disk).d_blocks@[q] == old(disk).d_blocks@[q],
{
    let now = time();
    let dir_inode = INode {
        size: 0,
        is_dir: true,
        atime: now,
        ctime: now,
        mtime: now,
        block_count: 0,
        block_direct: [0u32; DIRECT_BLOCK_COUNT],
        block_indirect: 0,
    };
    set_inode(&mut disk.i_blocks, inum, dir_inode);
    let dir_data = DirectoryData { entries: Vec::new() };
    let ghost mid = *disk;
    let ghost emptyv = dir_view(dir_data);
    proof {
        assert(emptyv =~= Seq::<(Seq<u8>, u32)>::empty());
        assert(spec_encode_dir(emptyv).len() == 2) by {
            assert(spec_encode_dir(emptyv) =~= seq![91u8, 93u8]);
        }
    }
    write_data_struct_auto_resize(
        &mut disk.i_bitmaps,
        &mut disk.d_bitmaps,
        &mut disk.i_blocks,
        &mut disk.d_blocks,
        inum,
        0,
        &dir_data,
    );
    proof {
        let dn = spec_dnum(disk.i_blocks, inum as int, 0) as int;
        assert(!bm_bit(mid.d_bitmaps@, dn));
        assert(spec_dir_stored(disk.i_blocks, disk.d_blocks@, inum as int, 0, Seq::empty())) by {
            assert(spec_dir_stored(disk.i_blocks, disk.d_blocks@, inum as int, 0, emptyv));
        }
        assert forall|j: int| 0 <= j < DATA_BITMAP_WORDS * 32 implies (bm_bit(
            disk.d_bitmaps@,
            j,
        ) <==> (bm_bit(mid.d_bitmaps@, j) || j == dn)) by {
            if bm_bit(disk.d_bitmaps@, j) && !bm_bit(mid.d_bitmaps@, j) {
                let k = choose|k: int|
                    0 <= k < 1 && (#[trigger] spec_dnum(disk.i_blocks, inum as int, k)) == j;
            }
        }
    }
}

/// Initialize a fresh filesystem: zero the image, write the superblock,
/// allocate inum 0 and make it the empty root directory.
pub fn init(disk: &mut Disk)
    ensures
        disk_lens_ok(*final(disk)),
        final(disk).sb.version == VERSION,
        final(disk).sb.root_inum == 0,
        bm_bit(final(disk).i_bitmaps@, 0),
        forall|i: int| 0 < i < INODE_COUNT ==> !bm_bit(final(disk).i_bitmaps@, i),
        final(disk).i_blocks.inodes@[0].is_dir,
        inode_wf(final(disk).i_blocks, final(disk).i_bitmaps@, final(disk).d_bitmaps@, 0),
        spec_dir_stored(final(disk).i_blocks, final(disk).d_blocks@, 0, 0, Seq::empty()),
        dir_readable(*final(disk), 0),
        spec_dir_at(*final(disk), 0) =~= Seq::<(Seq<u8>, u32)>::empty(),
        forall|j: int|
            0 <= j < DATA_BITMAP_WORDS * 32 ==> (bm_bit(final(disk).d_bitmaps@, j) <==> j
                == spec_dnum(final(disk).i_blocks, 0, 0)),
        forall|i: int|
            0 < i < INODE_COUNT ==> final(disk).i_blocks.inodes@[i]
                == crate::repr::spec_zero_inode(),
        forall|w: int|
            0 <= w < INDEX_BLOCK_COUNT * INDIRECT_CAPACITY ==> final(disk).i_blocks.indirect@[w]
                == 0u32,
        forall|q: int|
            0 <= q < DATA_BLOCK_COUNT * ALIGN_SIZE && q / 4096 != spec_dnum(
                final(disk).i_blocks,
                0,
                0,
            ) ==> final(disk).d_blocks@[q] == 0u8,
        final(disk).i_blocks.inodes@[0].atime == final(disk).i_blocks.inodes@[0].ctime,
        final(disk).i_blocks.inodes@[0].ctime == final(disk).i_blocks.inodes@[0].mtime,
        final(disk).i_blocks.inodes@[0].block_count == 1,
{
    disk.reset_zero();
    disk.sb = SuperBlock { version: VERSION, root_inum: 0 };
    proof {
        crate::bitmap::lemma_count_clear_congruence_zero(disk.d_bitmaps@, DATA_BLOCK_COUNT as int);
    }
    let ghost zeroibm = disk.i_bitmaps@;
    set_state(&mut disk.i_bitmaps, 0, true);
    proof {
        assert forall|i: int| 0 < i < INODE_COUNT implies !bm_bit(disk.i_bitmaps@, i) by {
            crate::bitmap::lemma_word_extremes(((i % 32)) as u32);
            assert(!bm_bit(zeroibm, i));
        }
    }
    let ghost zerodbm = disk.d_bitmaps@;
    init_dir(disk, 0);
    proof {
        // The only set data bit is the root directory's single block.
        let dn = spec_dnum(disk.i_blocks, 0, 0) as int;
        assert forall|j: int|
            0 <= j < DATA_BITMAP_WORDS * 32 implies (bm_bit(disk.d_bitmaps@, j) <==> j
            == dn) by {
            crate::bitmap::lemma_word_extremes(((j % 32)) as u32);
            assert(!bm_bit(zerodbm, j));
        }
        assert(dir_entries_wf(Seq::<(Seq<u8>, u32)>::empty()));
        assert(spec_dir_ok(*disk, 0));
        let s0 = spec_dir_at(*disk, 0);
        crate::dir::lemma_dir_stored_unique(
            disk.i_blocks,
            disk.d_blocks@,
            0,
            0,
            s0,
            Seq::empty(),
        );
    }
}

/// Stamp the inode a path names with the current time as both its
/// modification and access time.
pub fn update_modify_time(disk: &mut Disk, path: &Path) -> (r: Result<(), Error>)
    requires
        disk_lens_ok(*old(disk)),
        resolve_ready(*old(disk), path_bytes_view(*path), 0, 0),
    ensures
        disk_lens_ok(*final(disk)),
        final(disk).sb == old(disk).sb,
        final(disk).i_bitmaps@ == old(disk).i_bitmaps@,
        final(disk).d_bitmaps@ == old(disk).d_bitmaps@,
        final(disk).i_blocks.indirect@ == old(disk).i_blocks.indirect@,
        final(disk).d_blocks@ == old(disk).d_blocks@,
        match r {
            Ok(_) => {
                &&& spec_resolve(*old(disk), path_bytes_view(*path)) matches Some(i)
                &&& {
                    let i = spec_resolve(*old(disk), path_bytes_view(*path)).unwrap();
                    let newino = final(disk).i_blocks.inodes@[i];
                    let oldino = old(disk).i_blocks.inodes@[i];
                    &&& forall|j: int|
                        0 <= j < INODE_COUNT && j != i
                            ==> final(disk).i_blocks.inodes@[j] == old(disk).i_blocks.inodes@[j]
                    &&& newino.size == oldino.size
                    &&& newino.is_dir == oldino.is_dir
                    &&& newino.ctime == oldino.ctime
                    &&& newino.block_count == oldino.block_count
                    &&& newino.block_direct == oldino.block_direct
                    &&& newino.block_indirect == oldino.block_indirect
                    &&& newino.atime == newino.mtime
                }
            },
            Err(e) => {
                &&& spec_resolve(*old(disk), path_bytes_view(*path)) is None
                &&& e is PathNotFound
                &&& final(disk).i_blocks.inodes@ == old(disk).i_blocks.inodes@
            },
        },
{
    let inum = match get_inum_by_path(disk, path) {
        Some(i) => i,
        None => {
            return Err(Error::PathNotFound(path.clone()));
        },
    };
    let mut ino = get_inode(&disk.i_blocks, inum);
    let now = time();
    ino.mtime = now;
    ino.atime = now;
    set_inode(&mut disk.i_blocks, inum, ino);
    Ok(())
}

/// Stamp the inode a path names with the current time as its access time.
pub fn update_access_time(disk: &mut Disk, path: &Path) -> (r: Result<(), Error>)
    requires
        disk_lens_ok(*old(disk)),
        resolve_ready(*old(disk), path_bytes_view(*path), 0, 0),
    ensures
        disk_lens_ok(*final(disk)),
        final(disk).sb == old(disk).sb,
        final(disk).i_bitmaps@ == old(disk).i_bitmaps@,
        final(disk).d_bitmaps@ == old(disk).d_bitmaps@,
        final(disk).i_blocks.indirect@ == old(disk).i_blocks.indirect@,
        final(disk).d_blocks@ == old(disk).d_blocks@,
        match r {
            Ok(_) => {
                &&& spec_resolve(*old(disk), path_bytes_view(*path)) matches Some(i)
                &&& {
                    let i = spec_resolve(*old(disk), path_bytes_view(*path)).unwrap();
                    let newino = final(disk).i_blocks.inodes@[i];
                    let oldino = old(disk).i_blocks.inodes@[i];
                    &&& forall|j: int|
                        0 <= j < INODE_COUNT && j != i
                            ==> final(disk).i_blocks.inodes@[j] == old(disk).i_blocks.inodes@[j]
                    &&& newino.size == oldino.size
                    &&& newino.is_dir == oldino.is_dir
                    &&& newino.ctime == oldino.ctime
                    &&& newino.mtime == oldino.mtime
                    &&& newino.block_count == oldino.block_count
                    &&& newino.block_direct == oldino.block_direct
                    &&& newino.block_indirect == oldino.block_indirect
                }
            },
            Err(e) => {
                &&& spec_resolve(*old(disk), path_bytes_view(*path)) is None
                &&& e is PathNotFound
                &&& final(disk).i_blocks.inodes@ == old(disk).i_blocks.inodes@
            },
        },
{
    let inum = match get_inum_by_path(disk, path) {
        Some(i) => i,
        None => {
            return Err(Error::PathNotFound(path.clone()));
        },
    };
    let mut ino = get_inode(&disk.i_blocks, inum);
    let now = time();
    ino.atime = now;
    set_inode(&mut disk.i_blocks, inum, ino);
    Ok(())
}


/// What a parent directory must satisfy before a create can extend it
/// with a new name: readable, well formed, and with the grown entry list
/// still within one file's capacity.
pub open spec fn create_ready(d: Disk, p: int, nb: Seq<u8>) -> bool {
    &&& dir_readable(d, p)
    &&& inode_wf(d.i_blocks, d.i_bitmaps@, d.d_bitmaps@, p)
    &&& 4 + spec_encode_dir(spec_dir_at(d, p)).len() + 23 + nb.len() <= MAX_FILE_BLOCKS
        * ALIGN_SIZE
}

/// Space for a create under parent `p` with new name `nb`, counted the
/// way the creating functions reserve it up front: `extra` data blocks
/// for the fresh child's payload (one for a directory, none for a
/// file), free data blocks for the blocks the parent's grown entry
/// list adds, and two whole free inode-bitmap words when that list
/// first spills past the direct slots (the fresh inode's bit may land
/// in the first).  A create on an image without this room fails with
/// `NoSpace` before anything is written.
pub open spec fn create_room(d: Disk, p: int, nb: Seq<u8>, extra: int) -> bool {
    let needed = spec_block_count_for(
        (4 + spec_encode_dir(spec_dir_at(d, p)).len() + 23 + nb.len()) as u32,
    );
    &&& count_clear(d.d_bitmaps@, DATA_BLOCK_COUNT as int) >= extra + (if needed
        > d.i_blocks.inodes@[p].block_count {
        needed - d.i_blocks.inodes@[p].block_count
    } else {
        0int
    })
    &&& ((needed > DIRECT_BLOCK_COUNT && d.i_blocks.inodes@[p].block_count
        <= DIRECT_BLOCK_COUNT) ==> exists|w1: int, w2: int|
        0 <= w1 < w2 < INDEX_BLOCK_COUNT && #[trigger] d.i_bitmaps@[w1] == 0u32
            && #[trigger] d.i_bitmaps@[w2] == 0u32)
}

/// Space for rewriting the plain file `t` to end at byte `end`, counted
/// the way the writer reserves it up front: free data blocks for the
/// blocks the extent adds, and one whole free inode-bitmap word when
/// the extent first spills past the direct slots.  A write on an image
/// without this room fails with `NoSpace` before anything is written.
pub open spec fn write_room(d: Disk, t: int, end: int) -> bool {
    &&& ((end + 4095) / 4096 > d.i_blocks.inodes@[t].block_count ==> count_clear(
        d.d_bitmaps@,
        DATA_BLOCK_COUNT as int,
    ) >= (end + 4095) / 4096 - d.i_blocks.inodes@[t].block_count)
    &&& (((end + 4095) / 4096 > DIRECT_BLOCK_COUNT && d.i_blocks.inodes@[t].block_count
        <= DIRECT_BLOCK_COUNT) ==> exists|w: int|
        0 <= w < INDEX_BLOCK_COUNT && #[trigger] d.i_bitmaps@[w] == 0u32)
}

/// What holds after a successful create under parent `p`: a fresh inum
/// `ni` was taken and initialized, and the parent's entry list gained
/// `(nb, ni)` at its end; every other inode slot is untouched.
pub open spec fn create_post(
    oldd: Disk,
    newd: Disk,
    p: int,
    nb: Seq<u8>,
    ni: int,
    made_dir: bool,
) -> bool {
    &&& 0 <= ni < INODE_COUNT
    &&& !bm_bit(oldd.i_bitmaps@, ni)
    &&& bm_bit(newd.i_bitmaps@, ni)
    &&& newd.i_blocks.inodes@[ni].is_dir == made_dir
    &&& (made_dir ==> inode_wf(newd.i_blocks, newd.i_bitmaps@, newd.d_bitmaps@, ni)
        && spec_dir_stored(newd.i_blocks, newd.d_blocks@, ni, 0, Seq::empty()))
    &&& (!made_dir ==> newd.i_blocks.inodes@[ni].size == 0
        && newd.i_blocks.inodes@[ni].block_count == 0 && newd.i_blocks.inodes@[ni].block_indirect
        == 0)
    &&& spec_dir_stored(
        newd.i_blocks,
        newd.d_blocks@,
        p,
        0,
        spec_dir_at(oldd, p).push((nb, ni as u32)),
    )
    &&& inode_wf(newd.i_blocks, newd.i_bitmaps@, newd.d_bitmaps@, p)
    &&& newd.i_blocks.inodes@[p].is_dir
    &&& forall|j: int|
        0 <= j < INODE_COUNT && j != ni && j != p ==> newd.i_blocks.inodes@[j]
            == oldd.i_blocks.inodes@[j]
    &&& newd.sb == oldd.sb
    &&& newd.i_blocks.inodes@[ni].atime == newd.i_blocks.inodes@[ni].ctime
    &&& newd.i_blocks.inodes@[ni].ctime == newd.i_blocks.inodes@[ni].mtime
    &&& forall|q: int|
        0 <= q < oldd.d_blocks@.len() && bm_bit(oldd.d_bitmaps@, q / 4096) && !(exists|k: int|
            0 <= k < oldd.i_blocks.inodes@[p].block_count && (#[trigger] spec_dnum(
                oldd.i_blocks,
                p,
                k,
            )) == q / 4096) ==> #[trigger] newd.d_blocks@[q] == oldd.d_blocks@[q]
    &&& (newd.i_blocks.inodes@[p].block_count >= oldd.i_blocks.inodes@[p].block_count ==> {
        &&& forall|j: int|
            0 <= j < INODE_COUNT && bm_bit(oldd.i_bitmaps@, j) ==> bm_bit(newd.i_bitmaps@, j)
        &&& forall|j: int|
            0 <= j < DATA_BITMAP_WORDS * 32 && bm_bit(oldd.d_bitmaps@, j) ==> bm_bit(
                newd.d_bitmaps@,
                j,
            )
        &&& count_clear(newd.d_bitmaps@, DATA_BLOCK_COUNT as int) == count_clear(
            oldd.d_bitmaps@,
            DATA_BLOCK_COUNT as int,
        ) - (if made_dir {
            1int
        } else {
            0int
        }) - (newd.i_blocks.inodes@[p].block_count - oldd.i_blocks.inodes@[p].block_count)
    })
}

/// Create an empty directory named `name` under the directory `path`
/// names: allocate the first free inode slot, initialize it, and append
/// the entry to the parent.  An image without a free inode slot, without
/// the data blocks the grown parent and the child's payload need, or
/// without the free index words a first indirect table would take, is
/// refused with `NoSpace` before anything is written.
pub fn create_dir(disk: &mut Disk, path: &Path, name: &str) -> (r: Result<(), Error>)
    requires
        disk_lens_ok(*old(disk)),
        bm_bit(old(disk).i_bitmaps@, 0),
        resolve_ready(*old(disk), path_bytes_view(*path), 0, 0),
        crate::path::seg_bytes_valid(encode_utf8(name@)),
        encode_utf8(name@).len() <= u32::MAX,
        match spec_resolve(*old(disk), path_bytes_view(*path)) {
            Option::Some(p) => create_ready(*old(disk), p, encode_utf8(name@)),
            Option::None => true,
        },
    ensures
        disk_lens_ok(*final(disk)),
        final(disk).sb == old(disk).sb,
        match r {
            Ok(_) => {
                &&& spec_resolve(*old(disk), path_bytes_view(*path)) matches Some(p)
                &&& {
                    let p = spec_resolve(*old(disk), path_bytes_view(*path)).unwrap();
                    &&& spec_lookup(spec_dir_at(*old(disk), p), name.spec_bytes()) is None
                    &&& exists|ni: int|
                        #![auto]
                        create_post(*old(disk), *final(disk), p, name.spec_bytes(), ni, true)
                }
            },
            Err(e) => {
                &&& same_disk(*final(disk), *old(disk))
                &&& match e {
                    Error::PathNotFound(_) => spec_resolve(
                        *old(disk),
                        path_bytes_view(*path),
                    ) is None,
                    Error::FileExist(_) => {
                        &&& spec_resolve(*old(disk), path_bytes_view(*path)) matches Some(p)
                        &&& spec_lookup(
                            spec_dir_at(
                                *old(disk),
                                spec_resolve(*old(disk), path_bytes_view(*path)).unwrap(),
                            ),
                            name.spec_bytes(),
                        ) is Some
                    },
                    Error::NoSpace => {
                        &&& spec_resolve(*old(disk), path_bytes_view(*path)) matches Some(p)
                        &&& spec_lookup(
                            spec_dir_at(
                                *old(disk),
                                spec_resolve(*old(disk), path_bytes_view(*path)).unwrap(),
                            ),
                            name.spec_bytes(),
                        ) is None
                        &&& ((forall|j: int|
                            0 <= j < INODE_COUNT ==> bm_bit(old(disk).i_bitmaps@, j))
                            || !create_room(
                            *old(disk),
                            spec_resolve(*old(disk), path_bytes_view(*path)).unwrap(),
                            name.spec_bytes(),
                            1,
                        ))
                    },
                    _ => false,
                }
            },
        },
{
    let ghost segs = path_bytes_view(*path);
    let ghost nb = name.spec_bytes();
    let (mut dir, par_inum) = match get_dir_by_path(disk, path) {
        Some(x) => x,
        None => {
            return Err(Error::PathNotFound(path.clone()));
        },
    };
    if dir.has_entry(name) {
        let current_path = path.clone().move_push(name.to_owned());
        return Err(Error::FileExist(current_path));
    }
    // All space is reserved up front: a short data region, or a missing
    // pair of free inode-bitmap words when the grown entry list first
    // needs an indirect table, fails before anything is written.
    proof {
        assert forall|q: int|
            0 <= q < dir.entries@.len() implies encode_utf8(
            (#[trigger] dir.entries@[q]).name@,
        ).len() <= u32::MAX by {
            assert(dir_view(dir)[q] == entry_view(dir.entries@[q]));
        }
    }
    let enc = serialize_dir(&dir);
    let name_bytes: &[u8] = name.as_bytes();
    let new_len = 4 + enc.len() + 23 + name_bytes.len();
    let needed = (new_len + 4095) / 4096;
    proof {
        assert(enc@.len() == spec_encode_dir(spec_dir_at(*disk, par_inum as int)).len());
        assert(needed == spec_block_count_for(new_len as u32));
    }
    let pino = get_inode(&disk.i_blocks, par_inum);
    let delta = if needed > pino.block_count as usize {
        needed - pino.block_count as usize
    } else {
        0
    };
    let free_data = count_free(&disk.d_bitmaps, DATA_BLOCK_COUNT);
    if free_data < 1 + delta {
        return Err(Error::NoSpace);
    }
    if needed > DIRECT_BLOCK_COUNT && pino.block_count as usize <= DIRECT_BLOCK_COUNT {
        if get_two_free_blocks(&disk.i_bitmaps, INDEX_BLOCK_COUNT).is_none() {
            return Err(Error::NoSpace);
        }
    }
    let inum = match get_free_item(&disk.i_bitmaps, 0..INODE_COUNT) {
        Some(i) => i,
        None => {
            return Err(Error::NoSpace);
        },
    };
    let ghost d0 = *disk;
    let ghost pv = spec_dir_at(*disk, par_inum as int);
    proof {
        crate::bitmap::lemma_word_bit_nonzero(disk.i_bitmaps@[0int], 0u32);
    }
    set_state(&mut disk.i_bitmaps, inum, true);
    let ghost d1 = *disk;
    init_dir(disk, inum);
    let ghost d2 = *disk;
    let entry = DirectoryEntry { inum: inum as u32, name: name.to_owned() };
    let ghost oldentries = dir.entries@;
    dir.entries.push(entry);
    proof {
        assert(dir_view(dir) =~= pv.push((nb, inum as u32))) by {
            let m1 = dir_view(dir);
            assert forall|q: int| 0 <= q < m1.len() implies m1[q] == pv.push((nb, inum as u32))[q]
                by {
                assert(m1[q] == entry_view(dir.entries@[q]));
                if q < oldentries.len() {
                    assert(dir.entries@[q] == oldentries[q]);
                }
            }
        }
        // The parent inode is unchanged so far, and its blocks' bits and
        // words survive the child's initialization.
        assert(par_inum != inum);
        assert(d2.i_blocks.inodes@[par_inum as int] == d0.i_blocks.inodes@[par_inum as int]);
        assert forall|k: int|
            0 <= k < d2.i_blocks.inodes@[par_inum as int].block_count implies #[trigger] spec_dnum(
            d2.i_blocks,
            par_inum as int,
            k,
        ) == spec_dnum(d0.i_blocks, par_inum as int, k) by {}
        assert(inode_wf(d2.i_blocks, d2.i_bitmaps@, d2.d_bitmaps@, par_inum as int)) by {
            let oldino = d0.i_blocks.inodes@[par_inum as int];
            assert(bm_bit(d2.i_bitmaps@, par_inum as int));
            if oldino.block_count > DIRECT_BLOCK_COUNT {
                let u = oldino.block_indirect as int / 32;
                assert(d0.i_bitmaps@[u] == 0xffff_ffffu32);
                crate::bitmap::lemma_word_extremes((inum % 32) as u32);
                assert(u != inum as int / 32);
                assert(d2.i_bitmaps@[u] == 0xffff_ffffu32);
            }
        }
        // Length of the parent's new payload.
        assert(spec_encode_dir(dir_view(dir)).len() == spec_encode_dir(pv).len() + 23
            + nb.len()) by {
            crate::dir::lemma_enc_entries_snoc(pv.push((nb, inum as u32)), pv.len() as int);
            assert(pv.push((nb, inum as u32)).take(pv.len() as int) =~= pv);
            assert(pv.push((nb, inum as u32)).take(pv.len() as int + 1) =~= pv.push(
                (nb, inum as u32),
            ));
            crate::dir::lemma_enc_entry_len(nb, inum as u32);
        }
        assert(dir_entries_wf(pv));
        assert forall|q: int|
            0 <= q < dir.entries@.len() implies encode_utf8(
            (#[trigger] dir.entries@[q]).name@,
        ).len() <= u32::MAX by {
            if q < oldentries.len() {
                assert(dir_view(dir)[q] == pv[q]);
                assert(entry_view(dir.entries@[q]).0 == pv[q].0);
            } else {
                assert(dir.entries@[q].name@ == name@);
            }
        }
        assert(spec_block_count_for((4 + spec_encode_dir(dir_view(dir)).len()) as u32)
            > d2.i_blocks.inodes@[par_inum as int].block_count ==> count_clear(
            d2.d_bitmaps@,
            DATA_BLOCK_COUNT as int,
        ) >= spec_block_count_for((4 + spec_encode_dir(dir_view(dir)).len()) as u32)
            - d2.i_blocks.inodes@[par_inum as int].block_count);
        if spec_block_count_for((4 + spec_encode_dir(dir_view(dir)).len()) as u32)
            > DIRECT_BLOCK_COUNT && d2.i_blocks.inodes@[par_inum as int].block_count
            <= DIRECT_BLOCK_COUNT {
            let (w1, w2) = choose|w1: int, w2: int|
                0 <= w1 < w2 < INDEX_BLOCK_COUNT && #[trigger] d0.i_bitmaps@[w1] == 0u32
                    && #[trigger] d0.i_bitmaps@[w2] == 0u32;
            if w1 != inum as int / 32 {
                assert(d2.i_bitmaps@[w1] == 0u32);
            } else {
                assert(d2.i_bitmaps@[w2] == 0u32);
            }
        }
    }
    write_data_struct_auto_resize(
        &mut disk.i_bitmaps,
        &mut disk.d_bitmaps,
        &mut disk.i_blocks,
        &mut disk.d_blocks,
        par_inum,
        0,
        &dir,
    );
    proof {
        let dn = spec_dnum(d2.i_blocks, inum as int, 0) as int;
        let childino = d2.i_blocks.inodes@[inum as int];
        // The child's slot, bit and payload survive the parent's write.
        assert(disk.i_blocks.inodes@[inum as int] == childino);
        assert(bm_bit(disk.i_bitmaps@, inum as int)) by {
            crate::bitmap::lemma_word_bit_nonzero(
                d2.i_bitmaps@[inum as int / 32],
                (inum % 32) as u32,
            );
            let oldino = d0.i_blocks.inodes@[par_inum as int];
            if oldino.block_count > DIRECT_BLOCK_COUNT {
                let u = oldino.block_indirect as int / 32;
                assert(d0.i_bitmaps@[u] == 0xffff_ffffu32);
                crate::bitmap::lemma_word_extremes((inum % 32) as u32);
                assert(u != inum as int / 32);
            }
        }
        assert forall|k: int|
            0 <= k < disk.i_blocks.inodes@[par_inum as int].block_count implies (
        #[trigger] spec_dnum(disk.i_blocks, par_inum as int, k)) != dn by {
            if k < d2.i_blocks.inodes@[par_inum as int].block_count {
                assert(spec_dnum(disk.i_blocks, par_inum as int, k) == spec_dnum(
                    d2.i_blocks,
                    par_inum as int,
                    k,
                ));
                assert(bm_bit(d0.d_bitmaps@, spec_dnum(d0.i_blocks, par_inum as int, k) as int));
                assert(!bm_bit(d0.d_bitmaps@, dn));
                assert(!bm_bit(d1.d_bitmaps@, dn));
            } else {
                assert(!bm_bit(d2.d_bitmaps@, spec_dnum(disk.i_blocks, par_inum as int, k) as int));
                assert(bm_bit(d2.d_bitmaps@, dn as int));
            }
        }
        assert forall|q: int|
            0 <= q < d2.d_blocks@.len() && q / 4096 == dn implies disk.d_blocks@[q]
            == d2.d_blocks@[q] by {}
        assert(spec_dnum(disk.i_blocks, inum as int, 0) == spec_dnum(d2.i_blocks, inum as int, 0))
            by {}
        assert(spec_dir_stored(disk.i_blocks, disk.d_blocks@, inum as int, 0, Seq::empty())) by {
            assert forall|j: int|
                0 <= j < 4 + spec_encode_dir(Seq::<(Seq<u8>, u32)>::empty()).len() implies
                spec_byte(disk.i_blocks, disk.d_blocks@, inum as int, j) == spec_byte(
                d2.i_blocks,
                d2.d_blocks@,
                inum as int,
                j,
            ) by {
                assert(j / 4096 == 0);
                assert(crate::data::raw_pos(disk.i_blocks, inum as int, j) / 4096 == dn);
            }
        }
        assert(inode_wf(disk.i_blocks, disk.i_bitmaps@, disk.d_bitmaps@, inum as int)) by {
            assert(bm_bit(disk.d_bitmaps@, dn as int)) by {
                assert(bm_bit(d2.d_bitmaps@, dn as int));
            }
            assert forall|k: int|
                0 <= k < childino.block_count implies (#[trigger] spec_dnum(
                disk.i_blocks,
                inum as int,
                k,
            )) < DATA_BLOCK_COUNT && bm_bit(
                disk.d_bitmaps@,
                spec_dnum(disk.i_blocks, inum as int, k) as int,
            ) by {
                assert(k == 0);
            }
        }
        // Bytes of blocks that were allocated and are not the parent's own
        // are untouched: the child's block and the parent's new blocks
        // were all free before the create.
        assert forall|q: int|
            0 <= q < d0.d_blocks@.len() && bm_bit(d0.d_bitmaps@, q / 4096) && !(exists|k: int|
                0 <= k < d0.i_blocks.inodes@[par_inum as int].block_count && (
                #[trigger] spec_dnum(d0.i_blocks, par_inum as int, k)) == q / 4096) implies
            disk.d_blocks@[q] == d0.d_blocks@[q] by {
            let dn = spec_dnum(d2.i_blocks, inum as int, 0) as int;
            assert(q / 4096 != dn);
            assert(d2.d_blocks@[q] == d0.d_blocks@[q]);
            if disk.d_blocks@[q] != d2.d_blocks@[q] {
                let k = choose|k: int|
                    0 <= k < disk.i_blocks.inodes@[par_inum as int].block_count && (
                    #[trigger] spec_dnum(disk.i_blocks, par_inum as int, k)) == q / 4096;
                if k < d2.i_blocks.inodes@[par_inum as int].block_count {
                    assert(spec_dnum(disk.i_blocks, par_inum as int, k) == spec_dnum(
                        d2.i_blocks,
                        par_inum as int,
                        k,
                    ));
                    assert(spec_dnum(d2.i_blocks, par_inum as int, k) == spec_dnum(
                        d0.i_blocks,
                        par_inum as int,
                        k,
                    ));
                } else {
                    assert(!bm_bit(d2.d_bitmaps@, q / 4096));
                }
                assert(false);
            }
        }
        // Monotone bitmaps and the free-count accounting, under parent
        // growth: nothing a create touches clears a bit that was set.
        if disk.i_blocks.inodes@[par_inum as int].block_count
            >= d0.i_blocks.inodes@[par_inum as int].block_count {
            let pino2 = d2.i_blocks.inodes@[par_inum as int];
            assert(pino2 == d0.i_blocks.inodes@[par_inum as int]);
            assert forall|j: int|
                0 <= j < INODE_COUNT && bm_bit(d0.i_bitmaps@, j) implies bm_bit(
                disk.i_bitmaps@,
                j,
            ) by {
                assert(bm_bit(d2.i_bitmaps@, j));
                let w = j / 32;
                crate::bitmap::lemma_word_bit_nonzero(d2.i_bitmaps@[w], (j % 32) as u32);
                if pino2.block_count > DIRECT_BLOCK_COUNT {
                    assert(disk.i_bitmaps@ == d2.i_bitmaps@);
                } else {
                    assert(disk.i_bitmaps@[w] == d2.i_bitmaps@[w]);
                }
            }
            assert forall|j: int|
                0 <= j < DATA_BITMAP_WORDS * 32 && bm_bit(d0.d_bitmaps@, j) implies bm_bit(
                disk.d_bitmaps@,
                j,
            ) by {
                assert(bm_bit(d2.d_bitmaps@, j));
            }
        }
        assert(create_post(d0, *disk, par_inum as int, nb, inum as int, true));
        assert(create_post(*old(disk), *disk, par_inum as int, nb, inum as int, true));
    }
    Ok(())
}


/// Create an empty file named `name` under the directory `path` names:
/// allocate the first free inode slot, initialize it, and append the
/// entry to the parent.  An image without room, counted as for a
/// directory but without the child payload block, is refused with
/// `NoSpace` before anything is written.
pub fn create_file(disk: &mut Disk, path: &Path, name: &str) -> (r: Result<u32, Error>)
    requires
        disk_lens_ok(*old(disk)),
        bm_bit(old(disk).i_bitmaps@, 0),
        resolve_ready(*old(disk), path_bytes_view(*path), 0, 0),
        crate::path::seg_bytes_valid(encode_utf8(name@)),
        encode_utf8(name@).len() <= u32::MAX,
        match spec_resolve(*old(disk), path_bytes_view(*path)) {
            Option::Some(p) => create_ready(*old(disk), p, encode_utf8(name@)),
            Option::None => true,
        },
    ensures
        disk_lens_ok(*final(disk)),
        final(disk).sb == old(disk).sb,
        match r {
            Ok(ni) => {
                &&& spec_resolve(*old(disk), path_bytes_view(*path)) matches Some(p)
                &&& {
                    let p = spec_resolve(*old(disk), path_bytes_view(*path)).unwrap();
                    &&& spec_lookup(spec_dir_at(*old(disk), p), name.spec_bytes()) is None
                    &&& create_post(
                        *old(disk),
                        *final(disk),
                        p,
                        name.spec_bytes(),
                        ni as int,
                        false,
                    )
                }
            },
            Err(e) => {
                &&& same_disk(*final(disk), *old(disk))
                &&& match e {
                    Error::PathNotFound(_) => spec_resolve(
                        *old(disk),
                        path_bytes_view(*path),
                    ) is None,
                    Error::FileExist(_) => {
                        &&& spec_resolve(*old(disk), path_bytes_view(*path)) matches Some(p)
                        &&& spec_lookup(
                            spec_dir_at(
                                *old(disk),
                                spec_resolve(*old(disk), path_bytes_view(*path)).unwrap(),
                            ),
                            name.spec_bytes(),
                        ) is Some
                    },
                    Error::NoSpace => {
                        &&& spec_resolve(*old(disk), path_bytes_view(*path)) matches Some(p)
                        &&& spec_lookup(
                            spec_dir_at(
                                *old(disk),
                                spec_resolve(*old(disk), path_bytes_view(*path)).unwrap(),
                            ),
                            name.spec_bytes(),
                        ) is None
                        &&& ((forall|j: int|
                            0 <= j < INODE_COUNT ==> bm_bit(old(disk).i_bitmaps@, j))
                            || !create_room(
                            *old(disk),
                            spec_resolve(*old(disk), path_bytes_view(*path)).unwrap(),
                            name.spec_bytes(),
                            0,
                        ))
                    },
                    _ => false,
                }
            },
        },
{
    let ghost segs = path_bytes_view(*path);
    let ghost nb = name.spec_bytes();
    let (mut dir, par_inum) = match get_dir_by_path(disk, path) {
        Some(x) => x,
        None => {
            return Err(Error::PathNotFound(path.clone()));
        },
    };
    if dir.has_entry(name) {
        let current_path = path.clone().move_push(name.to_owned());
        return Err(Error::FileExist(current_path));
    }
    // All space is reserved up front: a short data region, or a missing
    // pair of free inode-bitmap words when the grown entry list first
    // needs an indirect table, fails before anything is written.
    proof {
        assert forall|q: int|
            0 <= q < dir.entries@.len() implies encode_utf8(
            (#[trigger] dir.entries@[q]).name@,
        ).len() <= u32::MAX by {
            assert(dir_view(dir)[q] == entry_view(dir.entries@[q]));
        }
    }
    let enc = serialize_dir(&dir);
    let name_bytes: &[u8] = name.as_bytes();
    let new_len = 4 + enc.len() + 23 + name_bytes.len();
    let needed = (new_len + 4095) / 4096;
    proof {
        assert(enc@.len() == spec_encode_dir(spec_dir_at(*disk, par_inum as int)).len());
        assert(needed == spec_block_count_for(new_len as u32));
    }
    let pino = get_inode(&disk.i_blocks, par_inum);
    let delta = if needed > pino.block_count as usize {
        needed - pino.block_count as usize
    } else {
        0
    };
    let free_data = count_free(&disk.d_bitmaps, DATA_BLOCK_COUNT);
    if free_data < delta {
        return Err(Error::NoSpace);
    }
    if needed > DIRECT_BLOCK_COUNT && pino.block_count as usize <= DIRECT_BLOCK_COUNT {
        if get_two_free_blocks(&disk.i_bitmaps, INDEX_BLOCK_COUNT).is_none() {
            return Err(Error::NoSpace);
        }
    }
    let inum = match get_free_item(&disk.i_bitmaps, 0..INODE_COUNT) {
        Some(i) => i,
        None => {
            return Err(Error::NoSpace);
        },
    };
    let ghost d0 = *disk;
    let ghost pv = spec_dir_at(*disk, par_inum as int);
    proof {
        crate::bitmap::lemma_word_bit_nonzero(disk.i_bitmaps@[0int], 0u32);
    }
    set_state(&mut disk.i_bitmaps, inum, true);
    init_file(disk, inum);
    let ghost d2 = *disk;
    let entry = DirectoryEntry { inum: inum as u32, name: name.to_owned() };
    let ghost oldentries = dir.entries@;
    dir.entries.push(entry);
    proof {
        assert(dir_view(dir) =~= pv.push((nb, inum as u32))) by {
            let m1 = dir_view(dir);
            assert forall|q: int| 0 <= q < m1.len() implies m1[q] == pv.push((nb, inum as u32))[q]
                by {
                assert(m1[q] == entry_view(dir.entries@[q]));
                if q < oldentries.len() {
                    assert(dir.entries@[q] == oldentries[q]);
                }
            }
        }
        assert(par_inum != inum);
        assert(d2.i_blocks.inodes@[par_inum as int] == d0.i_blocks.inodes@[par_inum as int]);
        assert forall|k: int|
            0 <= k < d2.i_blocks.inodes@[par_inum as int].block_count implies #[trigger] spec_dnum(
            d2.i_blocks,
            par_inum as int,
            k,
        ) == spec_dnum(d0.i_blocks, par_inum as int, k) by {}
        assert(inode_wf(d2.i_blocks, d2.i_bitmaps@, d2.d_bitmaps@, par_inum as int)) by {
            let oldino = d0.i_blocks.inodes@[par_inum as int];
            assert(bm_bit(d2.i_bitmaps@, par_inum as int));
            if oldino.block_count > DIRECT_BLOCK_COUNT {
                let u = oldino.block_indirect as int / 32;
                assert(d0.i_bitmaps@[u] == 0xffff_ffffu32);
                crate::bitmap::lemma_word_extremes((inum % 32) as u32);
                assert(u != inum as int / 32);
                assert(d2.i_bitmaps@[u] == 0xffff_ffffu32);
            }
        }
        assert(spec_encode_dir(dir_view(dir)).len() == spec_encode_dir(pv).len() + 23
            + nb.len()) by {
            crate::dir::lemma_enc_entries_snoc(pv.push((nb, inum as u32)), pv.len() as int);
            assert(pv.push((nb, inum as u32)).take(pv.len() as int) =~= pv);
            assert(pv.push((nb, inum as u32)).take(pv.len() as int + 1) =~= pv.push(
                (nb, inum as u32),
            ));
            crate::dir::lemma_enc_entry_len(nb, inum as u32);
        }
        assert(dir_entries_wf(pv));
        assert forall|q: int|
            0 <= q < dir.entries@.len() implies encode_utf8(
            (#[trigger] dir.entries@[q]).name@,
        ).len() <= u32::MAX by {
            if q < oldentries.len() {
                assert(dir_view(dir)[q] == pv[q]);
                assert(entry_view(dir.entries@[q]).0 == pv[q].0);
            } else {
                assert(dir.entries@[q].name@ == name@);
            }
        }
        if spec_block_count_for((4 + spec_encode_dir(dir_view(dir)).len()) as u32)
            > DIRECT_BLOCK_COUNT && d2.i_blocks.inodes@[par_inum as int].block_count
            <= DIRECT_BLOCK_COUNT {
            let (w1, w2) = choose|w1: int, w2: int|
                0 <= w1 < w2 < INDEX_BLOCK_COUNT && #[trigger] d0.i_bitmaps@[w1] == 0u32
                    && #[trigger] d0.i_bitmaps@[w2] == 0u32;
            if w1 != inum as int / 32 {
                assert(d2.i_bitmaps@[w1] == 0u32);
            } else {
                assert(d2.i_bitmaps@[w2] == 0u32);
            }
        }
    }
    write_data_struct_auto_resize(
        &mut disk.i_bitmaps,
        &mut disk.d_bitmaps,
        &mut disk.i_blocks,
        &mut disk.d_blocks,
        par_inum,
        0,
        &dir,
    );
    proof {
        assert(disk.i_blocks.inodes@[inum as int] == d2.i_blocks.inodes@[inum as int]);
        assert(bm_bit(disk.i_bitmaps@, inum as int)) by {
            crate::bitmap::lemma_word_bit_nonzero(
                d2.i_bitmaps@[inum as int / 32],
                (inum % 32) as u32,
            );
            let oldino = d0.i_blocks.inodes@[par_inum as int];
            if oldino.block_count > DIRECT_BLOCK_COUNT {
                let u = oldino.block_indirect as int / 32;
                assert(d0.i_bitmaps@[u] == 0xffff_ffffu32);
                crate::bitmap::lemma_word_extremes((inum % 32) as u32);
                assert(u != inum as int / 32);
            }
        }
        // Bytes of blocks that were allocated and are not the parent's own
        // are untouched: the parent's new blocks were all free before the
        // create, and a fresh file takes no block.
        assert forall|q: int|
            0 <= q < old(disk).d_blocks@.len() && bm_bit(old(disk).d_bitmaps@, q / 4096) && !(exists|k: int|
                0 <= k < old(disk).i_blocks.inodes@[par_inum as int].block_count && (
                #[trigger] spec_dnum(old(disk).i_blocks, par_inum as int, k)) == q / 4096) implies
            disk.d_blocks@[q] == old(disk).d_blocks@[q] by {
            assert(d2.d_blocks@[q] == old(disk).d_blocks@[q]);
            if disk.d_blocks@[q] != d2.d_blocks@[q] {
                let k = choose|k: int|
                    0 <= k < disk.i_blocks.inodes@[par_inum as int].block_count && (
                    #[trigger] spec_dnum(disk.i_blocks, par_inum as int, k)) == q / 4096;
                if k < d2.i_blocks.inodes@[par_inum as int].block_count {
                    assert(spec_dnum(disk.i_blocks, par_inum as int, k) == spec_dnum(
                        d2.i_blocks,
                        par_inum as int,
                        k,
                    ));
                    assert(spec_dnum(d2.i_blocks, par_inum as int, k) == spec_dnum(
                        old(disk).i_blocks,
                        par_inum as int,
                        k,
                    ));
                } else {
                    assert(!bm_bit(d2.d_bitmaps@, q / 4096));
                }
                assert(false);
            }
        }
        // Monotone bitmaps and the free-count accounting, under parent
        // growth: nothing a create touches clears a bit that was set.
        if disk.i_blocks.inodes@[par_inum as int].block_count
            >= old(disk).i_blocks.inodes@[par_inum as int].block_count {
            let pino2 = d2.i_blocks.inodes@[par_inum as int];
            assert(pino2 == old(disk).i_blocks.inodes@[par_inum as int]);
            assert forall|j: int|
                0 <= j < INODE_COUNT && bm_bit(old(disk).i_bitmaps@, j) implies bm_bit(
                disk.i_bitmaps@,
                j,
            ) by {
                assert(bm_bit(d2.i_bitmaps@, j));
                let w = j / 32;
                crate::bitmap::lemma_word_bit_nonzero(d2.i_bitmaps@[w], (j % 32) as u32);
                if pino2.block_count > DIRECT_BLOCK_COUNT {
                    assert(disk.i_bitmaps@ == d2.i_bitmaps@);
                } else {
                    assert(disk.i_bitmaps@[w] == d2.i_bitmaps@[w]);
                }
            }
            assert forall|j: int|
                0 <= j < DATA_BITMAP_WORDS * 32 && bm_bit(old(disk).d_bitmaps@, j) implies bm_bit(
                disk.d_bitmaps@,
                j,
            ) by {
                assert(bm_bit(d2.d_bitmaps@, j));
            }
        }
        assert(create_post(*old(disk), *disk, par_inum as int, nb, inum as int, false));
    }
    Ok(inum as u32)
}

/// Read the entries of the directory a path names; `InvalidFileType` for
/// anything else, `PathNotFound` for nothing.
pub fn get_dir(disk: &Disk, path: &Path) -> (r: Result<DirectoryData, Error>)
    requires
        disk_lens_ok(*disk),
        resolve_ready(*disk, path_bytes_view(*path), 0, 0),
        match spec_resolve(*disk, path_bytes_view(*path)) {
            Option::Some(p) => disk.i_blocks.inodes@[p].is_dir ==> dir_readable(*disk, p),
            Option::None => true,
        },
    ensures
        match r {
            Ok(dd) => {
                &&& spec_resolve(*disk, path_bytes_view(*path)) matches Some(p)
                &&& disk.i_blocks.inodes@[spec_resolve(
                    *disk,
                    path_bytes_view(*path),
                ).unwrap()].is_dir
                &&& dir_view(dd) == spec_dir_at(
                    *disk,
                    spec_resolve(*disk, path_bytes_view(*path)).unwrap(),
                )
                &&& dir_entries_wf(dir_view(dd))
            },
            Err(Error::PathNotFound(_)) => spec_resolve(*disk, path_bytes_view(*path)) is None,
            Err(Error::InvalidFileType) => {
                &&& spec_resolve(*disk, path_bytes_view(*path)) matches Some(p)
                &&& !disk.i_blocks.inodes@[spec_resolve(
                    *disk,
                    path_bytes_view(*path),
                ).unwrap()].is_dir
            },
            Err(_) => false,
        },
{
    match is_dir(disk, path) {
        Ok(b) => {
            if !b {
                return Err(Error::InvalidFileType);
            }
        },
        Err(e) => {
            return Err(e);
        },
    }
    match get_dir_by_path(disk, path) {
        Some((dd, _)) => Ok(dd),
        None => Err(Error::PathNotFound(path.clone())),
    }
}

/// Whether the directory a path names has no entries.
pub fn dir_is_empty(disk: &Disk, path: &Path) -> (r: Result<bool, Error>)
    requires
        disk_lens_ok(*disk),
        resolve_ready(*disk, path_bytes_view(*path), 0, 0),
        match spec_resolve(*disk, path_bytes_view(*path)) {
            Option::Some(p) => disk.i_blocks.inodes@[p].is_dir ==> dir_readable(*disk, p),
            Option::None => true,
        },
    ensures
        match r {
            Ok(b) => {
                &&& spec_resolve(*disk, path_bytes_view(*path)) matches Some(p)
                &&& disk.i_blocks.inodes@[spec_resolve(
                    *disk,
                    path_bytes_view(*path),
                ).unwrap()].is_dir
                &&& b == (spec_dir_at(
                    *disk,
                    spec_resolve(*disk, path_bytes_view(*path)).unwrap(),
                ).len() == 0)
            },
            Err(Error::PathNotFound(_)) => spec_resolve(*disk, path_bytes_view(*path)) is None,
            Err(Error::InvalidFileType) => {
                &&& spec_resolve(*disk, path_bytes_view(*path)) matches Some(p)
                &&& !disk.i_blocks.inodes@[spec_resolve(
                    *disk,
                    path_bytes_view(*path),
                ).unwrap()].is_dir
            },
            Err(_) => false,
        },
{
    let dir = match get_dir(disk, path) {
        Ok(d) => d,
        Err(e) => {
            return Err(e);
        },
    };
    Ok(dir.entries.len() == 0)
}

/// Read `buf.len()` bytes of the file a path names, starting at byte
/// `start_pos`; the range must lie within the file.
pub fn read_file(
    disk: &Disk,
    path: &Path,
    start_pos: usize,
    buf: &mut Vec<u8>,
) -> (r: Result<(), Error>)
    requires
        disk_lens_ok(*disk),
        resolve_ready(*disk, path_bytes_view(*path), 0, 0),
        match spec_resolve(*disk, path_bytes_view(*path)) {
            Option::Some(t) => !disk.i_blocks.inodes@[t].is_dir ==> inode_readable(
                disk.i_blocks,
                t,
            ) && start_pos + old(buf)@.len() <= disk.i_blocks.inodes@[t].size,
            Option::None => true,
        },
    ensures
        final(buf)@.len() == old(buf)@.len(),
        match r {
            Ok(_) => {
                &&& spec_resolve(*disk, path_bytes_view(*path)) matches Some(t)
                &&& !disk.i_blocks.inodes@[spec_resolve(
                    *disk,
                    path_bytes_view(*path),
                ).unwrap()].is_dir
                &&& forall|i: int|
                    0 <= i < old(buf)@.len() ==> final(buf)@[i] == spec_byte(
                        disk.i_blocks,
                        disk.d_blocks@,
                        spec_resolve(*disk, path_bytes_view(*path)).unwrap(),
                        start_pos + i,
                    )
            },
            Err(e) => {
                &&& e is PathNotFound
                &&& (spec_resolve(*disk, path_bytes_view(*path)) is None || disk.i_blocks.inodes@[
                    spec_resolve(*disk, path_bytes_view(*path)).unwrap()].is_dir)
            },
        },
{
    let inum = match get_inum_by_path(disk, path) {
        Some(i) => i,
        None => {
            return Err(Error::PathNotFound(path.clone()));
        },
    };
    let inode = get_inode(&disk.i_blocks, inum);
    if inode.is_dir {
        return Err(Error::PathNotFound(path.clone()));
    }
    read_data(&disk.d_blocks, &disk.i_blocks, inum, start_pos, buf);
    Ok(())
}

/// Write all of `buf` into the file a path names, starting at byte
/// `start_pos`, resizing the file to end exactly where the write does.
/// An image without the data blocks the new extent needs, or without a
/// free index word when the extent first crosses the direct slots, is
/// refused with `NoSpace` before anything is written.
pub fn write_file(
    disk: &mut Disk,
    path: &Path,
    start_pos: usize,
    buf: &Vec<u8>,
) -> (r: Result<(), Error>)
    requires
        disk_lens_ok(*old(disk)),
        bm_bit(old(disk).i_bitmaps@, 0),
        resolve_ready(*old(disk), path_bytes_view(*path), 0, 0),
        start_pos + buf@.len() <= MAX_FILE_BLOCKS * ALIGN_SIZE,
        match spec_resolve(*old(disk), path_bytes_view(*path)) {
            Option::Some(t) => !old(disk).i_blocks.inodes@[t].is_dir ==> inode_wf(
                old(disk).i_blocks,
                old(disk).i_bitmaps@,
                old(disk).d_bitmaps@,
                t,
            ),
            Option::None => true,
        },
    ensures
        disk_lens_ok(*final(disk)),
        final(disk).sb == old(disk).sb,
        match r {
            Ok(_) => {
                &&& spec_resolve(*old(disk), path_bytes_view(*path)) matches Some(t)
                &&& {
                    let t = spec_resolve(*old(disk), path_bytes_view(*path)).unwrap();
                    &&& !old(disk).i_blocks.inodes@[t].is_dir
                    &&& inode_wf(
                        final(disk).i_blocks,
                        final(disk).i_bitmaps@,
                        final(disk).d_bitmaps@,
                        t,
                    )
                    &&& final(disk).i_blocks.inodes@[t].size == start_pos + buf@.len()
                    &&& final(disk).i_blocks.inodes@[t].block_count == spec_block_count_for(
                        (start_pos + buf@.len()) as u32,
                    )
                    &&& forall|i: int|
                        0 <= i < buf@.len() ==> spec_byte(
                            final(disk).i_blocks,
                            final(disk).d_blocks@,
                            t,
                            start_pos + i,
                        ) == buf@[i]
                    &&& forall|p2: int|
                        0 <= p2 < start_pos && p2 < old(disk).i_blocks.inodes@[t].size
                            ==> spec_byte(final(disk).i_blocks, final(disk).d_blocks@, t, p2)
                                == spec_byte(old(disk).i_blocks, old(disk).d_blocks@, t, p2)
                    &&& forall|j: int|
                        0 <= j < INODE_COUNT && j != t ==> final(disk).i_blocks.inodes@[j] == old(
                            disk,
                        ).i_blocks.inodes@[j]
                    &&& (final(disk).i_blocks.inodes@[t].block_count >= old(
                        disk,
                    ).i_blocks.inodes@[t].block_count ==> crate::grow::dbm_extended(
                        final(disk).i_blocks,
                        final(disk).d_bitmaps@,
                        old(disk).d_bitmaps@,
                        t,
                        old(disk).i_blocks.inodes@[t].block_count as int,
                        final(disk).i_blocks.inodes@[t].block_count as int,
                    ) && crate::grow::dbm_first_fit(
                        final(disk).i_blocks,
                        old(disk).d_bitmaps@,
                        t,
                        old(disk).i_blocks.inodes@[t].block_count as int,
                        final(disk).i_blocks.inodes@[t].block_count as int,
                    ))
                    &&& count_clear(final(disk).d_bitmaps@, DATA_BLOCK_COUNT as int)
                        == count_clear(old(disk).d_bitmaps@, DATA_BLOCK_COUNT as int) - (
                    final(disk).i_blocks.inodes@[t].block_count
                        - old(disk).i_blocks.inodes@[t].block_count)
                    &&& forall|k: int|
                        0 <= k < final(disk).i_blocks.inodes@[t].block_count && k < old(
                            disk,
                        ).i_blocks.inodes@[t].block_count ==> spec_dnum(
                            final(disk).i_blocks,
                            t,
                            k,
                        ) == spec_dnum(old(disk).i_blocks, t, k)
                    &&& ((final(disk).i_blocks.inodes@[t].block_count > DIRECT_BLOCK_COUNT && old(
                        disk,
                    ).i_blocks.inodes@[t].block_count <= DIRECT_BLOCK_COUNT) ==> {
                        let w0 = final(disk).i_blocks.inodes@[t].block_indirect as int / 32;
                        &&& old(disk).i_bitmaps@[w0] == 0u32
                        &&& final(disk).i_bitmaps@[w0] == 0xffff_ffffu32
                        &&& (forall|w: int| 0 <= w < w0 ==> old(disk).i_bitmaps@[w] != 0u32)
                        &&& forall|w: int|
                            0 <= w < INDEX_BITMAP_WORDS && w != w0 ==> final(disk).i_bitmaps@[w]
                                == old(disk).i_bitmaps@[w]
                    })
                }
            },
            Err(e) => {
                &&& same_disk(*final(disk), *old(disk))
                &&& match e {
                    Error::PathNotFound(_) => spec_resolve(
                        *old(disk),
                        path_bytes_view(*path),
                    ) is None || old(disk).i_blocks.inodes@[spec_resolve(
                        *old(disk),
                        path_bytes_view(*path),
                    ).unwrap()].is_dir,
                    Error::NoSpace => {
                        &&& spec_resolve(*old(disk), path_bytes_view(*path)) matches Some(t)
                        &&& !old(disk).i_blocks.inodes@[spec_resolve(
                            *old(disk),
                            path_bytes_view(*path),
                        ).unwrap()].is_dir
                        &&& !write_room(
                            *old(disk),
                            spec_resolve(*old(disk), path_bytes_view(*path)).unwrap(),
                            start_pos + buf@.len(),
                        )
                    },
                    _ => false,
                }
            },
        },
{
    let inum = match get_inum_by_path(disk, path) {
        Some(i) => i,
        None => {
            return Err(Error::PathNotFound(path.clone()));
        },
    };
    let inode = get_inode(&disk.i_blocks, inum);
    if inode.is_dir {
        return Err(Error::PathNotFound(path.clone()));
    }
    // All space is reserved up front: a short data region, or a missing
    // free inode-bitmap word when the new extent first needs an indirect
    // table, fails before anything is written.
    let end = start_pos + buf.len();
    let needed = (end + 4095) / 4096;
    if needed > inode.block_count as usize {
        let free_data = count_free(&disk.d_bitmaps, DATA_BLOCK_COUNT);
        if free_data < needed - inode.block_count as usize {
            return Err(Error::NoSpace);
        }
    }
    if needed > DIRECT_BLOCK_COUNT && inode.block_count as usize <= DIRECT_BLOCK_COUNT {
        match get_free_block(&disk.i_bitmaps, 0..INDEX_BLOCK_COUNT) {
            Some(_) => {},
            None => {
                return Err(Error::NoSpace);
            },
        }
    }
    write_data_auto_resize(
        &mut disk.i_bitmaps,
        &mut disk.d_bitmaps,
        &mut disk.i_blocks,
        &mut disk.d_blocks,
        inum,
        start_pos,
        buf,
    );
    Ok(())
}


/// The entry list with every entry dropped whose inum's bitmap bit is
/// clear.
pub open spec fn spec_compact(ibm: Seq<u32>, s: Seq<(Seq<u8>, u32)>) -> Seq<(Seq<u8>, u32)>
    decreases s.len(),
{
    if s.len() == 0 {
        Seq::empty()
    } else {
        let rest = spec_compact(ibm, s.drop_first());
        if bm_bit(ibm, s[0].1 as int) {
            seq![s[0]] + rest
        } else {
            rest
        }
    }
}

/// Compacting one more entry appends it exactly when its bit is set.
pub proof fn lemma_compact_snoc(ibm: Seq<u32>, s: Seq<(Seq<u8>, u32)>, k: int)
    requires
        0 <= k < s.len(),
    ensures
        spec_compact(ibm, s.take(k + 1)) =~= spec_compact(ibm, s.take(k)) + (if bm_bit(
            ibm,
            s[k].1 as int,
        ) {
            seq![s[k]]
        } else {
            Seq::empty()
        }),
    decreases k,
{
    if k == 0 {
        assert(s.take(1).drop_first() =~= Seq::<(Seq<u8>, u32)>::empty());
        assert(s.take(1)[0] == s[0]);
        assert(s.take(0) =~= Seq::<(Seq<u8>, u32)>::empty());
    } else {
        lemma_compact_snoc(ibm, s.drop_first(), k - 1);
        assert(s.take(k + 1).drop_first() =~= s.drop_first().take(k));
        assert(s.take(k).drop_first() =~= s.drop_first().take(k - 1));
        assert(s.take(k + 1)[0] == s[0]);
        assert(s.take(k)[0] == s[0]);
        assert(s.drop_first()[k - 1] == s[k]);
    }
}

/// Every compacted entry is one of the original entries.
pub proof fn lemma_compact_sub(ibm: Seq<u32>, s: Seq<(Seq<u8>, u32)>)
    ensures
        forall|k: int|
            0 <= k < spec_compact(ibm, s).len() ==> exists|j: int|
                0 <= j < s.len() && (#[trigger] spec_compact(ibm, s)[k]) == s[j],
    decreases s.len(),
{
    if s.len() > 0 {
        lemma_compact_sub(ibm, s.drop_first());
        assert forall|k: int| 0 <= k < spec_compact(ibm, s).len() implies exists|j: int|
            0 <= j < s.len() && (#[trigger] spec_compact(ibm, s)[k]) == s[j] by {
            let c = spec_compact(ibm, s);
            let rest = spec_compact(ibm, s.drop_first());
            if bm_bit(ibm, s[0].1 as int) {
                if k == 0 {
                    assert(c[0] == s[0]);
                } else {
                    let j = choose|j: int|
                        0 <= j < s.drop_first().len() && (#[trigger] rest[k - 1]) == s.drop_first(
                        )[j];
                    assert(c[k] == s[j + 1]);
                }
            } else {
                let j = choose|j: int|
                    0 <= j < s.drop_first().len() && (#[trigger] rest[k]) == s.drop_first()[j];
                assert(c[k] == s[j + 1]);
            }
        }
    }
}

/// Compacting never lengthens the serialized payload.
pub proof fn lemma_compact_enc_len(ibm: Seq<u32>, s: Seq<(Seq<u8>, u32)>)
    ensures
        crate::dir::spec_enc_entries(spec_compact(ibm, s)).len()
            <= crate::dir::spec_enc_entries(s).len(),
    decreases s.len(),
{
    if s.len() > 0 {
        lemma_compact_enc_len(ibm, s.drop_first());
        let rest = spec_compact(ibm, s.drop_first());
        if bm_bit(ibm, s[0].1 as int) {
            assert((seq![s[0]] + rest).drop_first() =~= rest);
            assert(crate::dir::spec_enc_entries(seq![s[0]] + rest)
                == crate::dir::spec_enc_entry((seq![s[0]] + rest)[0].0, (seq![s[0]] + rest)[0].1)
                + crate::dir::spec_enc_entries(rest));
        }
    }
}

/// Walking to a path's parent: if the whole path resolves, so does the
/// path without its last segment, to a readable directory whose entry
/// list carries the last segment.
pub proof fn lemma_resolve_parent(d: Disk, segs: Seq<Seq<u8>>, i: int, cur: int)
    requires
        0 <= i < segs.len(),
        resolve_ready(d, segs, i, cur),
        spec_resolve_from(d, segs, i, cur) is Some,
    ensures
        resolve_ready(d, segs.drop_last(), i, cur),
        spec_resolve_from(d, segs.drop_last(), i, cur) is Some,
        ({
            let p = spec_resolve_from(d, segs.drop_last(), i, cur).unwrap();
            &&& dir_readable(d, p)
            &&& spec_lookup(spec_dir_at(d, p), segs.last()) == Some(
                spec_resolve_from(d, segs, i, cur).unwrap() as u32,
            )
            &&& spec_resolve_from(d, segs, i, cur).unwrap() < INODE_COUNT
        }),
    decreases segs.len() - i,
{
    if i == segs.len() - 1 {
        assert(spec_resolve_from(d, segs.drop_last(), i, cur) == Some(cur));
        assert(dir_readable(d, cur));
        match spec_lookup(spec_dir_at(d, cur), segs[i]) {
            Option::None => {
                assert(false);
            },
            Option::Some(n) => {
                assert(spec_resolve_from(d, segs, i, cur) == Some(n as int));
            },
        }
    } else {
        assert(segs.drop_last()[i] == segs[i]);
        match spec_lookup(spec_dir_at(d, cur), segs[i]) {
            Option::None => {
                assert(false);
            },
            Option::Some(n) => {
                lemma_resolve_parent(d, segs, i + 1, n as int);
            },
        }
    }
}

/// What must hold of a parent directory `p` and a doomed inode `t` for a
/// delete to free `t` and rewrite `p`: the two own no block in common and
/// share no indirect unit, and `t`'s unit does not cover `p`'s own bit.
pub open spec fn delete_ready(d: Disk, p: int, t: int) -> bool {
    let pino = d.i_blocks.inodes@[p];
    let tino = d.i_blocks.inodes@[t];
    &&& dir_readable(d, p)
    &&& inode_wf(d.i_blocks, d.i_bitmaps@, d.d_bitmaps@, p)
    &&& inode_wf(d.i_blocks, d.i_bitmaps@, d.d_bitmaps@, t)
    &&& forall|k: int|
        0 <= k < spec_dir_at(d, p).len() ==> (#[trigger] spec_dir_at(d, p)[k]).1 < INODE_COUNT
    &&& forall|k1: int, k2: int|
        0 <= k1 < pino.block_count && 0 <= k2 < tino.block_count ==> spec_dnum(
            d.i_blocks,
            p,
            k1,
        ) != spec_dnum(d.i_blocks, t, k2)
    &&& (tino.block_count > DIRECT_BLOCK_COUNT ==> {
        &&& p / 32 != tino.block_indirect as int / 32
        &&& (pino.block_count > DIRECT_BLOCK_COUNT ==> pino.block_indirect as int / 32
            != tino.block_indirect as int / 32)
        &&& 0 != tino.block_indirect as int / 32
    })
    &&& (pino.block_count > DIRECT_BLOCK_COUNT ==> t / 32 != pino.block_indirect as int / 32)
}

/// What a successful delete leaves behind: inode `t` zeroed and its
/// bitmap bit clear, and parent `p` rewritten with exactly the entries
/// whose inodes are still allocated after the free.
pub open spec fn delete_post(oldd: Disk, newd: Disk, p: int, t: int) -> bool {
    let ibm1 = crate::shrink::spec_ibm_after_free(
        oldd.i_bitmaps@,
        oldd.i_blocks.inodes@[t],
        t,
    );
    &&& newd.i_blocks.inodes@[t] == crate::repr::spec_zero_inode()
    &&& !bm_bit(newd.i_bitmaps@, t)
    &&& spec_dir_stored(
        newd.i_blocks,
        newd.d_blocks@,
        p,
        0,
        spec_compact(ibm1, spec_dir_at(oldd, p)),
    )
    &&& inode_wf(newd.i_blocks, newd.i_bitmaps@, newd.d_bitmaps@, p)
    &&& newd.i_blocks.inodes@[p].is_dir == oldd.i_blocks.inodes@[p].is_dir
    &&& forall|j: int|
        0 <= j < INODE_COUNT && j != t && j != p ==> newd.i_blocks.inodes@[j]
            == oldd.i_blocks.inodes@[j]
    &&& forall|k: int|
        0 <= k < oldd.i_blocks.inodes@[t].block_count ==> !bm_bit(
            newd.d_bitmaps@,
            spec_dnum(oldd.i_blocks, t, k) as int,
        )
    &&& newd.sb == oldd.sb
    &&& forall|j: int|
        0 <= j < DATA_BITMAP_WORDS * 32 && !bm_bit(oldd.d_bitmaps@, j) ==> !bm_bit(
            newd.d_bitmaps@,
            j,
        )
    &&& forall|q: int|
        0 <= q < oldd.d_blocks@.len() && !(exists|k: int|
            0 <= k < oldd.i_blocks.inodes@[p].block_count && (#[trigger] spec_dnum(
                oldd.i_blocks,
                p,
                k,
            )) == q / 4096) ==> #[trigger] newd.d_blocks@[q] == oldd.d_blocks@[q]
}


/// Rewrite directory `inum` with the entries of `dir` whose inodes are
/// still allocated, dropping the rest; the compacted payload never
/// outgrows the old one.
fn compact_and_write(disk: &mut Disk, inum: usize, dir: &DirectoryData)
    requires
        disk_lens_ok(*old(disk)),
        bm_bit(old(disk).i_bitmaps@, 0),
        inum < INODE_COUNT,
        dir_entries_wf(dir_view(*dir)),
        forall|k: int|
            0 <= k < dir.entries@.len() ==> encode_utf8(
                (#[trigger] dir.entries@[k]).name@,
            ).len() <= u32::MAX,
        forall|k: int|
            0 <= k < dir_view(*dir).len() ==> (#[trigger] dir_view(*dir)[k]).1 < INODE_COUNT,
        inode_wf(old(disk).i_blocks, old(disk).i_bitmaps@, old(disk).d_bitmaps@, inum as int),
        4 + spec_encode_dir(dir_view(*dir)).len() <= old(disk).i_blocks.inodes@[inum as int].size,
    ensures
        disk_lens_ok(*final(disk)),
        final(disk).sb == old(disk).sb,
        spec_dir_stored(
            final(disk).i_blocks,
            final(disk).d_blocks@,
            inum as int,
            0,
            spec_compact(old(disk).i_bitmaps@, dir_view(*dir)),
        ),
        dir_entries_wf(spec_compact(old(disk).i_bitmaps@, dir_view(*dir))),
        inode_wf(
            final(disk).i_blocks,
            final(disk).i_bitmaps@,
            final(disk).d_bitmaps@,
            inum as int,
        ),
        final(disk).i_blocks.inodes@[inum as int].is_dir == old(
            disk,
        ).i_blocks.inodes@[inum as int].is_dir,
        forall|j: int|
            0 <= j < INODE_COUNT && j != inum ==> final(disk).i_blocks.inodes@[j] == old(
                disk,
            ).i_blocks.inodes@[j],
        forall|j: int|
            0 <= j < DATA_BITMAP_WORDS * 32 && !bm_bit(old(disk).d_bitmaps@, j) ==> !bm_bit(
                final(disk).d_bitmaps@,
                j,
            ),
        forall|j: int|
            0 <= j < INDEX_BITMAP_WORDS * 32 && !bm_bit(old(disk).i_bitmaps@, j) ==> !bm_bit(
                final(disk).i_bitmaps@,
                j,
            ),
        final(disk).i_blocks.inodes@[inum as int].block_count <= old(
            disk,
        ).i_blocks.inodes@[inum as int].block_count,
        forall|k: int|
            0 <= k < final(disk).i_blocks.inodes@[inum as int].block_count ==> spec_dnum(
                final(disk).i_blocks,
                inum as int,
                k,
            ) == spec_dnum(old(disk).i_blocks, inum as int, k),
        forall|q: int|
            0 <= q < old(disk).d_blocks@.len() && !(exists|k: int|
                0 <= k < final(disk).i_blocks.inodes@[inum as int].block_count && (
                #[trigger] spec_dnum(final(disk).i_blocks, inum as int, k)) == q / 4096)
                ==> #[trigger] final(disk).d_blocks@[q] == old(disk).d_blocks@[q],
{
    let ghost pv = dir_view(*dir);
    let ghost ibm0 = disk.i_bitmaps@;
    let mut filtered: Vec<DirectoryEntry> = Vec::new();
    let n = dir.entries.len();
    let mut k: usize = 0;
    while k < n
        invariant
            disk_lens_ok(*disk),
            *disk == *old(disk),
            ibm0 == disk.i_bitmaps@,
            pv == dir_view(*dir),
            dir_entries_wf(pv),
            forall|q: int|
                0 <= q < dir.entries@.len() ==> encode_utf8(
                    (#[trigger] dir.entries@[q]).name@,
                ).len() <= u32::MAX,
            forall|q: int| 0 <= q < pv.len() ==> (#[trigger] pv[q]).1 < INODE_COUNT,
            n == dir.entries@.len(),
            0 <= k <= n,
            filtered@.map(|i: int, e2: DirectoryEntry| entry_view(e2)) =~= spec_compact(
                ibm0,
                pv.take(k as int),
            ),
            forall|q: int|
                0 <= q < filtered@.len() ==> encode_utf8(
                    (#[trigger] filtered@[q]).name@,
                ).len() <= u32::MAX,
        decreases n - k,
    {
        let e = &dir.entries[k];
        proof {
            assert(pv[k as int] == entry_view(dir.entries@[k as int]));
            lemma_compact_snoc(ibm0, pv, k as int);
        }
        let ghost oldf = filtered@;
        if get_state(&disk.i_bitmaps, e.inum as usize) {
            let copy = DirectoryEntry { name: e.name.clone(), inum: e.inum };
            filtered.push(copy);
            proof {
                let m1 = filtered@.map(|i: int, e2: DirectoryEntry| entry_view(e2));
                let m0 = oldf.map(|i: int, e2: DirectoryEntry| entry_view(e2));
                assert(m1 =~= m0.push(pv[k as int])) by {
                    assert forall|q: int| 0 <= q < m1.len() implies m1[q] == m0.push(
                        pv[k as int],
                    )[q] by {
                        assert(m1[q] == entry_view(filtered@[q]));
                        if q < oldf.len() {
                            assert(filtered@[q] == oldf[q]);
                            assert(m0[q] == entry_view(oldf[q]));
                        }
                    }
                }
                assert(spec_compact(ibm0, pv.take(k as int)).push(pv[k as int]) =~= spec_compact(
                    ibm0,
                    pv.take(k as int),
                ) + seq![pv[k as int]]);
            }
        }
        k = k + 1;
    }
    proof {
        assert(pv.take(n as int) =~= pv);
    }
    let new_dir = DirectoryData { entries: filtered };
    proof {
        lemma_compact_sub(ibm0, pv);
        assert(dir_entries_wf(spec_compact(ibm0, pv))) by {
            assert forall|q: int| 0 <= q < spec_compact(ibm0, pv).len() implies (
            #[trigger] spec_compact(ibm0, pv)[q]).0.len() <= u32::MAX && vstd::utf8::valid_utf8(
                spec_compact(ibm0, pv)[q].0,
            ) by {
                let j = choose|j: int|
                    0 <= j < pv.len() && (#[trigger] spec_compact(ibm0, pv)[q]) == pv[j];
            }
        }
        lemma_compact_enc_len(ibm0, pv);
        assert(spec_encode_dir(spec_compact(ibm0, pv)).len() <= spec_encode_dir(pv).len());
        assert(dir_view(new_dir) =~= spec_compact(ibm0, pv)) by {
            assert(new_dir.entries@ == filtered@);
        }
        // The rewritten payload never needs more blocks than the old one.
        let oldino = disk.i_blocks.inodes@[inum as int];
        assert(oldino.size <= oldino.block_count * 4096);
    }
    write_data_struct_auto_resize(
        &mut disk.i_bitmaps,
        &mut disk.d_bitmaps,
        &mut disk.i_blocks,
        &mut disk.d_blocks,
        inum,
        0,
        &new_dir,
    );
    proof {
        assert forall|j: int|
            0 <= j < INDEX_BITMAP_WORDS * 32 && !bm_bit(ibm0, j) implies !bm_bit(
            disk.i_bitmaps@,
            j,
        ) by {
            let oldino = old(disk).i_blocks.inodes@[inum as int];
            if disk.i_bitmaps@ != ibm0 {
                assert(disk.i_bitmaps@ == ibm0.update(oldino.block_indirect as int / 32, 0u32));
                if j / 32 == oldino.block_indirect as int / 32 {
                    crate::bitmap::lemma_word_extremes((j % 32) as u32);
                } else {
                    assert(disk.i_bitmaps@[j / 32] == ibm0[j / 32]);
                }
            }
        }
    }
}

/// Rewrite the directory a path names, dropping every entry whose inode
/// is no longer allocated.
pub fn update_dir_data(disk: &mut Disk, path: &Path) -> (r: Result<(), Error>)
    requires
        disk_lens_ok(*old(disk)),
        bm_bit(old(disk).i_bitmaps@, 0),
        resolve_ready(*old(disk), path_bytes_view(*path), 0, 0),
        match spec_resolve(*old(disk), path_bytes_view(*path)) {
            Option::Some(p) => {
                &&& dir_readable(*old(disk), p)
                &&& inode_wf(old(disk).i_blocks, old(disk).i_bitmaps@, old(disk).d_bitmaps@, p)
                &&& forall|k: int|
                    0 <= k < spec_dir_at(*old(disk), p).len() ==> (#[trigger] spec_dir_at(
                        *old(disk),
                        p,
                    )[k]).1 < INODE_COUNT
            },
            Option::None => true,
        },
    ensures
        disk_lens_ok(*final(disk)),
        final(disk).sb == old(disk).sb,
        match r {
            Ok(_) => {
                &&& spec_resolve(*old(disk), path_bytes_view(*path)) matches Some(p)
                &&& {
                    let p = spec_resolve(*old(disk), path_bytes_view(*path)).unwrap();
                    &&& spec_dir_stored(
                        final(disk).i_blocks,
                        final(disk).d_blocks@,
                        p,
                        0,
                        spec_compact(old(disk).i_bitmaps@, spec_dir_at(*old(disk), p)),
                    )
                    &&& inode_wf(
                        final(disk).i_blocks,
                        final(disk).i_bitmaps@,
                        final(disk).d_bitmaps@,
                        p,
                    )
                    &&& forall|j: int|
                        0 <= j < INODE_COUNT && j != p ==> final(disk).i_blocks.inodes@[j] == old(
                            disk,
                        ).i_blocks.inodes@[j]
                }
            },
            Err(e) => {
                &&& e is PathNotFound
                &&& spec_resolve(*old(disk), path_bytes_view(*path)) is None
                &&& same_disk(*final(disk), *old(disk))
            },
        },
{
    let (dir, inum) = match get_dir_by_path(disk, path) {
        Some(x) => x,
        None => {
            return Err(Error::PathNotFound(path.clone()));
        },
    };
    proof {
        let pv = spec_dir_at(*disk, inum as int);
        assert forall|k: int|
            0 <= k < dir.entries@.len() implies encode_utf8(
            (#[trigger] dir.entries@[k]).name@,
        ).len() <= u32::MAX by {
            assert(dir_view(dir)[k] == entry_view(dir.entries@[k]));
        }
    }
    compact_and_write(disk, inum, &dir);
    Ok(())
}


/// Delete the file a path names: free its inode and every block it held,
/// then compact the parent directory so the dangling entry disappears.
pub fn delete_file(disk: &mut Disk, path: &Path) -> (r: Result<(), Error>)
    requires
        disk_lens_ok(*old(disk)),
        bm_bit(old(disk).i_bitmaps@, 0),
        resolve_ready(*old(disk), path_bytes_view(*path), 0, 0),
        path_bytes_view(*path).len() == 0 ==> old(disk).i_blocks.inodes@[0].is_dir,
        match spec_resolve(*old(disk), path_bytes_view(*path)) {
            Option::Some(t) => !old(disk).i_blocks.inodes@[t].is_dir ==> {
                let segs = path_bytes_view(*path);
                let p = spec_resolve_from(*old(disk), segs.drop_last(), 0, 0).unwrap();
                delete_ready(*old(disk), p, t)
            },
            Option::None => true,
        },
    ensures
        disk_lens_ok(*final(disk)),
        final(disk).sb == old(disk).sb,
        match r {
            Ok(_) => {
                &&& spec_resolve(*old(disk), path_bytes_view(*path)) matches Some(t)
                &&& {
                    let segs = path_bytes_view(*path);
                    let t = spec_resolve(*old(disk), segs).unwrap();
                    let p = spec_resolve_from(*old(disk), segs.drop_last(), 0, 0).unwrap();
                    &&& !old(disk).i_blocks.inodes@[t].is_dir
                    &&& delete_post(*old(disk), *final(disk), p, t)
                }
            },
            Err(e) => {
                &&& same_disk(*final(disk), *old(disk))
                &&& match e {
                    Error::PathNotFound(_) => spec_resolve(
                        *old(disk),
                        path_bytes_view(*path),
                    ) is None,
                    Error::InvalidFileType => {
                        &&& spec_resolve(*old(disk), path_bytes_view(*path)) matches Some(t)
                        &&& old(disk).i_blocks.inodes@[spec_resolve(
                            *old(disk),
                            path_bytes_view(*path),
                        ).unwrap()].is_dir
                    },
                    _ => false,
                }
            },
        },
{
    let ghost segs = path_bytes_view(*path);
    match is_dir(disk, path) {
        Ok(b) => {
            if b {
                return Err(Error::InvalidFileType);
            }
        },
        Err(e) => {
            return Err(e);
        },
    }
    let inum = match get_inum_by_path(disk, path) {
        Some(i) => i,
        None => {
            proof {
                assert(false);
            }
            return Err(Error::InvalidFileType);
        },
    };
    proof {
        if segs.len() == 0 {
            assert(spec_resolve(*disk, segs) == Some(0int));
            assert(false);
        }
        lemma_resolve_parent(*disk, segs, 0, 0);
    }
    let parent = match path.clone().parent() {
        Some(p) => p,
        None => {
            proof {
                assert(false);
            }
            return Err(Error::InvalidFileType);
        },
    };
    proof {
        assert(path_bytes_view(parent) =~= segs.drop_last()) by {
            let m1 = path_bytes_view(parent);
            assert forall|q: int| 0 <= q < m1.len() implies m1[q] == segs.drop_last()[q] by {
                assert(parent.segs@[q] == path.segs@[q]);
            }
        }
    }
    let (pdir, par_inum) = match get_dir_by_path(disk, &parent) {
        Some(x) => x,
        None => {
            proof {
                assert(false);
            }
            return Err(Error::InvalidFileType);
        },
    };
    let ghost d0 = *disk;
    let ghost pv = spec_dir_at(d0, par_inum as int);
    proof {
        // The parent is a directory, the target is not, so they differ.
        assert(par_inum != inum);
    }
    free_inode(
        &mut disk.i_bitmaps,
        &mut disk.d_bitmaps,
        &mut disk.i_blocks,
        inum,
    );
    let ghost d1 = *disk;
    proof {
        let tino = d0.i_blocks.inodes@[inum as int];
        let pino = d0.i_blocks.inodes@[par_inum as int];
        // The parent inode survives the free untouched and well formed.
        assert(d1.i_blocks.inodes@[par_inum as int] == pino);
        assert forall|k: int| 0 <= k < pino.block_count implies #[trigger] spec_dnum(
            d1.i_blocks,
            par_inum as int,
            k,
        ) == spec_dnum(d0.i_blocks, par_inum as int, k) by {}
        assert(bm_bit(d1.i_bitmaps@, par_inum as int)) by {
            let w = par_inum as int / 32;
            if tino.block_indirect != 0 {
                assert(w != tino.block_indirect as int / 32);
            }
            if w == inum as int / 32 {
                crate::bitmap::lemma_word_clear_bit(
                    if tino.block_indirect != 0 {
                        d0.i_bitmaps@.update(tino.block_indirect as int / 32, 0u32)[w]
                    } else {
                        d0.i_bitmaps@[w]
                    },
                    (inum % 32) as u32,
                    (par_inum % 32) as u32,
                );
            } else {
                assert(d1.i_bitmaps@[w] == d0.i_bitmaps@[w]);
            }
        }
        assert(bm_bit(d1.i_bitmaps@, 0)) by {
            if tino.block_indirect != 0 {
                assert(0int != tino.block_indirect as int / 32);
            }
            if 0int == inum as int / 32 {
                crate::bitmap::lemma_word_clear_bit(
                    if tino.block_indirect != 0 {
                        d0.i_bitmaps@.update(tino.block_indirect as int / 32, 0u32)[0int]
                    } else {
                        d0.i_bitmaps@[0int]
                    },
                    (inum % 32) as u32,
                    0u32,
                );
                assert(inum != 0);
            } else {
                assert(d1.i_bitmaps@[0int] == d0.i_bitmaps@[0int]);
            }
        }
        assert(inode_wf(d1.i_blocks, d1.i_bitmaps@, d1.d_bitmaps@, par_inum as int)) by {
            assert forall|k: int| 0 <= k < pino.block_count implies bm_bit(
                d1.d_bitmaps@,
                (#[trigger] spec_dnum(d1.i_blocks, par_inum as int, k)) as int,
            ) by {
                assert(bm_bit(d0.d_bitmaps@, spec_dnum(d0.i_blocks, par_inum as int, k) as int));
                assert forall|k2: int| 0 <= k2 < tino.block_count implies (#[trigger] spec_dnum(
                    d0.i_blocks,
                    inum as int,
                    k2,
                )) != spec_dnum(d0.i_blocks, par_inum as int, k) by {}
            }
            if pino.block_count > DIRECT_BLOCK_COUNT {
                let u = pino.block_indirect as int / 32;
                if tino.block_indirect != 0 {
                    assert(u != tino.block_indirect as int / 32);
                }
                assert(u != inum as int / 32);
                assert(d1.i_bitmaps@[u] == d0.i_bitmaps@[u]);
            }
        }
        // The parent's payload bytes are untouched by the free.
        assert(spec_dir_stored(d1.i_blocks, d1.d_blocks@, par_inum as int, 0, pv)) by {
            assert forall|j: int|
                0 <= j < 4 + spec_encode_dir(pv).len() implies spec_byte(
                d1.i_blocks,
                d1.d_blocks@,
                par_inum as int,
                j,
            ) == spec_byte(d0.i_blocks, d0.d_blocks@, par_inum as int, j) by {}
        }
        assert forall|k: int|
            0 <= k < pdir.entries@.len() implies encode_utf8(
            (#[trigger] pdir.entries@[k]).name@,
        ).len() <= u32::MAX by {
            assert(dir_view(pdir)[k] == entry_view(pdir.entries@[k]));
        }
    }
    compact_and_write(disk, par_inum, &pdir);
    proof {
        assert(delete_post(d0, *disk, par_inum as int, inum as int)) by {
            let tino = d0.i_blocks.inodes@[inum as int];
            assert(disk.i_blocks.inodes@[inum as int] == crate::repr::spec_zero_inode());
            assert(!bm_bit(d1.i_bitmaps@, inum as int));
            assert(!bm_bit(disk.i_bitmaps@, inum as int));
            assert forall|k: int| 0 <= k < tino.block_count implies !bm_bit(
                disk.d_bitmaps@,
                (#[trigger] spec_dnum(d0.i_blocks, inum as int, k)) as int,
            ) by {
                assert(!bm_bit(d1.d_bitmaps@, spec_dnum(d0.i_blocks, inum as int, k) as int));
            }
        }
    }
    Ok(())
}


/// Delete the empty directory a path names: free its inode, then compact
/// the parent.  The root cannot be deleted, and a directory that still
/// has entries cannot either.
pub fn delete_dir(disk: &mut Disk, path: &Path) -> (r: Result<(), Error>)
    requires
        disk_lens_ok(*old(disk)),
        bm_bit(old(disk).i_bitmaps@, 0),
        resolve_ready(*old(disk), path_bytes_view(*path), 0, 0),
        match spec_resolve(*old(disk), path_bytes_view(*path)) {
            Option::Some(t) => old(disk).i_blocks.inodes@[t].is_dir ==> {
                &&& dir_readable(*old(disk), t)
                &&& ((t != 0 && spec_dir_at(*old(disk), t).len() == 0) ==> {
                    let segs = path_bytes_view(*path);
                    let p = spec_resolve_from(*old(disk), segs.drop_last(), 0, 0).unwrap();
                    delete_ready(*old(disk), p, t)
                })
            },
            Option::None => true,
        },
    ensures
        disk_lens_ok(*final(disk)),
        final(disk).sb == old(disk).sb,
        match r {
            Ok(_) => {
                &&& spec_resolve(*old(disk), path_bytes_view(*path)) matches Some(t)
                &&& {
                    let segs = path_bytes_view(*path);
                    let t = spec_resolve(*old(disk), segs).unwrap();
                    let p = spec_resolve_from(*old(disk), segs.drop_last(), 0, 0).unwrap();
                    &&& old(disk).i_blocks.inodes@[t].is_dir
                    &&& t != 0
                    &&& spec_dir_at(*old(disk), t).len() == 0
                    &&& delete_post(*old(disk), *final(disk), p, t)
                }
            },
            Err(e) => {
                &&& same_disk(*final(disk), *old(disk))
                &&& match e {
                    Error::PathNotFound(_) => spec_resolve(
                        *old(disk),
                        path_bytes_view(*path),
                    ) is None,
                    Error::InvalidFileType => {
                        &&& spec_resolve(*old(disk), path_bytes_view(*path)) matches Some(t)
                        &&& {
                            let t = spec_resolve(*old(disk), path_bytes_view(*path)).unwrap();
                            !old(disk).i_blocks.inodes@[t].is_dir || t == 0
                        }
                    },
                    Error::DirIsNotEmpty => {
                        &&& spec_resolve(*old(disk), path_bytes_view(*path)) matches Some(t)
                        &&& {
                            let t = spec_resolve(*old(disk), path_bytes_view(*path)).unwrap();
                            &&& old(disk).i_blocks.inodes@[t].is_dir
                            &&& t != 0
                            &&& spec_dir_at(*old(disk), t).len() > 0
                        }
                    },
                    _ => false,
                }
            },
        },
{
    let ghost segs = path_bytes_view(*path);
    match is_dir(disk, path) {
        Ok(b) => {
            if !b {
                return Err(Error::InvalidFileType);
            }
        },
        Err(e) => {
            return Err(e);
        },
    }
    let (tdir, inum) = match get_dir_by_path(disk, path) {
        Some(x) => x,
        None => {
            proof {
                assert(false);
            }
            return Err(Error::InvalidFileType);
        },
    };
    // The root directory cannot be deleted.
    if inum == 0 {
        return Err(Error::InvalidFileType);
    }
    if tdir.entries.len() != 0 {
        return Err(Error::DirIsNotEmpty);
    }
    proof {
        if segs.len() == 0 {
            assert(spec_resolve(*disk, segs) == Some(0int));
            assert(false);
        }
        lemma_resolve_parent(*disk, segs, 0, 0);
    }
    let parent = match path.clone().parent() {
        Some(p) => p,
        None => {
            proof {
                assert(false);
            }
            return Err(Error::InvalidFileType);
        },
    };
    proof {
        assert(path_bytes_view(parent) =~= segs.drop_last()) by {
            let m1 = path_bytes_view(parent);
            assert forall|q: int| 0 <= q < m1.len() implies m1[q] == segs.drop_last()[q] by {
                assert(parent.segs@[q] == path.segs@[q]);
            }
        }
    }
    let (pdir, par_inum) = match get_dir_by_path(disk, &parent) {
        Some(x) => x,
        None => {
            proof {
                assert(false);
            }
            return Err(Error::InvalidFileType);
        },
    };
    let ghost d0 = *disk;
    let ghost pv = spec_dir_at(d0, par_inum as int);
    proof {
        // A directory with no entries cannot be its own parent: the
        // parent's entry list carries the last segment.
        assert(par_inum != inum) by {
            if par_inum == inum {
                assert(spec_lookup(spec_dir_at(d0, inum as int), segs.last()) is Some);
                assert(spec_dir_at(d0, inum as int).len() == 0);
            }
        }
    }
    free_inode(
        &mut disk.i_bitmaps,
        &mut disk.d_bitmaps,
        &mut disk.i_blocks,
        inum,
    );
    let ghost d1 = *disk;
    proof {
        let tino = d0.i_blocks.inodes@[inum as int];
        let pino = d0.i_blocks.inodes@[par_inum as int];
        assert(d1.i_blocks.inodes@[par_inum as int] == pino);
        assert forall|k: int| 0 <= k < pino.block_count implies #[trigger] spec_dnum(
            d1.i_blocks,
            par_inum as int,
            k,
        ) == spec_dnum(d0.i_blocks, par_inum as int, k) by {}
        assert(bm_bit(d1.i_bitmaps@, par_inum as int)) by {
            let w = par_inum as int / 32;
            if tino.block_indirect != 0 {
                assert(w != tino.block_indirect as int / 32);
            }
            if w == inum as int / 32 {
                crate::bitmap::lemma_word_clear_bit(
                    if tino.block_indirect != 0 {
                        d0.i_bitmaps@.update(tino.block_indirect as int / 32, 0u32)[w]
                    } else {
                        d0.i_bitmaps@[w]
                    },
                    (inum % 32) as u32,
                    (par_inum % 32) as u32,
                );
            } else {
                assert(d1.i_bitmaps@[w] == d0.i_bitmaps@[w]);
            }
        }
        assert(bm_bit(d1.i_bitmaps@, 0)) by {
            if tino.block_indirect != 0 {
                assert(0int != tino.block_indirect as int / 32);
            }
            if 0int == inum as int / 32 {
                crate::bitmap::lemma_word_clear_bit(
                    if tino.block_indirect != 0 {
                        d0.i_bitmaps@.update(tino.block_indirect as int / 32, 0u32)[0int]
                    } else {
                        d0.i_bitmaps@[0int]
                    },
                    (inum % 32) as u32,
                    0u32,
                );
                assert(inum != 0);
            } else {
                assert(d1.i_bitmaps@[0int] == d0.i_bitmaps@[0int]);
            }
        }
        assert(inode_wf(d1.i_blocks, d1.i_bitmaps@, d1.d_bitmaps@, par_inum as int)) by {
            assert forall|k: int| 0 <= k < pino.block_count implies bm_bit(
                d1.d_bitmaps@,
                (#[trigger] spec_dnum(d1.i_blocks, par_inum as int, k)) as int,
            ) by {
                assert(bm_bit(d0.d_bitmaps@, spec_dnum(d0.i_blocks, par_inum as int, k) as int));
                assert forall|k2: int| 0 <= k2 < tino.block_count implies (#[trigger] spec_dnum(
                    d0.i_blocks,
                    inum as int,
                    k2,
                )) != spec_dnum(d0.i_blocks, par_inum as int, k) by {}
            }
            if pino.block_count > DIRECT_BLOCK_COUNT {
                let u = pino.block_indirect as int / 32;
                if tino.block_indirect != 0 {
                    assert(u != tino.block_indirect as int / 32);
                }
                assert(u != inum as int / 32);
                assert(d1.i_bitmaps@[u] == d0.i_bitmaps@[u]);
            }
        }
        assert(spec_dir_stored(d1.i_blocks, d1.d_blocks@, par_inum as int, 0, pv)) by {
            assert forall|j: int|
                0 <= j < 4 + spec_encode_dir(pv).len() implies spec_byte(
                d1.i_blocks,
                d1.d_blocks@,
                par_inum as int,
                j,
            ) == spec_byte(d0.i_blocks, d0.d_blocks@, par_inum as int, j) by {}
        }
        assert forall|k: int|
            0 <= k < pdir.entries@.len() implies encode_utf8(
            (#[trigger] pdir.entries@[k]).name@,
        ).len() <= u32::MAX by {
            assert(dir_view(pdir)[k] == entry_view(pdir.entries@[k]));
        }
    }
    compact_and_write(disk, par_inum, &pdir);
    proof {
        assert(delete_post(d0, *disk, par_inum as int, inum as int)) by {
            let tino = d0.i_blocks.inodes@[inum as int];
            assert(disk.i_blocks.inodes@[inum as int] == crate::repr::spec_zero_inode());
            assert(!bm_bit(d1.i_bitmaps@, inum as int));
            assert(!bm_bit(disk.i_bitmaps@, inum as int));
            assert forall|k: int| 0 <= k < tino.block_count implies !bm_bit(
                disk.d_bitmaps@,
                (#[trigger] spec_dnum(d0.i_blocks, inum as int, k)) as int,
            ) by {
                assert(!bm_bit(d1.d_bitmaps@, spec_dnum(d0.i_blocks, inum as int, k) as int));
            }
        }
    }
    Ok(())
}


/// Extending a resolved path by one more segment: the walk stays ready,
/// and resolves to whatever the reached directory's entry list says.
pub proof fn lemma_resolve_push(d: Disk, segs: Seq<Seq<u8>>, nb: Seq<u8>, i: int, cur: int)
    requires
        0 <= i <= segs.len(),
        resolve_ready(d, segs, i, cur),
        spec_resolve_from(d, segs, i, cur) is Some,
        dir_readable(d, spec_resolve_from(d, segs, i, cur).unwrap()),
        match spec_lookup(
            spec_dir_at(d, spec_resolve_from(d, segs, i, cur).unwrap()),
            nb,
        ) {
            Option::None => true,
            Option::Some(n) => n < INODE_COUNT,
        },
    ensures
        resolve_ready(d, segs.push(nb), i, cur),
        spec_resolve_from(d, segs.push(nb), i, cur) == match spec_lookup(
            spec_dir_at(d, spec_resolve_from(d, segs, i, cur).unwrap()),
            nb,
        ) {
            Option::None => Option::<int>::None,
            Option::Some(n) => Option::Some(n as int),
        },
    decreases segs.len() - i,
{
    if i == segs.len() {
        assert(segs.push(nb)[i] == nb);
        assert(spec_resolve_from(d, segs, i, cur) == Some(cur));
        assert(dir_readable(d, cur));
        match spec_lookup(spec_dir_at(d, cur), nb) {
            Option::None => {
                assert(resolve_ready(d, segs.push(nb), i, cur));
                assert(spec_resolve_from(d, segs.push(nb), i, cur) is None);
            },
            Option::Some(n) => {
                assert(i + 1 >= segs.push(nb).len());
                assert(resolve_ready(d, segs.push(nb), i + 1, n as int));
                assert(spec_resolve_from(d, segs.push(nb), i + 1, n as int) == Some(n as int));
                assert(resolve_ready(d, segs.push(nb), i, cur));
                assert(spec_resolve_from(d, segs.push(nb), i, cur) == Some(n as int));
            },
        }
    } else {
        assert(segs.push(nb)[i] == segs[i]);
        match spec_lookup(spec_dir_at(d, cur), segs[i]) {
            Option::None => {
                assert(false);
            },
            Option::Some(n) => {
                lemma_resolve_push(d, segs, nb, i + 1, n as int);
            },
        }
    }
}


/// What a lookup finds is one of the entries, under the name it sought.
pub proof fn lemma_lookup_in(s: Seq<(Seq<u8>, u32)>, name: Seq<u8>)
    ensures
        match spec_lookup(s, name) {
            Option::Some(v) => exists|j: int|
                0 <= j < s.len() && (#[trigger] s[j]).0 == name && s[j].1 == v,
            Option::None => true,
        },
    decreases s.len(),
{
    if s.len() > 0 {
        if s[0].0 == name {
        } else {
            lemma_lookup_in(s.drop_first(), name);
            match spec_lookup(s.drop_first(), name) {
                Option::Some(v) => {
                    let j = choose|j: int|
                        0 <= j < s.drop_first().len() && (#[trigger] s.drop_first()[j]).0 == name
                            && s.drop_first()[j].1 == v;
                    assert(s[j + 1].0 == name && s[j + 1].1 == v);
                },
                Option::None => {},
            }
        }
    }
}


/// A change that only re-stamps one inode's times leaves every walk and
/// every stored entry list as it was.
pub proof fn lemma_resolve_touch(d1: Disk, d2: Disk, segs: Seq<Seq<u8>>, i: int, cur: int, t: int)
    requires
        disk_lens_ok(d1),
        disk_lens_ok(d2),
        0 <= t < INODE_COUNT,
        resolve_ready(d1, segs, i, cur),
        0 <= cur < INODE_COUNT,
        d2.d_blocks@ == d1.d_blocks@,
        d2.i_blocks.indirect@ == d1.i_blocks.indirect@,
        forall|j: int|
            0 <= j < INODE_COUNT && j != t ==> d2.i_blocks.inodes@[j] == d1.i_blocks.inodes@[j],
        d2.i_blocks.inodes@[t].size == d1.i_blocks.inodes@[t].size,
        d2.i_blocks.inodes@[t].is_dir == d1.i_blocks.inodes@[t].is_dir,
        d2.i_blocks.inodes@[t].block_count == d1.i_blocks.inodes@[t].block_count,
        d2.i_blocks.inodes@[t].block_direct == d1.i_blocks.inodes@[t].block_direct,
        d2.i_blocks.inodes@[t].block_indirect == d1.i_blocks.inodes@[t].block_indirect,
    ensures
        resolve_ready(d2, segs, i, cur),
        spec_resolve_from(d2, segs, i, cur) == spec_resolve_from(d1, segs, i, cur),
    decreases segs.len() - i,
{
    if i < segs.len() {
        lemma_dir_unchanged_touch(d1, d2, cur, t);
        match spec_lookup(spec_dir_at(d1, cur), segs[i]) {
            Option::None => {},
            Option::Some(n) => {
                lemma_resolve_touch(d1, d2, segs, i + 1, n as int, t);
            },
        }
    }
}

/// Under the same conditions, one directory's readability and stored
/// entry list carry over.
pub proof fn lemma_dir_unchanged_touch(d1: Disk, d2: Disk, cur: int, t: int)
    requires
        disk_lens_ok(d1),
        disk_lens_ok(d2),
        0 <= t < INODE_COUNT,
        0 <= cur < INODE_COUNT,
        dir_readable(d1, cur),
        d2.d_blocks@ == d1.d_blocks@,
        d2.i_blocks.indirect@ == d1.i_blocks.indirect@,
        forall|j: int|
            0 <= j < INODE_COUNT && j != t ==> d2.i_blocks.inodes@[j] == d1.i_blocks.inodes@[j],
        d2.i_blocks.inodes@[t].size == d1.i_blocks.inodes@[t].size,
        d2.i_blocks.inodes@[t].is_dir == d1.i_blocks.inodes@[t].is_dir,
        d2.i_blocks.inodes@[t].block_count == d1.i_blocks.inodes@[t].block_count,
        d2.i_blocks.inodes@[t].block_direct == d1.i_blocks.inodes@[t].block_direct,
        d2.i_blocks.inodes@[t].block_indirect == d1.i_blocks.inodes@[t].block_indirect,
    ensures
        dir_readable(d2, cur),
        spec_dir_at(d2, cur) == spec_dir_at(d1, cur),
{
    assert forall|k: int|
        0 <= k < d1.i_blocks.inodes@[cur].block_count implies #[trigger] spec_dnum(
        d2.i_blocks,
        cur,
        k,
    ) == spec_dnum(d1.i_blocks, cur, k) by {}
    let s1 = spec_dir_at(d1, cur);
    assert(spec_dir_stored(d1.i_blocks, d1.d_blocks@, cur, 0, s1));
    assert(spec_dir_stored(d2.i_blocks, d2.d_blocks@, cur, 0, s1)) by {
        assert forall|j: int|
            0 <= j < 4 + crate::dir::spec_encode_dir(s1).len() implies spec_byte(
            d2.i_blocks,
            d2.d_blocks@,
            cur,
            j,
        ) == spec_byte(d1.i_blocks, d1.d_blocks@, cur, j) by {}
    }
    assert(spec_dir_ok(d2, cur));
    let s2 = spec_dir_at(d2, cur);
    assert(spec_dir_stored(d2.i_blocks, d2.d_blocks@, cur, 0, s2));
    assert(spec_dir_stored(d1.i_blocks, d1.d_blocks@, cur, 0, s2)) by {
        assert forall|j: int|
            0 <= j < 4 + crate::dir::spec_encode_dir(s2).len() implies spec_byte(
            d1.i_blocks,
            d1.d_blocks@,
            cur,
            j,
        ) == spec_byte(d2.i_blocks, d2.d_blocks@, cur, j) by {}
    }
    crate::dir::lemma_dir_stored_unique(d1.i_blocks, d1.d_blocks@, cur, 0, s1, s2);
    assert(s1 =~= s2);
}


/// A name that some entry carries is always found by a lookup.
pub proof fn lemma_lookup_found(s: Seq<(Seq<u8>, u32)>, k: int)
    requires
        0 <= k < s.len(),
    ensures
        spec_lookup(s, s[k].0) is Some,
    decreases k,
{
    if s[0].0 != s[k].0 {
        lemma_lookup_found(s.drop_first(), k - 1);
        assert(s.drop_first()[k - 1] == s[k]);
    }
}

} // verus!
