//! The filesystem facade: an image together with the open-handle manager,
//! offering files with positions, sharing checks, and directory listings.

use vstd::prelude::*;
use vstd::string::StringSliceAdditionalSpecFns;
use vstd::utf8::encode_utf8;
use crate::repr::{
    Disk, INode, disk_lens_ok, spec_block_count_for, ALIGN_SIZE, INODE_COUNT, MAX_FILE_BLOCKS,
};
use crate::bitmap::bm_bit;
use crate::data::{inode_readable, spec_byte};
use crate::dir::{dir_view, entry_view};
use crate::inode::{get_inode, inode_wf};
use crate::path::{path_bytes_view, spec_render, Path};
use crate::rw::{spec_is_open, spec_writer_open, AccessMode, RWManager};
use crate::vsfs::{
    self, create_ready, create_post, delete_ready, delete_post, dir_readable, resolve_ready,
    same_disk, spec_dir_at, spec_resolve, spec_resolve_from, Error,
};

verus! {

/// An open file: its path, the mode it was opened with, the read/write
/// position, and the manager's handle id.
#[derive(Debug)]
pub struct VerySimpleFile {
    pub path: Path,
    pub mode: AccessMode,
    pub position: usize,
    pub id: usize,
}

impl VerySimpleFile {
    /// The path the file was opened under.
    pub fn path(&self) -> (r: &Path)
        ensures
            r == &self.path,
    {
        &self.path
    }

    /// The mode the file was opened with.
    pub fn mode(&self) -> (r: AccessMode)
        ensures
            r == self.mode,
    {
        self.mode
    }

    /// The current read/write position.
    pub fn position(&self) -> (r: usize)
        ensures
            r == self.position,
    {
        self.position
    }

    /// Move the read/write position.
    pub fn set_position(&mut self, pos: usize)
        ensures
            final(self).position == pos,
            final(self).path == old(self).path,
            final(self).mode == old(self).mode,
            final(self).id == old(self).id,
    {
        self.position = pos;
    }
}

/// A snapshot of one object's metadata, as a listing shows it.
#[derive(Debug)]
pub struct VerySimpleFileDescription {
    pub inode: INode,
    pub name: String,
}

impl VerySimpleFileDescription {
    /// Whether the object is a directory.
    pub fn is_dir(&self) -> (r: bool)
        ensures
            r == self.inode.is_dir,
    {
        self.inode.is_dir
    }

    /// The object's name within its directory.
    pub fn name(&self) -> (r: &str)
        ensures
            r@ == self.name@,
    {
        self.name.as_str()
    }

    /// Creation time, in epoch seconds.
    pub fn ctime(&self) -> (r: u64)
        ensures
            r == self.inode.ctime,
    {
        self.inode.ctime as u64
    }

    /// Last modification time, in epoch seconds.
    pub fn mtime(&self) -> (r: u64)
        ensures
            r == self.inode.mtime,
    {
        self.inode.mtime as u64
    }

    /// Size in bytes.
    pub fn size(&self) -> (r: usize)
        ensures
            r == self.inode.size,
    {
        self.inode.size as usize
    }
}

/// What a facade call can fail with.
#[derive(Debug)]
pub enum VerySimpleError {
    /// An internal step that never fails failed.
    UnknownError,
    /// Opening for write while another writer holds the path.
    FileCannotWrite,
    /// A handle that was already closed.
    FileNotOpen,
    /// The path names nothing.
    FileNotExist,
    /// A path without the needed segment.
    InvalidPath,
    /// A read or write against the handle's mode.
    AccessError,
    /// An engine error, carried through.
    VSFSError(Error),
}

/// The facade: the image and the open-handle manager.
pub struct VerySimpleFileSystem {
    pub rw: RWManager,
    pub disk: Disk,
}

impl VerySimpleFileSystem {
    /// The manager's summary agrees with its table.
    pub open spec fn wf(&self) -> bool {
        self.rw.wf()
    }

    /// Take ownership of an image to serve.
    pub fn new(disk: Disk) -> (r: VerySimpleFileSystem)
        ensures
            r.wf(),
            r.disk == disk,
            r.rw.open_table.entries@.len() == 0,
    {
        VerySimpleFileSystem { rw: RWManager::new(), disk }
    }

    /// The served image, for saving.
    pub fn disk(&self) -> (r: &Disk)
        ensures
            r == &self.disk,
    {
        &self.disk
    }

    /// Set up a fresh filesystem on the image.
    pub fn init(&mut self) -> (r: Result<(), VerySimpleError>)
        ensures
            r is Ok,
            final(self).rw == old(self).rw,
            disk_lens_ok(final(self).disk),
            bm_bit(final(self).disk.i_bitmaps@, 0),
            final(self).disk.i_blocks.inodes@[0].is_dir,
            dir_readable(final(self).disk, 0),
            spec_dir_at(final(self).disk, 0) =~= Seq::<(Seq<u8>, u32)>::empty(),
            inode_wf(
                final(self).disk.i_blocks,
                final(self).disk.i_bitmaps@,
                final(self).disk.d_bitmaps@,
                0,
            ),
            forall|i: int| 0 < i < INODE_COUNT ==> !bm_bit(final(self).disk.i_bitmaps@, i),
            forall|i: int|
                0 < i < INODE_COUNT ==> final(self).disk.i_blocks.inodes@[i]
                    == crate::repr::spec_zero_inode(),
            forall|j: int|
                0 <= j < crate::repr::DATA_BITMAP_WORDS * 32 ==> (bm_bit(
                    final(self).disk.d_bitmaps@,
                    j,
                ) <==> j == crate::inode::spec_dnum(final(self).disk.i_blocks, 0, 0)),
            final(self).disk.i_blocks.inodes@[0].atime == final(self).disk.i_blocks.inodes@[0].ctime,
            final(self).disk.i_blocks.inodes@[0].ctime == final(self).disk.i_blocks.inodes@[0].mtime,
        {
        vsfs::init(&mut self.disk);
        Ok(())
    }

    /// Create a file at `path`: its last segment under its parent.
    pub fn create_file(&mut self, path: &Path) -> (r: Result<
        VerySimpleFileDescription,
        VerySimpleError,
    >)
        requires
            disk_lens_ok(old(self).disk),
            bm_bit(old(self).disk.i_bitmaps@, 0),
            path.segs@.len() > 0 ==> {
                &&& resolve_ready(old(self).disk, path_bytes_view(*path).drop_last(), 0, 0)
                &&& crate::path::seg_bytes_valid(encode_utf8(path.segs@.last()@))
                &&& encode_utf8(path.segs@.last()@).len() <= u32::MAX
                &&& match spec_resolve(old(self).disk, path_bytes_view(*path).drop_last()) {
                    Option::Some(p) => create_ready(
                        old(self).disk,
                        p,
                        encode_utf8(path.segs@.last()@),
                    ),
                    Option::None => true,
                }
            },
        ensures
            final(self).rw == old(self).rw,
            match r {
                Ok(fd) => {
                    let segs = path_bytes_view(*path);
                    &&& path.segs@.len() > 0
                    &&& !fd.inode.is_dir
                    &&& fd.inode.size == 0
                    &&& fd.name@ == path.segs@.last()@
                    &&& spec_resolve(old(self).disk, segs.drop_last()) matches Some(p)
                    &&& exists|ni: int|
                        #![auto]
                        {
                            &&& create_post(
                                old(self).disk,
                                final(self).disk,
                                spec_resolve(old(self).disk, segs.drop_last()).unwrap(),
                                encode_utf8(path.segs@.last()@),
                                ni,
                                false,
                            )
                            &&& fd.inode == final(self).disk.i_blocks.inodes@[ni]
                        }
                },
                Err(_) => true,
            },
            r is Err ==> same_disk(final(self).disk, old(self).disk),
            match r {
                Ok(_) => true,
                Err(VerySimpleError::InvalidPath) => path.segs@.len() == 0,
                Err(VerySimpleError::VSFSError(e)) => {
                    let segs = path_bytes_view(*path);
                    &&& path.segs@.len() > 0
                    &&& match e {
                        Error::PathNotFound(_) => spec_resolve(
                            old(self).disk,
                            segs.drop_last(),
                        ) is None,
                        Error::FileExist(_) => {
                            &&& spec_resolve(old(self).disk, segs.drop_last()) matches Some(p)
                            &&& vsfs::spec_lookup(
                                spec_dir_at(
                                    old(self).disk,
                                    spec_resolve(old(self).disk, segs.drop_last()).unwrap(),
                                ),
                                encode_utf8(path.segs@.last()@),
                            ) is Some
                        },
                        Error::NoSpace => {
                            &&& spec_resolve(old(self).disk, segs.drop_last()) matches Some(p)
                            &&& vsfs::spec_lookup(
                                spec_dir_at(
                                    old(self).disk,
                                    spec_resolve(old(self).disk, segs.drop_last()).unwrap(),
                                ),
                                encode_utf8(path.segs@.last()@),
                            ) is None
                            &&& ((forall|j: int|
                                0 <= j < INODE_COUNT ==> bm_bit(old(self).disk.i_bitmaps@, j))
                                || !vsfs::create_room(
                                old(self).disk,
                                spec_resolve(old(self).disk, segs.drop_last()).unwrap(),
                                encode_utf8(path.segs@.last()@),
                                0,
                            ))
                        },
                        _ => false,
                    }
                },
                Err(_) => false,
            },
    {
        let name = match path.current() {
            Some(n) => n.clone(),
            None => {
                return Err(VerySimpleError::InvalidPath);
            },
        };
        let parent = match path.clone().parent() {
            Some(p) => p,
            None => {
                return Err(VerySimpleError::InvalidPath);
            },
        };
        proof {
            assert(path_bytes_view(parent) =~= path_bytes_view(*path).drop_last()) by {
                let m1 = path_bytes_view(parent);
                assert forall|q: int|
                    0 <= q < m1.len() implies m1[q] == path_bytes_view(*path).drop_last()[q] by {
                    assert(parent.segs@[q] == path.segs@[q]);
                }
            }
            assert(name@ == path.segs@.last()@);
        }
        let ni = match vsfs::create_file(&mut self.disk, &parent, name.as_str()) {
            Ok(ni) => ni,
            Err(err) => {
                return Err(VerySimpleError::VSFSError(err));
            },
        };
        let inode = get_inode(&self.disk.i_blocks, ni as usize);
        Ok(VerySimpleFileDescription { inode, name })
    }

    /// Delete the file at `path`.
    pub fn delete_file(&mut self, path: &Path) -> (r: Result<(), VerySimpleError>)
        requires
            disk_lens_ok(old(self).disk),
            bm_bit(old(self).disk.i_bitmaps@, 0),
            resolve_ready(old(self).disk, path_bytes_view(*path), 0, 0),
            path_bytes_view(*path).len() == 0 ==> old(self).disk.i_blocks.inodes@[0].is_dir,
            match spec_resolve(old(self).disk, path_bytes_view(*path)) {
                Option::Some(t) => !old(self).disk.i_blocks.inodes@[t].is_dir ==> {
                    let segs = path_bytes_view(*path);
                    let p = spec_resolve_from(old(self).disk, segs.drop_last(), 0, 0).unwrap();
                    delete_ready(old(self).disk, p, t)
                },
                Option::None => true,
            },
        ensures
            final(self).rw == old(self).rw,
            r is Ok ==> {
                let segs = path_bytes_view(*path);
                let t = spec_resolve(old(self).disk, segs).unwrap();
                let p = spec_resolve_from(old(self).disk, segs.drop_last(), 0, 0).unwrap();
                delete_post(old(self).disk, final(self).disk, p, t)
            },
            r is Err ==> same_disk(final(self).disk, old(self).disk),
            match r {
                Ok(_) => true,
                Err(VerySimpleError::VSFSError(e)) => match e {
                    Error::PathNotFound(_) => spec_resolve(
                        old(self).disk,
                        path_bytes_view(*path),
                    ) is None,
                    Error::InvalidFileType => {
                        &&& spec_resolve(old(self).disk, path_bytes_view(*path)) matches Some(t)
                        &&& old(self).disk.i_blocks.inodes@[spec_resolve(
                            old(self).disk,
                            path_bytes_view(*path),
                        ).unwrap()].is_dir
                    },
                    _ => false,
                },
                Err(_) => false,
            },
    {
        match vsfs::delete_file(&mut self.disk, path) {
            Ok(_) => Ok(()),
            Err(err) => Err(VerySimpleError::VSFSError(err)),
        }
    }

    /// Make a directory at `path`: its last segment under its parent.
    pub fn mkdir(&mut self, path: &Path) -> (r: Result<(), VerySimpleError>)
        requires
            disk_lens_ok(old(self).disk),
            bm_bit(old(self).disk.i_bitmaps@, 0),
            path.segs@.len() > 0 ==> {
                &&& resolve_ready(old(self).disk, path_bytes_view(*path).drop_last(), 0, 0)
                &&& crate::path::seg_bytes_valid(encode_utf8(path.segs@.last()@))
                &&& encode_utf8(path.segs@.last()@).len() <= u32::MAX
                &&& match spec_resolve(old(self).disk, path_bytes_view(*path).drop_last()) {
                    Option::Some(p) => create_ready(
                        old(self).disk,
                        p,
                        encode_utf8(path.segs@.last()@),
                    ),
                    Option::None => true,
                }
            },
        ensures
            final(self).rw == old(self).rw,
            r is Ok ==> {
                let segs = path_bytes_view(*path);
                &&& segs.len() > 0
                &&& spec_resolve(old(self).disk, segs.drop_last()) matches Some(p)
                &&& exists|ni: int|
                    #![auto]
                    create_post(
                        old(self).disk,
                        final(self).disk,
                        spec_resolve(old(self).disk, segs.drop_last()).unwrap(),
                        encode_utf8(path.segs@.last()@),
                        ni,
                        true,
                    )
            },
            r is Err ==> same_disk(final(self).disk, old(self).disk),
            match r {
                Ok(_) => true,
                Err(VerySimpleError::InvalidPath) => path.segs@.len() == 0,
                Err(VerySimpleError::VSFSError(e)) => {
                    let segs = path_bytes_view(*path);
                    &&& path.segs@.len() > 0
                    &&& match e {
                        Error::PathNotFound(_) => spec_resolve(
                            old(self).disk,
                            segs.drop_last(),
                        ) is None,
                        Error::FileExist(_) => {
                            &&& spec_resolve(old(self).disk, segs.drop_last()) matches Some(p)
                            &&& vsfs::spec_lookup(
                                spec_dir_at(
                                    old(self).disk,
                                    spec_resolve(old(self).disk, segs.drop_last()).unwrap(),
                                ),
                                encode_utf8(path.segs@.last()@),
                            ) is Some
                        },
                        Error::NoSpace => {
                            &&& spec_resolve(old(self).disk, segs.drop_last()) matches Some(p)
                            &&& vsfs::spec_lookup(
                                spec_dir_at(
                                    old(self).disk,
                                    spec_resolve(old(self).disk, segs.drop_last()).unwrap(),
                                ),
                                encode_utf8(path.segs@.last()@),
                            ) is None
                            &&& ((forall|j: int|
                                0 <= j < INODE_COUNT ==> bm_bit(old(self).disk.i_bitmaps@, j))
                                || !vsfs::create_room(
                                old(self).disk,
                                spec_resolve(old(self).disk, segs.drop_last()).unwrap(),
                                encode_utf8(path.segs@.last()@),
                                1,
                            ))
                        },
                        _ => false,
                    }
                },
                Err(_) => false,
            },
    {
        let name = match path.current() {
            Some(n) => n.clone(),
            None => {
                return Err(VerySimpleError::InvalidPath);
            },
        };
        let parent = match path.clone().parent() {
            Some(p) => p,
            None => {
                return Err(VerySimpleError::InvalidPath);
            },
        };
        proof {
            assert(path_bytes_view(parent) =~= path_bytes_view(*path).drop_last()) by {
                let m1 = path_bytes_view(parent);
                assert forall|q: int|
                    0 <= q < m1.len() implies m1[q] == path_bytes_view(*path).drop_last()[q] by {
                    assert(parent.segs@[q] == path.segs@[q]);
                }
            }
            assert(name@ == path.segs@.last()@);
        }
        let res = vsfs::create_dir(&mut self.disk, &parent, name.as_str());
        match res {
            Ok(_) => {
                proof {
                    let segs = path_bytes_view(*path);
                    let p = spec_resolve(old(self).disk, segs.drop_last()).unwrap();
                    let ni = choose|ni: int|
                        #![auto]
                        create_post(old(self).disk, self.disk, p, encode_utf8(name@), ni, true);
                    assert(encode_utf8(name@) == encode_utf8(path.segs@.last()@));
                    assert(create_post(
                        old(self).disk,
                        self.disk,
                        p,
                        encode_utf8(path.segs@.last()@),
                        ni,
                        true,
                    ));
                }
                Ok(())
            },
            Err(err) => Err(VerySimpleError::VSFSError(err)),
        }
    }

    /// Remove the empty directory at `path`.
    pub fn rmdir(&mut self, path: &Path) -> (r: Result<(), VerySimpleError>)
        requires
            disk_lens_ok(old(self).disk),
            bm_bit(old(self).disk.i_bitmaps@, 0),
            resolve_ready(old(self).disk, path_bytes_view(*path), 0, 0),
            match spec_resolve(old(self).disk, path_bytes_view(*path)) {
                Option::Some(t) => old(self).disk.i_blocks.inodes@[t].is_dir ==> {
                    &&& dir_readable(old(self).disk, t)
                    &&& ((t != 0 && spec_dir_at(old(self).disk, t).len() == 0) ==> {
                        let segs = path_bytes_view(*path);
                        let p = spec_resolve_from(
                            old(self).disk,
                            segs.drop_last(),
                            0,
                            0,
                        ).unwrap();
                        delete_ready(old(self).disk, p, t)
                    })
                },
                Option::None => true,
            },
        ensures
            final(self).rw == old(self).rw,
            r is Ok ==> {
                let segs = path_bytes_view(*path);
                let t = spec_resolve(old(self).disk, segs).unwrap();
                let p = spec_resolve_from(old(self).disk, segs.drop_last(), 0, 0).unwrap();
                &&& t != 0
                &&& spec_dir_at(old(self).disk, t).len() == 0
                &&& delete_post(old(self).disk, final(self).disk, p, t)
            },
            r is Err ==> same_disk(final(self).disk, old(self).disk),
            match r {
                Ok(_) => true,
                Err(VerySimpleError::VSFSError(e)) => {
                    let segs = path_bytes_view(*path);
                    match e {
                        Error::PathNotFound(_) => spec_resolve(old(self).disk, segs) is None,
                        Error::InvalidFileType => {
                            &&& spec_resolve(old(self).disk, segs) matches Some(t)
                            &&& {
                                let t = spec_resolve(old(self).disk, segs).unwrap();
                                !old(self).disk.i_blocks.inodes@[t].is_dir || t == 0
                            }
                        },
                        Error::DirIsNotEmpty => {
                            &&& spec_resolve(old(self).disk, segs) matches Some(t)
                            &&& {
                                let t = spec_resolve(old(self).disk, segs).unwrap();
                                &&& old(self).disk.i_blocks.inodes@[t].is_dir
                                &&& t != 0
                                &&& spec_dir_at(old(self).disk, t).len() > 0
                            }
                        },
                        _ => false,
                    }
                },
                Err(_) => false,
            },
    {
        match vsfs::delete_dir(&mut self.disk, path) {
            Ok(_) => Ok(()),
            Err(err) => Err(VerySimpleError::VSFSError(err)),
        }
    }

    /// Whether `path` names an existing object; stamps its access time.
    pub fn path_exists(&mut self, path: &Path) -> (r: Result<bool, VerySimpleError>)
        requires
            disk_lens_ok(old(self).disk),
            resolve_ready(old(self).disk, path_bytes_view(*path), 0, 0),
        ensures
            final(self).rw == old(self).rw,
            r is Ok,
            match r {
                Ok(b) => {
                    &&& b == (spec_resolve(old(self).disk, path_bytes_view(*path)) is Some)
                    &&& match spec_resolve(old(self).disk, path_bytes_view(*path)) {
                        Option::Some(t) => vsfs::same_disk_but_atime(
                            final(self).disk,
                            old(self).disk,
                            t,
                        ),
                        Option::None => same_disk(final(self).disk, old(self).disk),
                    }
                },
                Err(_) => false,
            },
    {
        let res = vsfs::path_exists(&self.disk, path);
        match vsfs::update_access_time(&mut self.disk, path) {
            Ok(_) => Ok(res),
            Err(_) => Ok(res),
        }
    }

    /// Open `path` in `mode`: a writer is admitted only while no other
    /// writer holds the path, and the handle starts at position zero.
    pub fn open(&mut self, path: &Path, mode: AccessMode) -> (r: Result<
        VerySimpleFile,
        VerySimpleError,
    >)
        requires
            old(self).wf(),
            disk_lens_ok(old(self).disk),
            resolve_ready(old(self).disk, path_bytes_view(*path), 0, 0),
        ensures
            final(self).wf(),
            disk_lens_ok(final(self).disk),
            match r {
                Ok(f) => {
                    &&& f.position == 0
                    &&& f.mode == mode
                    &&& f.path.segs@ == path.segs@
                    &&& spec_resolve(old(self).disk, path_bytes_view(*path)) is Some
                    &&& f.id == old(self).rw.open_table.entries@.len()
                    &&& spec_is_open(
                        final(self).rw.open_table.entries@,
                        0,
                        spec_render(path.view_segs()),
                        mode,
                    )
                    &&& (crate::rw::is_write_mode(mode) ==> !spec_writer_open(
                        old(self).rw.open_table.entries@,
                        spec_render(path.view_segs()),
                    ))
                    &&& vsfs::same_disk_but_atime(
                        final(self).disk,
                        old(self).disk,
                        spec_resolve(old(self).disk, path_bytes_view(*path)).unwrap(),
                    )
                },
                Err(VerySimpleError::FileCannotWrite) => {
                    &&& crate::rw::is_write_mode(mode)
                    &&& spec_writer_open(
                        old(self).rw.open_table.entries@,
                        spec_render(path.view_segs()),
                    )
                    &&& final(self).rw == old(self).rw
                    &&& same_disk(final(self).disk, old(self).disk)
                },
                Err(VerySimpleError::FileNotExist) => {
                    &&& spec_resolve(old(self).disk, path_bytes_view(*path)) is None
                    &&& final(self).rw == old(self).rw
                    &&& same_disk(final(self).disk, old(self).disk)
                },
                Err(_) => false,
            },
    {
        let key = path.to_str();
        match mode {
            AccessMode::Read => {},
            AccessMode::Write | AccessMode::ReadWrite => {
                if !self.rw.can_write(key.as_str()) {
                    return Err(VerySimpleError::FileCannotWrite);
                }
            },
        }
        if !vsfs::path_exists(&self.disk, path) {
            return Err(VerySimpleError::FileNotExist);
        }
        let id = self.rw.open(0, key.as_str(), mode);
        match vsfs::update_access_time(&mut self.disk, path) {
            Ok(_) => {},
            Err(_) => {},
        }
        proof {
            assert(spec_is_open(
                self.rw.open_table.entries@,
                0,
                spec_render(path.view_segs()),
                mode,
            )) by {
                let es = self.rw.open_table.entries@;
                assert(!es[es.len() - 1].1 && es[es.len() - 1].0.pid == 0 && es[es.len()
                    - 1].0.path@ == spec_render(path.view_segs()) && es[es.len() - 1].0.mode
                    == mode);
            }
        }
        Ok(VerySimpleFile { path: path.clone(), mode, position: 0, id })
    }

    /// Close a handle; a handle can be closed once.
    pub fn close(&mut self, file: VerySimpleFile) -> (r: Result<(), VerySimpleError>)
        requires
            old(self).wf(),
            file.id < old(self).rw.open_table.entries@.len(),
        ensures
            final(self).wf(),
            final(self).disk == old(self).disk,
            match r {
                Ok(_) => {
                    &&& !old(self).rw.open_table.entries@[file.id as int].1
                    &&& final(self).rw.open_table.entries@[file.id as int].1
                    &&& forall|i: int|
                        0 <= i < old(self).rw.open_table.entries@.len() && i != file.id
                            ==> final(self).rw.open_table.entries@[i] == old(
                                self,
                            ).rw.open_table.entries@[i]
                },
                Err(e) => {
                    &&& e is FileNotOpen
                    &&& old(self).rw.open_table.entries@[file.id as int].1
                    &&& final(self).rw == old(self).rw
                },
            },
    {
        if self.rw.already_open(file.id) {
            return Err(VerySimpleError::FileNotOpen);
        }
        self.rw.close(file.id);
        Ok(())
    }

    /// Read from the handle's position into `buf`: up to `buf.len()`
    /// bytes, stopping at the end of the file; the position advances by
    /// the count read.
    pub fn read(&mut self, file: &mut VerySimpleFile, buf: &mut Vec<u8>) -> (r: Result<
        usize,
        VerySimpleError,
    >)
        requires
            old(self).wf(),
            disk_lens_ok(old(self).disk),
            resolve_ready(old(self).disk, path_bytes_view(old(file).path), 0, 0),
            old(file).id < old(self).rw.open_table.entries@.len(),
            match spec_resolve(old(self).disk, path_bytes_view(old(file).path)) {
                Option::Some(t) => !old(self).disk.i_blocks.inodes@[t].is_dir ==> inode_readable(
                    old(self).disk.i_blocks,
                    t,
                ) && old(file).position <= old(self).disk.i_blocks.inodes@[t].size,
                Option::None => true,
            },
        ensures
            final(self).wf(),
            final(self).rw == old(self).rw,
            final(buf)@.len() == old(buf)@.len(),
            match r {
                Ok(n) => {
                    &&& spec_resolve(old(self).disk, path_bytes_view(old(file).path)) matches Some(
                        t,
                    )
                    &&& {
                        let t = spec_resolve(
                            old(self).disk,
                            path_bytes_view(old(file).path),
                        ).unwrap();
                        &&& n == if old(buf)@.len() <= old(self).disk.i_blocks.inodes@[t].size
                            - old(file).position {
                            old(buf)@.len() as int
                        } else {
                            old(self).disk.i_blocks.inodes@[t].size - old(file).position
                        }
                        &&& forall|i: int|
                            0 <= i < n ==> final(buf)@[i] == spec_byte(
                                old(self).disk.i_blocks,
                                old(self).disk.d_blocks@,
                                t,
                                old(file).position + i,
                            )
                        &&& final(file).position == old(file).position + n
                        &&& final(file).id == old(file).id
                        &&& final(file).mode == old(file).mode
                        &&& final(file).path == old(file).path
                        &&& !old(self).rw.open_table.entries@[old(file).id as int].1
                        &&& old(self).rw.open_table.entries@[old(file).id as int].0.mode == old(
                            file,
                        ).mode
                        &&& !(old(file).mode is Write)
                        &&& !old(self).disk.i_blocks.inodes@[t].is_dir
                        &&& vsfs::same_disk_but_atime(final(self).disk, old(self).disk, t)
                    }
                },
                Err(e) => {
                    let es = old(self).rw.open_table.entries@;
                    let id = old(file).id as int;
                    &&& same_disk(final(self).disk, old(self).disk)
                    &&& *final(file) == *old(file)
                    &&& final(buf)@ == old(buf)@
                    &&& match e {
                        VerySimpleError::FileNotOpen => es[id].1,
                        VerySimpleError::AccessError => {
                            &&& !es[id].1
                            &&& (es[id].0.mode != old(file).mode || old(file).mode is Write)
                        },
                        VerySimpleError::FileNotExist => {
                            &&& !es[id].1
                            &&& es[id].0.mode == old(file).mode
                            &&& !(old(file).mode is Write)
                            &&& (spec_resolve(
                                old(self).disk,
                                path_bytes_view(old(file).path),
                            ) is None || old(self).disk.i_blocks.inodes@[spec_resolve(
                                old(self).disk,
                                path_bytes_view(old(file).path),
                            ).unwrap()].is_dir)
                        },
                        _ => false,
                    }
                },
            },
    {
        let mode = match self.rw.access_mode(file.id) {
            Some(m) => m,
            None => {
                return Err(VerySimpleError::FileNotOpen);
            },
        };
        if mode != file.mode || mode == AccessMode::Write {
            return Err(VerySimpleError::AccessError);
        }
        let inode = match vsfs::get_inode_by_path(&self.disk, &file.path) {
            Some(ino) => ino,
            None => {
                return Err(VerySimpleError::FileNotExist);
            },
        };
        if inode.is_dir {
            return Err(VerySimpleError::FileNotExist);
        }
        let len = if buf.len() <= inode.size as usize - file.position {
            buf.len()
        } else {
            inode.size as usize - file.position
        };
        let mut tmp: Vec<u8> = vec![0u8; len];
        match vsfs::read_file(&self.disk, &file.path, file.position, &mut tmp) {
            Ok(_) => {},
            Err(_) => {
                proof {
                    assert(false);
                }
                return Err(VerySimpleError::UnknownError);
            },
        }
        let ghost tgh = spec_resolve(self.disk, path_bytes_view(file.path)).unwrap();
        let ghost pos0 = file.position as int;
        let mut i: usize = 0;
        while i < len
            invariant
                len <= buf@.len(),
                len == tmp@.len(),
                0 <= i <= len,
                forall|q: int|
                    0 <= q < len ==> tmp@[q] == spec_byte(
                        self.disk.i_blocks,
                        self.disk.d_blocks@,
                        tgh,
                        pos0 + q,
                    ),
                forall|q: int| 0 <= q < i ==> buf@[q] == tmp@[q],
                buf@.len() == old(buf)@.len(),
            decreases len - i,
        {
            let b = tmp[i];
            buf[i] = b;
            i = i + 1;
        }
        proof {
            assert forall|q: int| 0 <= q < len implies buf@[q] == spec_byte(
                self.disk.i_blocks,
                self.disk.d_blocks@,
                tgh,
                pos0 + q,
            ) by {
                assert(buf@[q] == tmp@[q]);
            }
        }
        file.position = file.position + len;
        match vsfs::update_access_time(&mut self.disk, &file.path) {
            Ok(_) => {},
            Err(_) => {},
        }
        Ok(len)
    }

    /// Write all of `buf` at the handle's position, stamping the
    /// modification time and advancing the position by `buf.len()`.  A
    /// write the image has no room for is refused with `NoSpace`, with
    /// even the time stamps left as they were.
    pub fn write(&mut self, file: &mut VerySimpleFile, buf: &Vec<u8>) -> (r: Result<
        usize,
        VerySimpleError,
    >)
        requires
            old(self).wf(),
            disk_lens_ok(old(self).disk),
            bm_bit(old(self).disk.i_bitmaps@, 0),
            resolve_ready(old(self).disk, path_bytes_view(old(file).path), 0, 0),
            old(file).id < old(self).rw.open_table.entries@.len(),
            old(file).position + buf@.len() <= MAX_FILE_BLOCKS * ALIGN_SIZE,
            match spec_resolve(old(self).disk, path_bytes_view(old(file).path)) {
                Option::Some(t) => !old(self).disk.i_blocks.inodes@[t].is_dir ==> inode_wf(
                    old(self).disk.i_blocks,
                    old(self).disk.i_bitmaps@,
                    old(self).disk.d_bitmaps@,
                    t,
                ),
                Option::None => true,
            },
        ensures
            final(self).wf(),
            final(self).rw == old(self).rw,
            match r {
                Ok(n) => {
                    &&& n == buf@.len()
                    &&& spec_resolve(old(self).disk, path_bytes_view(old(file).path)) matches Some(
                        t,
                    )
                    &&& {
                        let t = spec_resolve(
                            old(self).disk,
                            path_bytes_view(old(file).path),
                        ).unwrap();
                        &&& final(self).disk.i_blocks.inodes@[t].size == old(file).position
                            + buf@.len()
                        &&& final(self).disk.i_blocks.inodes@[t].block_count
                            == spec_block_count_for((old(file).position + buf@.len()) as u32)
                        &&& forall|i: int|
                            0 <= i < buf@.len() ==> spec_byte(
                                final(self).disk.i_blocks,
                                final(self).disk.d_blocks@,
                                t,
                                old(file).position + i,
                            ) == buf@[i]
                        &&& final(file).position == old(file).position + buf@.len()
                        &&& final(file).id == old(file).id
                        &&& final(file).mode == old(file).mode
                        &&& final(file).path == old(file).path
                        &&& !old(self).rw.open_table.entries@[old(file).id as int].1
                        &&& old(self).rw.open_table.entries@[old(file).id as int].0.mode == old(
                            file,
                        ).mode
                        &&& !(old(file).mode is Read)
                        &&& !old(self).disk.i_blocks.inodes@[t].is_dir
                        &&& final(self).disk.sb == old(self).disk.sb
                        &&& forall|j: int|
                            0 <= j < INODE_COUNT && j != t ==> final(self).disk.i_blocks.inodes@[j]
                                == old(self).disk.i_blocks.inodes@[j]
                        &&& (final(self).disk.i_blocks.inodes@[t].block_count >= old(
                            self,
                        ).disk.i_blocks.inodes@[t].block_count ==> crate::grow::dbm_extended(
                            final(self).disk.i_blocks,
                            final(self).disk.d_bitmaps@,
                            old(self).disk.d_bitmaps@,
                            t,
                            old(self).disk.i_blocks.inodes@[t].block_count as int,
                            final(self).disk.i_blocks.inodes@[t].block_count as int,
                        ) && crate::grow::dbm_first_fit(
                            final(self).disk.i_blocks,
                            old(self).disk.d_bitmaps@,
                            t,
                            old(self).disk.i_blocks.inodes@[t].block_count as int,
                            final(self).disk.i_blocks.inodes@[t].block_count as int,
                        ))
                        &&& crate::bitmap::count_clear(
                            final(self).disk.d_bitmaps@,
                            crate::repr::DATA_BLOCK_COUNT as int,
                        ) == crate::bitmap::count_clear(
                            old(self).disk.d_bitmaps@,
                            crate::repr::DATA_BLOCK_COUNT as int,
                        ) - (final(self).disk.i_blocks.inodes@[t].block_count - old(
                            self,
                        ).disk.i_blocks.inodes@[t].block_count)
                        &&& forall|k: int|
                            0 <= k < final(self).disk.i_blocks.inodes@[t].block_count && k < old(
                                self,
                            ).disk.i_blocks.inodes@[t].block_count
                                ==> crate::inode::spec_dnum(final(self).disk.i_blocks, t, k)
                                == crate::inode::spec_dnum(old(self).disk.i_blocks, t, k)
                        &&& forall|p2: int|
                            0 <= p2 < old(file).position && p2 < old(
                                self,
                            ).disk.i_blocks.inodes@[t].size ==> spec_byte(
                                final(self).disk.i_blocks,
                                final(self).disk.d_blocks@,
                                t,
                                p2,
                            ) == spec_byte(
                                old(self).disk.i_blocks,
                                old(self).disk.d_blocks@,
                                t,
                                p2,
                            )
                    }
                },
                Err(e) => {
                    let es = old(self).rw.open_table.entries@;
                    let id = old(file).id as int;
                    &&& same_disk(final(self).disk, old(self).disk)
                    &&& *final(file) == *old(file)
                    &&& match e {
                        VerySimpleError::FileNotOpen => es[id].1,
                        VerySimpleError::AccessError => {
                            &&& !es[id].1
                            &&& (es[id].0.mode != old(file).mode || old(file).mode is Read)
                        },
                        VerySimpleError::VSFSError(err) => {
                            &&& !es[id].1
                            &&& es[id].0.mode == old(file).mode
                            &&& !(old(file).mode is Read)
                            &&& match err {
                                Error::PathNotFound(_) => spec_resolve(
                                    old(self).disk,
                                    path_bytes_view(old(file).path),
                                ) is None || old(self).disk.i_blocks.inodes@[spec_resolve(
                                    old(self).disk,
                                    path_bytes_view(old(file).path),
                                ).unwrap()].is_dir,
                                Error::NoSpace => {
                                    &&& spec_resolve(
                                        old(self).disk,
                                        path_bytes_view(old(file).path),
                                    ) matches Some(t)
                                    &&& !old(self).disk.i_blocks.inodes@[spec_resolve(
                                        old(self).disk,
                                        path_bytes_view(old(file).path),
                                    ).unwrap()].is_dir
                                    &&& !vsfs::write_room(
                                        old(self).disk,
                                        spec_resolve(
                                            old(self).disk,
                                            path_bytes_view(old(file).path),
                                        ).unwrap(),
                                        old(file).position + buf@.len(),
                                    )
                                },
                                _ => false,
                            }
                        },
                        _ => false,
                    }
                },
            },
    {
        let mode = match self.rw.access_mode(file.id) {
            Some(m) => m,
            None => {
                return Err(VerySimpleError::FileNotOpen);
            },
        };
        if mode != file.mode || mode == AccessMode::Read {
            return Err(VerySimpleError::AccessError);
        }
        // A write needs an existing plain file behind the path; rejecting
        // a missing or directory target here leaves the image untouched.
        let target = match vsfs::get_inode_by_path(&self.disk, &file.path) {
            Some(ino) => {
                if ino.is_dir {
                    return Err(VerySimpleError::VSFSError(Error::PathNotFound(file.path.clone())));
                }
                ino
            },
            None => {
                return Err(VerySimpleError::VSFSError(Error::PathNotFound(file.path.clone())));
            },
        };
        // All space is reserved up front, so that a refused write leaves
        // even the time stamps as they were.
        let end = file.position + buf.len();
        let needed = (end + 4095) / 4096;
        if needed > target.block_count as usize {
            let free_data = crate::bitmap::count_free(
                &self.disk.d_bitmaps,
                crate::repr::DATA_BLOCK_COUNT,
            );
            if free_data < needed - target.block_count as usize {
                return Err(VerySimpleError::VSFSError(Error::NoSpace));
            }
        }
        if needed > crate::repr::DIRECT_BLOCK_COUNT && target.block_count as usize
            <= crate::repr::DIRECT_BLOCK_COUNT {
            match crate::bitmap::get_free_block(
                &self.disk.i_bitmaps,
                0..crate::repr::INDEX_BLOCK_COUNT,
            ) {
                Some(_) => {},
                None => {
                    return Err(VerySimpleError::VSFSError(Error::NoSpace));
                },
            }
        }
        // Stamp the modification time first; the write keeps the stamp.
        let ghost d0 = self.disk;
        match vsfs::update_modify_time(&mut self.disk, &file.path) {
            Ok(_) => {},
            Err(err) => {
                proof {
                    assert(false);
                }
                return Err(VerySimpleError::VSFSError(err));
            },
        }
        proof {
            let segs = path_bytes_view(file.path);
            vsfs::lemma_resolve_bound(d0, segs, 0, 0);
            let t = spec_resolve(d0, segs).unwrap();
            vsfs::lemma_resolve_touch(d0, self.disk, segs, 0, 0, t);
            if !d0.i_blocks.inodes@[t].is_dir {
                assert(inode_wf(
                    self.disk.i_blocks,
                    self.disk.i_bitmaps@,
                    self.disk.d_bitmaps@,
                    t,
                )) by {
                    assert forall|k: int|
                        0 <= k < self.disk.i_blocks.inodes@[t].block_count implies #[trigger
                    ] crate::inode::spec_dnum(self.disk.i_blocks, t, k) == crate::inode::spec_dnum(
                        d0.i_blocks,
                        t,
                        k,
                    ) by {}
                }
            }
            // The stamp keeps both bitmaps and the target's block count,
            // so the room that was checked up front is still there.
            assert(vsfs::write_room(self.disk, t, old(file).position + buf@.len())) by {
                assert(self.disk.d_bitmaps@ == d0.d_bitmaps@);
                assert(self.disk.i_bitmaps@ == d0.i_bitmaps@);
                assert(self.disk.i_blocks.inodes@[t].block_count
                    == d0.i_blocks.inodes@[t].block_count);
            }
            // The stamp moves no block pointer and no data byte, so every
            // stored byte of the target reads the same as before it.
            assert forall|p2: int|
                0 <= p2 < d0.i_blocks.inodes@[t].size implies spec_byte(
                self.disk.i_blocks,
                self.disk.d_blocks@,
                t,
                p2,
            ) == spec_byte(d0.i_blocks, d0.d_blocks@, t, p2) by {
                assert(crate::inode::spec_dnum(self.disk.i_blocks, t, p2 / 4096)
                    == crate::inode::spec_dnum(d0.i_blocks, t, p2 / 4096));
            }
        }
        match vsfs::write_file(&mut self.disk, &file.path, file.position, buf) {
            Ok(_) => {},
            Err(err) => {
                proof {
                    assert(false);
                }
                return Err(VerySimpleError::VSFSError(err));
            },
        }
        file.position = file.position + buf.len();
        Ok(buf.len())
    }

    /// A metadata snapshot of the object the handle names.
    pub fn description(&mut self, file: &VerySimpleFile) -> (r: Result<
        VerySimpleFileDescription,
        VerySimpleError,
    >)
        requires
            disk_lens_ok(old(self).disk),
            resolve_ready(old(self).disk, path_bytes_view(file.path), 0, 0),
            file.path.segs@.len() > 0,
        ensures
            final(self).rw == old(self).rw,
            match r {
                Ok(fd) => {
                    &&& spec_resolve(old(self).disk, path_bytes_view(file.path)) matches Some(t)
                    &&& fd.inode == old(self).disk.i_blocks.inodes@[spec_resolve(
                        old(self).disk,
                        path_bytes_view(file.path),
                    ).unwrap()]
                    &&& fd.name@ == file.path.segs@.last()@
                    &&& vsfs::same_disk_but_atime(
                        final(self).disk,
                        old(self).disk,
                        spec_resolve(old(self).disk, path_bytes_view(file.path)).unwrap(),
                    )
                },
                Err(e) => {
                    &&& e is UnknownError
                    &&& spec_resolve(old(self).disk, path_bytes_view(file.path)) is None
                    &&& same_disk(final(self).disk, old(self).disk)
                },
            },
    {
        let inode = match vsfs::get_inode_by_path(&self.disk, &file.path) {
            Some(ino) => ino,
            None => {
                return Err(VerySimpleError::UnknownError);
            },
        };
        let name = match file.path.current() {
            Some(n) => n.clone(),
            None => {
                return Err(VerySimpleError::InvalidPath);
            },
        };
        match vsfs::update_access_time(&mut self.disk, &file.path) {
            Ok(_) => {},
            Err(_) => {},
        }
        Ok(VerySimpleFileDescription { inode, name })
    }

    /// List the directory at `path`: its entries, each with its inode's
    /// metadata.
    pub fn list(&mut self, path: &Path) -> (r: Result<
        Vec<VerySimpleFileDescription>,
        VerySimpleError,
    >)
        requires
            disk_lens_ok(old(self).disk),
            bm_bit(old(self).disk.i_bitmaps@, 0),
            resolve_ready(old(self).disk, path_bytes_view(*path), 0, 0),
            match spec_resolve(old(self).disk, path_bytes_view(*path)) {
                Option::Some(p) => old(self).disk.i_blocks.inodes@[p].is_dir ==> dir_readable(
                    old(self).disk,
                    p,
                ) && forall|k: int|
                    0 <= k < spec_dir_at(old(self).disk, p).len() ==> (#[trigger] spec_dir_at(
                        old(self).disk,
                        p,
                    )[k]).1 < INODE_COUNT && crate::path::seg_bytes_valid(
                        spec_dir_at(old(self).disk, p)[k].0,
                    ),
                Option::None => true,
            },
        ensures
            final(self).rw == old(self).rw,
            match r {
                Ok(fds) => {
                    &&& spec_resolve(old(self).disk, path_bytes_view(*path)) matches Some(p)
                    &&& {
                        let p = spec_resolve(old(self).disk, path_bytes_view(*path)).unwrap();
                        &&& old(self).disk.i_blocks.inodes@[p].is_dir
                        &&& fds@.len() == spec_dir_at(old(self).disk, p).len()
                        &&& forall|k: int|
                            0 <= k < fds@.len() ==> encode_utf8((#[trigger] fds@[k]).name@)
                                == spec_dir_at(old(self).disk, p)[k].0
                        &&& forall|k: int|
                            0 <= k < fds@.len() ==> vsfs::spec_lookup(
                                spec_dir_at(old(self).disk, p),
                                (#[trigger] spec_dir_at(old(self).disk, p)[k]).0,
                            ) is Some
                        &&& forall|k: int|
                            0 <= k < fds@.len() ==> (#[trigger] fds@[k]).inode == old(
                                self,
                            ).disk.i_blocks.inodes@[vsfs::spec_lookup(
                                spec_dir_at(old(self).disk, p),
                                spec_dir_at(old(self).disk, p)[k].0,
                            ).unwrap() as int]
                        &&& vsfs::same_disk_but_atime(final(self).disk, old(self).disk, p)
                    }
                },
                Err(e) => {
                    &&& same_disk(final(self).disk, old(self).disk)
                    &&& match e {
                        VerySimpleError::VSFSError(Error::PathNotFound(_)) => spec_resolve(
                            old(self).disk,
                            path_bytes_view(*path),
                        ) is None,
                        VerySimpleError::VSFSError(Error::InvalidFileType) => {
                            &&& spec_resolve(old(self).disk, path_bytes_view(*path)) matches Some(
                                p,
                            )
                            &&& !old(self).disk.i_blocks.inodes@[spec_resolve(
                                old(self).disk,
                                path_bytes_view(*path),
                            ).unwrap()].is_dir
                        },
                        _ => false,
                    }
                },
            },
    {
        let dir = match vsfs::get_dir(&self.disk, path) {
            Ok(d) => d,
            Err(err) => {
                return Err(VerySimpleError::VSFSError(err));
            },
        };
        let ghost p = spec_resolve(self.disk, path_bytes_view(*path)).unwrap();
        let ghost pv = spec_dir_at(self.disk, p);
        let mut fds: Vec<VerySimpleFileDescription> = Vec::new();
        let n = dir.entries.len();
        let mut k: usize = 0;
        while k < n
            invariant
                disk_lens_ok(self.disk),
                *self == *old(self),
                resolve_ready(self.disk, path_bytes_view(*path), 0, 0),
                spec_resolve(self.disk, path_bytes_view(*path)) == Some(p),
                dir_readable(self.disk, p),
                pv == spec_dir_at(self.disk, p),
                dir_view(dir) == pv,
                forall|q: int|
                    0 <= q < pv.len() ==> (#[trigger] pv[q]).1 < INODE_COUNT
                        && crate::path::seg_bytes_valid(pv[q].0),
                n == dir.entries@.len(),
                0 <= k <= n,
                fds@.len() == k,
                forall|q: int|
                    0 <= q < k ==> encode_utf8((#[trigger] fds@[q]).name@) == pv[q].0,
                forall|q: int|
                    0 <= q < k ==> vsfs::spec_lookup(pv, (#[trigger] pv[q]).0) is Some,
                forall|q: int|
                    0 <= q < k ==> (#[trigger] fds@[q]).inode == self.disk.i_blocks.inodes@[
                        vsfs::spec_lookup(pv, pv[q].0).unwrap() as int],
            decreases n - k,
        {
            proof {
                assert(pv[k as int] == entry_view(dir.entries@[k as int]));
                let nb = pv[k as int].0;
                vsfs::lemma_lookup_found(pv, k as int);
                vsfs::lemma_lookup_in(pv, nb);
                vsfs::lemma_resolve_push(self.disk, path_bytes_view(*path), nb, 0, 0);
            }
            let sub_path = path.clone().move_push(dir.entries[k].name.clone());
            proof {
                let nb = pv[k as int].0;
                assert(path_bytes_view(sub_path) =~= path_bytes_view(*path).push(nb)) by {
                    let m1 = path_bytes_view(sub_path);
                    assert forall|q: int|
                        0 <= q < m1.len() implies m1[q] == path_bytes_view(*path).push(nb)[q] by {
                        assert(sub_path.segs@ == path.segs@.push(dir.entries@[k as int].name));
                        if q < path.segs@.len() {
                            assert(sub_path.segs@[q] == path.segs@[q]);
                        } else {
                            assert(sub_path.segs@[q] == dir.entries@[k as int].name);
                        }
                    }
                }
            }
            let inode = match vsfs::get_inode_by_path(&self.disk, &sub_path) {
                Some(ino) => ino,
                None => {
                    proof {
                        assert(false);
                    }
                    return Err(VerySimpleError::UnknownError);
                },
            };
            let fd = VerySimpleFileDescription { inode, name: dir.entries[k].name.clone() };
            let ghost fds0 = fds@;
            fds.push(fd);
            proof {
                let nb = pv[k as int].0;
                let looked = vsfs::spec_lookup(pv, nb);
                assert(looked is Some);
                assert(spec_resolve(self.disk, path_bytes_view(sub_path)) == Some(
                    looked.unwrap() as int,
                ));
                assert(fds@[k as int].inode == self.disk.i_blocks.inodes@[looked.unwrap() as int]);
                assert forall|q: int| 0 <= q < k implies #[trigger] fds@[q] == fds0[q] by {}
                assert forall|q: int|
                    0 <= q < k + 1 implies (#[trigger] fds@[q]).inode
                    == self.disk.i_blocks.inodes@[vsfs::spec_lookup(pv, pv[q].0).unwrap()
                    as int] by {
                    if q < k {
                        assert(fds@[q] == fds0[q]);
                    }
                }
            }
            k = k + 1;
        }
        proof {
            assert(pv == spec_dir_at(old(self).disk, p));
        }
        match vsfs::update_access_time(&mut self.disk, path) {
            Ok(_) => {},
            Err(_) => {},
        }
        Ok(fds)
    }
}

} // verus!
