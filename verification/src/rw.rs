//! The open-handle manager: an append-only table of handle records and a
//! per-path summary of who reads and who writes.
//!
//! Handle ids are indices into the table and are never recycled.  The
//! summary map keeps two bits per path; the write bit enforces the
//! single-writer rule: at most one open handle may hold `Write` or
//! `ReadWrite` on a path, while read-only handles are unlimited.  Closing
//! a handle rebuilds the summary from every still-open record, so
//! retiring the last writer immediately re-enables the path.

use vstd::prelude::*;
use crate::path::str_eq;

verus! {

/// How a handle may touch its file.
#[derive(Hash, Eq, PartialEq, Copy, Clone, Debug, Structural)]
pub enum AccessMode {
    Read,
    Write,
    ReadWrite,
}

/// A mode that writes.
pub open spec fn is_write_mode(m: AccessMode) -> bool {
    m == AccessMode::Write || m == AccessMode::ReadWrite
}

/// A mode that reads.
pub open spec fn is_read_mode(m: AccessMode) -> bool {
    m == AccessMode::Read || m == AccessMode::ReadWrite
}

/// One record of the open-file table.
pub struct RWTableEntry {
    pub pid: usize,
    pub path: String,
    pub mode: AccessMode,
}

/// The append-only open-file table; the flag marks a closed handle.
pub struct OpenTable {
    pub entries: Vec<(RWTableEntry, bool)>,
}

/// Some still-open record writes path `k`.
pub open spec fn spec_writer_open(es: Seq<(RWTableEntry, bool)>, k: Seq<char>) -> bool {
    exists|i: int|
        0 <= i < es.len() && !(#[trigger] es[i]).1 && es[i].0.path@ == k && is_write_mode(
            es[i].0.mode,
        )
}

/// Some still-open record of process `pid` holds `k` in mode `m`.
pub open spec fn spec_is_open(
    es: Seq<(RWTableEntry, bool)>,
    pid: usize,
    k: Seq<char>,
    m: AccessMode,
) -> bool {
    exists|i: int|
        0 <= i < es.len() && !(#[trigger] es[i]).1 && es[i].0.pid == pid && es[i].0.path@ == k
            && es[i].0.mode == m
}

impl OpenTable {
    pub fn new() -> (r: OpenTable)
        ensures
            r.entries@.len() == 0,
    {
        OpenTable { entries: Vec::new() }
    }

    /// Append a record for a newly opened handle; its id is its index.
    pub fn open_file(&mut self, pid: usize, path: &str, mode: AccessMode) -> (id: usize)
        ensures
            id == old(self).entries@.len(),
            final(self).entries@.len() == old(self).entries@.len() + 1,
            forall|i: int|
                0 <= i < old(self).entries@.len()
                    ==> final(self).entries@[i] == old(self).entries@[i],
            final(self).entries@.last().0.pid == pid,
            final(self).entries@.last().0.path@ == path@,
            final(self).entries@.last().0.mode == mode,
            final(self).entries@.last().1 == false,
    {
        let id = self.entries.len();
        let entry = RWTableEntry { pid, path: path.to_owned(), mode };
        self.entries.push((entry, false));
        id
    }

    /// Mark a handle closed.
    pub fn close(&mut self, id: usize)
        requires
            id < old(self).entries@.len(),
        ensures
            final(self).entries@.len() == old(self).entries@.len(),
            forall|i: int|
                0 <= i < old(self).entries@.len() && i != id
                    ==> final(self).entries@[i] == old(self).entries@[i],
            final(self).entries@[id as int].0 == old(self).entries@[id as int].0,
            final(self).entries@[id as int].1 == true,
    {
        let key = self.entries[id].0.pid;
        let path = self.entries[id].0.path.clone();
        let mode = self.entries[id].0.mode;
        self.entries[id] = (RWTableEntry { pid: key, path, mode }, true);
    }
}

/// The per-path summary: a two-bit state per path, bit 1 for readers and
/// bit 2 for writers.
pub struct FileRWTable {
    pub map: Vec<(String, u8)>,
}

/// Path `k` has its write bit set in the summary.
pub open spec fn map_write_bit(v: Seq<(String, u8)>, k: Seq<char>) -> bool {
    exists|i: int| 0 <= i < v.len() && (#[trigger] v[i]).0@ == k && v[i].1 & 2u8 != 0u8
}

/// No path appears twice in the summary.
pub open spec fn map_keys_unique(v: Seq<(String, u8)>) -> bool {
    forall|i: int, j: int| 0 <= i < j < v.len() ==> v[i].0@ != v[j].0@
}

impl FileRWTable {
    pub fn new() -> (r: FileRWTable)
        ensures
            r.map@.len() == 0,
            map_keys_unique(r.map@),
    {
        FileRWTable { map: Vec::new() }
    }

    /// A path can take a writer exactly when its write bit is clear.
    pub fn can_write(&self, path: &str) -> (r: bool)
        requires
            map_keys_unique(self.map@),
        ensures
            r == !map_write_bit(self.map@, path@),
    {
        let n = self.map.len();
        let mut i: usize = 0;
        while i < n
            invariant
                n == self.map@.len(),
                map_keys_unique(self.map@),
                0 <= i <= n,
                forall|j: int| 0 <= j < i ==> (#[trigger] self.map@[j]).0@ != path@,
            decreases n - i,
        {
            if str_eq(self.map[i].0.as_str(), path) {
                let s = self.map[i].1;
                proof {
                    assert(s & 2u8 != 0u8 ==> map_write_bit(self.map@, path@));
                    if map_write_bit(self.map@, path@) {
                        let j = choose|j: int|
                            0 <= j < self.map@.len() && (#[trigger] self.map@[j]).0@ == path@
                                && self.map@[j].1 & 2u8 != 0u8;
                        assert(j == i);
                    }
                }
                return s & 2u8 == 0u8;
            }
            i = i + 1;
        }
        true
    }

    /// Or `read` into the path's read bit, inserting the path with an
    /// empty state first if it is new.  The write bit of every path is
    /// untouched.
    pub fn set_read(&mut self, path: &str, read: bool)
        requires
            map_keys_unique(old(self).map@),
        ensures
            map_keys_unique(final(self).map@),
            forall|k: Seq<char>| map_write_bit(final(self).map@, k) == map_write_bit(
                old(self).map@,
                k,
            ),
    {
        let bit: u8 = if read {
            1
        } else {
            0
        };
        let ghost oldmap = self.map@;
        let n = self.map.len();
        let mut i: usize = 0;
        while i < n
            invariant
                bit == 1u8 || bit == 0u8,
                self.map@ == oldmap,
                oldmap == old(self).map@,
                n == oldmap.len(),
                map_keys_unique(oldmap),
                0 <= i <= n,
                forall|j: int| 0 <= j < i ==> (#[trigger] oldmap[j]).0@ != path@,
            decreases n - i,
        {
            if str_eq(self.map[i].0.as_str(), path) {
                let key = self.map[i].0.clone();
                let s = self.map[i].1;
                self.map[i] = (key, s | bit);
                proof {
                    assert(((s | bit) & 2u8) == (s & 2u8)) by (bit_vector)
                        requires bit == 1u8 || bit == 0u8;
                    assert forall|k: Seq<char>|
                        map_write_bit(self.map@, k) == map_write_bit(oldmap, k) by {
                        if map_write_bit(self.map@, k) {
                            let j = choose|j: int|
                                0 <= j < self.map@.len() && (#[trigger] self.map@[j]).0@ == k
                                    && self.map@[j].1 & 2u8 != 0u8;
                            assert(oldmap[j].0@ == k && oldmap[j].1 & 2u8 != 0u8);
                        }
                        if map_write_bit(oldmap, k) {
                            let j = choose|j: int|
                                0 <= j < oldmap.len() && (#[trigger] oldmap[j]).0@ == k
                                    && oldmap[j].1 & 2u8 != 0u8;
                            assert(self.map@[j].0@ == k && self.map@[j].1 & 2u8 != 0u8);
                        }
                    }
                }
                return ;
            }
            i = i + 1;
        }
        self.map.push((path.to_owned(), bit));
        proof {
            assert((bit & 2u8) == 0u8) by (bit_vector)
                requires bit == 1u8 || bit == 0u8;
            assert forall|k: Seq<char>| map_write_bit(self.map@, k) == map_write_bit(oldmap, k) by {
                if map_write_bit(self.map@, k) {
                    let j = choose|j: int|
                        0 <= j < self.map@.len() && (#[trigger] self.map@[j]).0@ == k
                            && self.map@[j].1 & 2u8 != 0u8;
                    assert(j < oldmap.len());
                    assert(oldmap[j].0@ == k && oldmap[j].1 & 2u8 != 0u8);
                }
                if map_write_bit(oldmap, k) {
                    let j = choose|j: int|
                        0 <= j < oldmap.len() && (#[trigger] oldmap[j]).0@ == k
                            && oldmap[j].1 & 2u8 != 0u8;
                    assert(self.map@[j].0@ == k && self.map@[j].1 & 2u8 != 0u8);
                }
            }
        }
    }

    /// Or `write` into the path's write bit, inserting the path with an
    /// empty state first if it is new.  Other paths' bits are untouched.
    pub fn set_write(&mut self, path: &str, write: bool)
        requires
            map_keys_unique(old(self).map@),
        ensures
            map_keys_unique(final(self).map@),
            map_write_bit(final(self).map@, path@) == (map_write_bit(old(self).map@, path@)
                || write),
            forall|k: Seq<char>|
                k != path@ ==> map_write_bit(final(self).map@, k) == map_write_bit(
                    old(self).map@,
                    k,
                ),
    {
        let bit: u8 = if write {
            2
        } else {
            0
        };
        let ghost oldmap = self.map@;
        let n = self.map.len();
        let mut i: usize = 0;
        while i < n
            invariant
                bit == (if write { 2u8 } else { 0u8 }),
                self.map@ == oldmap,
                oldmap == old(self).map@,
                n == oldmap.len(),
                map_keys_unique(oldmap),
                0 <= i <= n,
                forall|j: int| 0 <= j < i ==> (#[trigger] oldmap[j]).0@ != path@,
            decreases n - i,
        {
            if str_eq(self.map[i].0.as_str(), path) {
                let key = self.map[i].0.clone();
                let s = self.map[i].1;
                self.map[i] = (key, s | bit);
                proof {
                    assert(((s | bit) & 2u8 != 0u8) == (s & 2u8 != 0u8 || bit == 2u8))
                        by (bit_vector)
                        requires bit == 2u8 || bit == 0u8;
                    assert(map_write_bit(self.map@, path@) == (map_write_bit(oldmap, path@)
                        || write)) by {
                        if map_write_bit(oldmap, path@) {
                            let j = choose|j: int|
                                0 <= j < oldmap.len() && (#[trigger] oldmap[j]).0@ == path@
                                    && oldmap[j].1 & 2u8 != 0u8;
                            assert(j == i);
                        }
                        if self.map@[i as int].1 & 2u8 != 0u8 {
                            assert(map_write_bit(self.map@, path@));
                        }
                        if map_write_bit(self.map@, path@) {
                            let j = choose|j: int|
                                0 <= j < self.map@.len() && (#[trigger] self.map@[j]).0@ == path@
                                    && self.map@[j].1 & 2u8 != 0u8;
                            assert(j == i);
                        }
                    }
                    assert forall|k: Seq<char>|
                        k != path@ implies map_write_bit(self.map@, k) == map_write_bit(
                        oldmap,
                        k,
                    ) by {
                        if map_write_bit(self.map@, k) {
                            let j = choose|j: int|
                                0 <= j < self.map@.len() && (#[trigger] self.map@[j]).0@ == k
                                    && self.map@[j].1 & 2u8 != 0u8;
                            assert(j != i);
                            assert(oldmap[j].0@ == k && oldmap[j].1 & 2u8 != 0u8);
                        }
                        if map_write_bit(oldmap, k) {
                            let j = choose|j: int|
                                0 <= j < oldmap.len() && (#[trigger] oldmap[j]).0@ == k
                                    && oldmap[j].1 & 2u8 != 0u8;
                            assert(j != i);
                            assert(self.map@[j].0@ == k && self.map@[j].1 & 2u8 != 0u8);
                        }
                    }
                }
                return ;
            }
            i = i + 1;
        }
        self.map.push((path.to_owned(), bit));
        proof {
            assert((bit & 2u8 != 0u8) == (bit == 2u8)) by (bit_vector)
                requires bit == 2u8 || bit == 0u8;
            assert(map_write_bit(self.map@, path@) == (map_write_bit(oldmap, path@) || write))
                by {
                let last = self.map@.len() - 1;
                if write {
                    assert(self.map@[last].0@ == path@ && self.map@[last].1 & 2u8 != 0u8);
                }
                if map_write_bit(oldmap, path@) {
                    let j = choose|j: int|
                        0 <= j < oldmap.len() && (#[trigger] oldmap[j]).0@ == path@ && oldmap[j].1
                            & 2u8 != 0u8;
                    assert(false);
                }
                if map_write_bit(self.map@, path@) && !write {
                    let j = choose|j: int|
                        0 <= j < self.map@.len() && (#[trigger] self.map@[j]).0@ == path@
                            && self.map@[j].1 & 2u8 != 0u8;
                    assert(j == last);
                    assert(false);
                }
            }
            assert forall|k: Seq<char>|
                k != path@ implies map_write_bit(self.map@, k) == map_write_bit(oldmap, k) by {
                if map_write_bit(self.map@, k) {
                    let j = choose|j: int|
                        0 <= j < self.map@.len() && (#[trigger] self.map@[j]).0@ == k
                            && self.map@[j].1 & 2u8 != 0u8;
                    assert(j < oldmap.len());
                    assert(oldmap[j].0@ == k && oldmap[j].1 & 2u8 != 0u8);
                }
                if map_write_bit(oldmap, k) {
                    let j = choose|j: int|
                        0 <= j < oldmap.len() && (#[trigger] oldmap[j]).0@ == k && oldmap[j].1
                            & 2u8 != 0u8;
                    assert(self.map@[j].0@ == k && self.map@[j].1 & 2u8 != 0u8);
                }
            }
        }
    }
}

/// The manager: the open-file table plus the per-path summary.
pub struct RWManager {
    pub open_table: OpenTable,
    pub file_rw_table: FileRWTable,
}

impl RWManager {
    /// The summary agrees with the table: a path's write bit is set
    /// exactly when some still-open record writes it.
    pub open spec fn wf(&self) -> bool {
        &&& map_keys_unique(self.file_rw_table.map@)
        &&& forall|k: Seq<char>|
            map_write_bit(self.file_rw_table.map@, k) == spec_writer_open(
                self.open_table.entries@,
                k,
            )
    }

    pub fn new() -> (r: RWManager)
        ensures
            r.wf(),
            r.open_table.entries@.len() == 0,
    {
        let r = RWManager { open_table: OpenTable::new(), file_rw_table: FileRWTable::new() };
        proof {
            assert forall|k: Seq<char>|
                map_write_bit(r.file_rw_table.map@, k) == spec_writer_open(
                    r.open_table.entries@,
                    k,
                ) by {}
        }
        r
    }

    /// Open a handle: append a record and fold its mode into the summary;
    /// the returned id is the record's index, stable for the manager's
    /// life.
    pub fn open(&mut self, pid: usize, path: &str, mode: AccessMode) -> (id: usize)
        requires
            old(self).wf(),
        ensures
            final(self).wf(),
            id == old(self).open_table.entries@.len(),
            final(self).open_table.entries@.len() == old(self).open_table.entries@.len() + 1,
            forall|i: int|
                0 <= i < old(self).open_table.entries@.len()
                    ==> final(self).open_table.entries@[i] == old(self).open_table.entries@[i],
            final(self).open_table.entries@.last().0.pid == pid,
            final(self).open_table.entries@.last().0.path@ == path@,
            final(self).open_table.entries@.last().0.mode == mode,
            final(self).open_table.entries@.last().1 == false,
    {
        let entry_id = self.open_table.open_file(pid, path, mode);
        let ghost es = self.open_table.entries@;
        match mode {
            AccessMode::Read => {
                self.file_rw_table.set_read(path, true);
            },
            AccessMode::Write => {
                self.file_rw_table.set_write(path, true);
            },
            AccessMode::ReadWrite => {
                self.file_rw_table.set_read(path, true);
                self.file_rw_table.set_write(path, true);
            },
        }
        proof {
            let oldes = old(self).open_table.entries@;
            assert forall|k: Seq<char>|
                map_write_bit(self.file_rw_table.map@, k) == spec_writer_open(es, k) by {
                if k == path@ && is_write_mode(mode) {
                    assert(!es[es.len() - 1].1 && es[es.len() - 1].0.path@ == k);
                    assert(spec_writer_open(es, k));
                } else {
                    assert(spec_writer_open(es, k) == spec_writer_open(oldes, k)) by {
                        if spec_writer_open(es, k) {
                            let i = choose|i: int|
                                0 <= i < es.len() && !(#[trigger] es[i]).1 && es[i].0.path@ == k
                                    && is_write_mode(es[i].0.mode);
                            assert(i < oldes.len());
                            assert(!oldes[i].1 && oldes[i].0.path@ == k && is_write_mode(
                                oldes[i].0.mode,
                            ));
                        }
                        if spec_writer_open(oldes, k) {
                            let i = choose|i: int|
                                0 <= i < oldes.len() && !(#[trigger] oldes[i]).1
                                    && oldes[i].0.path@ == k && is_write_mode(oldes[i].0.mode);
                            assert(!es[i].1 && es[i].0.path@ == k && is_write_mode(es[i].0.mode));
                        }
                    }
                }
            }
        }
        entry_id
    }

    /// Rebuild the summary from every still-open record.
    fn update_state(&mut self)
        requires
            map_keys_unique(old(self).file_rw_table.map@),
        ensures
            final(self).open_table.entries@ == old(self).open_table.entries@,
            final(self).wf(),
    {
        self.file_rw_table.map = Vec::new();
        let ghost es = self.open_table.entries@;
        let n = self.open_table.entries.len();
        let mut i: usize = 0;
        while i < n
            invariant
                es == self.open_table.entries@,
                n == es.len(),
                0 <= i <= n,
                map_keys_unique(self.file_rw_table.map@),
                forall|k: Seq<char>|
                    map_write_bit(self.file_rw_table.map@, k) == spec_writer_open(
                        es.take(i as int),
                        k,
                    ),
            decreases n - i,
        {
            let deleted = self.open_table.entries[i].1;
            let mode = self.open_table.entries[i].0.mode;
            let path = self.open_table.entries[i].0.path.clone();
            let ghost premap = self.file_rw_table.map@;
            if !deleted {
                let r = mode == AccessMode::Read || mode == AccessMode::ReadWrite;
                let w = mode == AccessMode::Write || mode == AccessMode::ReadWrite;
                self.file_rw_table.set_read(path.as_str(), r);
                self.file_rw_table.set_write(path.as_str(), w);
            }
            proof {
                assert forall|k: Seq<char>|
                    map_write_bit(self.file_rw_table.map@, k) == spec_writer_open(
                        es.take(i + 1),
                        k,
                    ) by {
                    let prev = es.take(i as int);
                    let cur = es.take(i + 1);
                    assert(cur.last() == es[i as int]);
                    assert(forall|j: int| 0 <= j < i ==> cur[j] == es[j] && prev[j] == es[j]);
                    if es[i as int].1 || !(es[i as int].0.path@ == k && is_write_mode(
                        es[i as int].0.mode,
                    )) {
                        assert(spec_writer_open(cur, k) == spec_writer_open(prev, k)) by {
                            if spec_writer_open(cur, k) {
                                let j = choose|j: int|
                                    0 <= j < cur.len() && !(#[trigger] cur[j]).1 && cur[j].0.path@
                                        == k && is_write_mode(cur[j].0.mode);
                                assert(j < i);
                                assert(!prev[j].1 && prev[j].0.path@ == k && is_write_mode(
                                    prev[j].0.mode,
                                ));
                            }
                            if spec_writer_open(prev, k) {
                                let j = choose|j: int|
                                    0 <= j < prev.len() && !(#[trigger] prev[j]).1
                                        && prev[j].0.path@ == k && is_write_mode(prev[j].0.mode);
                                assert(!cur[j].1 && cur[j].0.path@ == k && is_write_mode(
                                    cur[j].0.mode,
                                ));
                            }
                        }
                    } else {
                        assert(!cur[i as int].1 && cur[i as int].0.path@ == k && is_write_mode(
                            cur[i as int].0.mode,
                        ));
                        assert(spec_writer_open(cur, k));
                    }
                }
            }
            i = i + 1;
        }
        proof {
            assert(es.take(n as int) =~= es);
        }
    }

    /// Close a handle: mark its record, then rebuild the summary so that
    /// retiring the last writer of a path immediately frees it.
    pub fn close(&mut self, id: usize)
        requires
            old(self).wf(),
            id < old(self).open_table.entries@.len(),
        ensures
            final(self).wf(),
            final(self).open_table.entries@.len() == old(self).open_table.entries@.len(),
            forall|i: int|
                0 <= i < old(self).open_table.entries@.len() && i != id
                    ==> final(self).open_table.entries@[i] == old(self).open_table.entries@[i],
            final(self).open_table.entries@[id as int].0 == old(self).open_table.entries@[
                id as int].0,
            final(self).open_table.entries@[id as int].1 == true,
    {
        self.open_table.close(id);
        self.update_state();
    }

    /// Whether a writer may open `path` now: true exactly when no
    /// still-open handle writes it.
    pub fn can_write(&self, path: &str) -> (r: bool)
        requires
            self.wf(),
        ensures
            r == !spec_writer_open(self.open_table.entries@, path@),
    {
        self.file_rw_table.can_write(path)
    }

    /// Whether process `pid` has `path` open in mode `mode`.
    pub fn is_open(&self, pid: usize, path: &str, mode: AccessMode) -> (r: bool)
        ensures
            r == spec_is_open(self.open_table.entries@, pid, path@, mode),
    {
        let n = self.open_table.entries.len();
        let mut i: usize = 0;
        while i < n
            invariant
                n == self.open_table.entries@.len(),
                0 <= i <= n,
                forall|j: int|
                    0 <= j < i ==> ((#[trigger] self.open_table.entries@[j]).1
                        || self.open_table.entries@[j].0.pid != pid
                        || self.open_table.entries@[j].0.path@ != path@
                        || self.open_table.entries@[j].0.mode != mode),
            decreases n - i,
        {
            let deleted = self.open_table.entries[i].1;
            if !deleted && self.open_table.entries[i].0.pid == pid && str_eq(
                self.open_table.entries[i].0.path.as_str(),
                path,
            ) && self.open_table.entries[i].0.mode == mode {
                return true;
            }
            i = i + 1;
        }
        false
    }

    /// Whether this handle has already been closed.
    fn is_deleted(&self, id: usize) -> (r: bool)
        requires
            id < self.open_table.entries@.len(),
        ensures
            r == self.open_table.entries@[id as int].1,
    {
        self.open_table.entries[id].1
    }

    /// Whether this handle has already been closed (and so may not be
    /// closed again).
    pub fn already_open(&self, id: usize) -> (r: bool)
        requires
            id < self.open_table.entries@.len(),
        ensures
            r == self.open_table.entries@[id as int].1,
    {
        self.is_deleted(id)
    }

    /// The mode a still-open handle was opened with; nothing for a closed
    /// one.
    pub fn access_mode(&self, id: usize) -> (r: Option<AccessMode>)
        requires
            id < self.open_table.entries@.len(),
        ensures
            match r {
                Some(m) => !self.open_table.entries@[id as int].1 && m == self.open_table.entries@[
                    id as int].0.mode,
                None => self.open_table.entries@[id as int].1,
            },
    {
        if self.is_deleted(id) {
            None
        } else {
            Some(self.open_table.entries[id].0.mode)
        }
    }
}

/// While a handle with a writing mode on a path is open, the path admits
/// no second writer.
pub proof fn lemma_writer_blocks(es: Seq<(RWTableEntry, bool)>, k: Seq<char>, id: int)
    requires
        0 <= id < es.len(),
        !es[id].1,
        es[id].0.path@ == k,
        is_write_mode(es[id].0.mode),
    ensures
        spec_writer_open(es, k),
{
}

/// Closing the only record that writes a path frees the path for the next
/// writer.
pub proof fn lemma_close_last_writer(es: Seq<(RWTableEntry, bool)>, k: Seq<char>, id: int)
    requires
        0 <= id < es.len(),
        forall|j: int|
            0 <= j < es.len() && !(#[trigger] es[j]).1 && es[j].0.path@ == k && is_write_mode(
                es[j].0.mode,
            ) ==> j == id,
    ensures
        !spec_writer_open(es.update(id, (es[id].0, true)), k),
{
    let es2 = es.update(id, (es[id].0, true));
    if spec_writer_open(es2, k) {
        let j = choose|j: int|
            0 <= j < es2.len() && !(#[trigger] es2[j]).1 && es2[j].0.path@ == k && is_write_mode(
                es2[j].0.mode,
            );
        assert(j != id);
        assert(!es[j].1 && es[j].0.path@ == k && is_write_mode(es[j].0.mode));
        assert(false);
    }
}

} // verus!
