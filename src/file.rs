//! Open files, the per-process descriptor table and the file system calls.
use crate::fs::{lookup, read_spec, write_spec, FileSystem, OpenFlags, CREATE, TRUNC};
use crate::bitmap::bit_set;
use crate::pipe::{Pipe, PipeProgress, PipeRingBuffer, RING_BUFFER_SIZE};
use vstd::prelude::*;

verus! {

/// What every kind of open file tells: whether it reads and whether it writes.
pub trait File {
    fn readable(&self) -> bool;

    fn writable(&self) -> bool;
}

/// Console input: readable only.
#[derive(Clone, Copy, PartialEq, Eq, Structural, Debug)]
pub struct Stdin;

/// Console output: writable only.
#[derive(Clone, Copy, PartialEq, Eq, Structural, Debug)]
pub struct Stdout;

impl File for Stdin {
    fn readable(&self) -> bool {
        true
    }

    fn writable(&self) -> bool {
        false
    }
}

impl File for Stdout {
    fn readable(&self) -> bool {
        false
    }

    fn writable(&self) -> bool {
        true
    }
}

impl File for OSInode {
    fn readable(&self) -> bool {
        self.readable
    }

    fn writable(&self) -> bool {
        self.writable
    }
}

/// An open regular file: its inode and the offset of the next read or write.
#[derive(Clone, Copy, PartialEq, Eq, Structural, Debug)]
pub struct OSInode {
    pub readable: bool,
    pub writable: bool,
    pub inode_id: u32,
    pub offset: usize,
}

impl OSInode {
    pub fn new(readable: bool, writable: bool, inode_id: u32) -> (r: Self)
        ensures
            r == (OSInode { readable, writable, inode_id, offset: 0 }),
    {
        OSInode { readable, writable, inode_id, offset: 0 }
    }

    /// Inode number of the file.
    pub fn get_inode_id(&self) -> (r: u64)
        ensures
            r == self.inode_id,
    {
        self.inode_id as u64
    }

    /// Reads up to `len` bytes at the offset and moves past them.
    pub fn read(&mut self, fs: &FileSystem, len: usize) -> (r: Vec<u8>)
        requires
            fs.wf(),
            (old(self).inode_id as int) < fs.files@.len(),
        ensures
            r@ == read_spec(fs.content(old(self).inode_id), old(self).offset as int, len as int),
            final(self).offset == old(self).offset + r@.len(),
            final(self).inode_id == old(self).inode_id,
            final(self).readable == old(self).readable,
            final(self).writable == old(self).writable,
    {
        let r = fs.read_at(self.inode_id, self.offset, len);
        proof {
            let d = fs.files@[self.inode_id as int];
            assert(d@.len() == d.len());
            if self.offset < d@.len() {
                assert(r@.len() <= d@.len() - self.offset);
            }
        }
        self.offset = self.offset + r.len();
        r
    }

    /// Writes `buf` at the offset and moves past it.
    pub fn write(&mut self, fs: &mut FileSystem, buf: &Vec<u8>) -> (r: usize)
        requires
            old(fs).wf(),
            (old(self).inode_id as int) < old(fs).files@.len(),
            old(self).offset + buf@.len() <= usize::MAX,
        ensures
            final(fs).wf(),
            r == buf@.len(),
            final(fs).root == old(fs).root,
            final(fs).files@.len() == old(fs).files@.len(),
            final(fs).content(old(self).inode_id) == write_spec(old(fs).content(old(self).inode_id), old(self).offset as int, buf@),
            final(self).offset == old(self).offset + buf@.len(),
            final(self).inode_id == old(self).inode_id,
            final(self).readable == old(self).readable,
            final(self).writable == old(self).writable,
    {
        let n = fs.write_at(self.inode_id, self.offset, buf);
        self.offset = self.offset + n;
        n
    }
}

/// Opens `name`. With `CREATE` a missing file is made and an existing one
/// emptied; else the file must exist, and `TRUNC` empties it. Readability
/// and writability come from the flags. `None` when the file is missing
/// (and not created).
pub fn open_file(fs: &mut FileSystem, name: &Vec<u8>, flags: OpenFlags) -> (r: Option<OSInode>)
    requires
        old(fs).wf(),
    ensures
        final(fs).wf(),
        r matches Some(f) ==> {
            &&& f.offset == 0
            &&& (f.readable, f.writable) == flags.read_write_spec()
            &&& lookup(final(fs).root@, name@) == Some(f.inode_id)
            &&& (f.inode_id as int) < final(fs).files@.len()
            &&& (flags.bits & CREATE == CREATE || flags.bits & TRUNC == TRUNC) ==> final(fs).content(f.inode_id).len() == 0
            &&& !(flags.bits & CREATE == CREATE || flags.bits & TRUNC == TRUNC) ==> final(fs).content(f.inode_id) == old(fs).content(f.inode_id)
        },
        r.is_none() ==> lookup(old(fs).root@, name@).is_none() && final(fs).files@ == old(fs).files@ && final(fs).root@ == old(fs).root@,
        r.is_none() && flags.bits & CREATE == CREATE ==> forall|i: int| 0 <= i < old(fs).inode_bitmap.bits() ==> #[trigger] bit_set(old(fs).inode_words@, i),
        flags.bits & CREATE != CREATE && lookup(old(fs).root@, name@).is_none() ==> r.is_none(),
        lookup(old(fs).root@, name@).is_some() ==> r.is_some() && final(fs).root@ == old(fs).root@,
        r matches Some(f) ==> forall|i: int| 0 <= i < old(fs).files@.len() && i != f.inode_id ==> #[trigger] final(fs).files@[i] == old(fs).files@[i],
        final(fs).files@.len() == old(fs).files@.len(),
{
    let (readable, writable) = flags.read_write();
    let found = fs.find(name);
    proof {
        if let Some(id) = found {
            let c = choose|c: int| crate::fs::find_index(fs.root@, name@, c);
            assert(fs.root@[c].inode_id < fs.files@.len());
        }
    }
    if flags.contains(CREATE) {
        match found {
            Some(id) => {
                fs.clear(id);
                Some(OSInode::new(readable, writable, id))
            },
            None => match fs.create(name) {
                Some(id) => Some(OSInode::new(readable, writable, id)),
                None => None,
            },
        }
    } else {
        match found {
            Some(id) => {
                if flags.contains(TRUNC) {
                    fs.clear(id);
                }
                Some(OSInode::new(readable, writable, id))
            },
            None => None,
        }
    }
}

impl OpenFlags {
    pub open spec fn read_write_spec(&self) -> (bool, bool) {
        if self.bits == 0 {
            (true, false)
        } else if self.bits & crate::fs::WRONLY != 0 {
            (false, true)
        } else {
            (true, true)
        }
    }
}

/// What a descriptor refers to.
pub enum FileDesc {
    Stdin(Stdin),
    Stdout(Stdout),
    File(OSInode),
    Pipe(Pipe),
}

/// A process's descriptors by number; a closed one leaves `None`.
pub struct FdTable {
    pub entries: Vec<Option<FileDesc>>,
}

/// The `fstat` record of a file.
#[derive(Clone, Copy, PartialEq, Eq, Structural, Debug)]
pub struct Stat {
    pub dev: u64,
    pub ino: u64,
    pub mode: u32,
    pub nlink: u32,
}

/// Mode bits of a regular file.
pub const S_IFREG: u32 = 0o100000;

impl FdTable {
    /// Descriptors 0 and 1: console input and output.
    pub fn new() -> (r: Self)
        ensures
            r.entries@.len() == 2,
            r.entries@[0] matches Some(FileDesc::Stdin(_)),
            r.entries@[1] matches Some(FileDesc::Stdout(_)),
    {
        let mut entries: Vec<Option<FileDesc>> = Vec::new();
        entries.push(Some(FileDesc::Stdin(Stdin)));
        entries.push(Some(FileDesc::Stdout(Stdout)));
        FdTable { entries }
    }

    /// The lowest free descriptor number, growing the table when none is free.
    pub fn alloc_fd(&mut self) -> (fd: usize)
        requires
            old(self).entries@.len() < usize::MAX,
        ensures
            fd < final(self).entries@.len(),
            fd <= old(self).entries@.len(),
            final(self).entries@[fd as int].is_none(),
            forall|j: int| 0 <= j < fd ==> (#[trigger] old(self).entries@[j]).is_some(),
            fd < old(self).entries@.len() ==> final(self).entries@ == old(self).entries@,
            fd == old(self).entries@.len() ==> final(self).entries@ == old(self).entries@.push(None),
    {
        let mut i: usize = 0;
        while i < self.entries.len()
            invariant
                i <= self.entries@.len(),
                self.entries@ == old(self).entries@,
                forall|j: int| 0 <= j < i ==> (#[trigger] self.entries@[j]).is_some(),
            decreases self.entries@.len() - i,
        {
            if self.entries[i].is_none() {
                return i;
            }
            i = i + 1;
        }
        self.entries.push(None);
        i
    }
}

/// Number of write ends of pipe `b` among `entries`.
pub open spec fn write_ends(entries: Seq<Option<FileDesc>>, b: int) -> nat
    decreases entries.len(),
{
    if entries.len() == 0 {
        0
    } else {
        write_ends(entries.drop_last(), b) + if (entries.last() matches Some(FileDesc::Pipe(p)) && p.is_write_end()
            && p.buffer_id() == b) {
            1nat
        } else {
            0nat
        }
    }
}

impl FdTable {
    /// A copy of the table for a new process. Each pipe write end it holds
    /// counts as one more open writer of its pipe (as long as the count fits).
    pub fn duplicate(&self, pipes: &mut Vec<PipeRingBuffer>) -> (r: FdTable)
        requires
            forall|i: int| 0 <= i < old(pipes)@.len() ==> (#[trigger] old(pipes)@[i]).wf(),
            forall|i: int| 0 <= i < old(pipes)@.len() ==> (#[trigger] old(pipes)@[i]).open_writers()
                + write_ends(self.entries@, i) <= usize::MAX,
        ensures
            r.entries@ == self.entries@,
            final(pipes)@.len() == old(pipes)@.len(),
            forall|i: int| 0 <= i < final(pipes)@.len() ==> {
                &&& (#[trigger] final(pipes)@[i]).wf()
                &&& final(pipes)@[i].contents() == old(pipes)@[i].contents()
                &&& final(pipes)@[i].writer_attached() == old(pipes)@[i].writer_attached()
                &&& old(pipes)@[i].writer_attached() ==> final(pipes)@[i].open_writers() == old(pipes)@[i].open_writers()
                    + write_ends(self.entries@, i)
            },
    {
        let mut entries: Vec<Option<FileDesc>> = Vec::new();
        let mut j: usize = 0;
        while j < self.entries.len()
            invariant
                j <= self.entries@.len(),
                entries@ == self.entries@.take(j as int),
                pipes@.len() == old(pipes)@.len(),
                forall|i: int| 0 <= i < old(pipes)@.len() ==> (#[trigger] old(pipes)@[i]).open_writers()
                    + write_ends(self.entries@, i) <= usize::MAX,
                forall|i: int| 0 <= i < pipes@.len() ==> {
                    &&& (#[trigger] pipes@[i]).wf()
                    &&& pipes@[i].contents() == old(pipes)@[i].contents()
                    &&& pipes@[i].writer_attached() == old(pipes)@[i].writer_attached()
                    &&& old(pipes)@[i].writer_attached() ==> pipes@[i].open_writers() == old(pipes)@[i].open_writers()
                        + write_ends(self.entries@.take(j as int), i)
                },
            decreases self.entries@.len() - j,
        {
            let e: Option<FileDesc> = match &self.entries[j] {
                Some(FileDesc::Stdin(x)) => Some(FileDesc::Stdin(*x)),
                Some(FileDesc::Stdout(x)) => Some(FileDesc::Stdout(*x)),
                Some(FileDesc::File(f)) => Some(FileDesc::File(*f)),
                Some(FileDesc::Pipe(p)) => Some(FileDesc::Pipe(*p)),
                None => None,
            };
            let ghost before = pipes@;
            proof {
                assert(self.entries@.take(j + 1).drop_last() =~= self.entries@.take(j as int));
                assert(self.entries@.take(j + 1).last() == self.entries@[j as int]);
            }
            if let Some(FileDesc::Pipe(p)) = &self.entries[j] {
                let b = p.buffer();
                if p.writable() && !p.readable() && b < pipes.len() {
                    proof {
                        lemma_write_ends_prefix(self.entries@, j as int + 1, b as int);
                    }
                    if pipes[b].writer_attached_exec() {
                        let mut ring = PipeRingBuffer::new();
                        std::mem::swap(&mut pipes[b], &mut ring);
                        ring.add_writer();
                        std::mem::swap(&mut pipes[b], &mut ring);
                    }
                    proof {
                        assert forall|i: int| 0 <= i < pipes@.len() && i != b implies #[trigger] pipes@[i] == before[i] by {}
                    }
                }
            }
            entries.push(e);
            j = j + 1;
            assert(entries@ =~= self.entries@.take(j as int));
        }
        assert(self.entries@.take(self.entries@.len() as int) =~= self.entries@);
        FdTable { entries }
    }
}

/// The write ends in a prefix are at most those of the whole table.
proof fn lemma_write_ends_prefix(entries: Seq<Option<FileDesc>>, n: int, b: int)
    requires
        0 <= n <= entries.len(),
    ensures
        write_ends(entries.take(n), b) <= write_ends(entries, b),
    decreases entries.len(),
{
    if n < entries.len() {
        assert(entries.drop_last().take(n) =~= entries.take(n));
        lemma_write_ends_prefix(entries.drop_last(), n, b);
    } else {
        assert(entries.take(n) =~= entries);
    }
}

/// Opens `name` with `flags` (bits as in `OpenFlags`) into the lowest free
/// descriptor; -1 when the file is missing and not created.
pub fn sys_open(fs: &mut FileSystem, fds: &mut FdTable, name: &Vec<u8>, flags: u32) -> (r: isize)
    requires
        old(fs).wf(),
        old(fds).entries@.len() < isize::MAX,
    ensures
        final(fs).wf(),
        r == -1 || r >= 0,
        lookup(old(fs).root@, name@).is_some() ==> r >= 0,
        r == -1 ==> lookup(old(fs).root@, name@).is_none(),
        r == -1 && flags & CREATE == CREATE ==> forall|i: int| 0 <= i < old(fs).inode_bitmap.bits() ==> #[trigger] bit_set(old(fs).inode_words@, i),
        flags & CREATE != CREATE && lookup(old(fs).root@, name@).is_none() ==> r == -1,
        r == -1 ==> final(fds).entries@ == old(fds).entries@ && final(fs).files@ == old(fs).files@,
        r >= 0 ==> (r as int) < final(fds).entries@.len() && (final(fds).entries@[r as int] matches Some(FileDesc::File(f))
            && lookup(final(fs).root@, name@) == Some(f.inode_id) && f.offset == 0
            && (f.inode_id as int) < final(fs).files@.len()
            && (f.readable, f.writable) == (OpenFlags { bits: flags }).read_write_spec()
            && ((flags & CREATE == CREATE || flags & TRUNC == TRUNC) ==> final(fs).content(f.inode_id).len() == 0)
            && (!(flags & CREATE == CREATE || flags & TRUNC == TRUNC) ==> final(fs).content(f.inode_id) == old(fs).content(f.inode_id))
            && (forall|i: int| 0 <= i < old(fs).files@.len() && i != f.inode_id ==> #[trigger] final(fs).files@[i] == old(fs).files@[i])),
        r >= 0 ==> forall|j: int| 0 <= j < old(fds).entries@.len() && j != r ==> #[trigger] final(fds).entries@[j] == old(fds).entries@[j],
        lookup(old(fs).root@, name@).is_some() ==> final(fs).root@ == old(fs).root@
            && (final(fds).entries@[r as int] matches Some(FileDesc::File(f)) && Some(f.inode_id) == lookup(old(fs).root@, name@)),
{
    match open_file(fs, name, OpenFlags { bits: flags }) {
        Some(f) => {
            let fd = fds.alloc_fd();
            assert(fd <= old(fds).entries@.len());
            fds.entries.set(fd, Some(FileDesc::File(f)));
            fd as isize
        },
        None => -1,
    }
}

/// Closes descriptor `fd`; -1 when it is not open. Closing a pipe's write
/// end leaves the pipe one open writer fewer, so that readers see the end
/// once the last one is closed.
pub fn sys_close(fds: &mut FdTable, pipes: &mut Vec<PipeRingBuffer>, fd: usize) -> (r: isize)
    requires
        forall|i: int| 0 <= i < old(pipes)@.len() ==> (#[trigger] old(pipes)@[i]).wf(),
    ensures
        r == -1 <==> fd >= old(fds).entries@.len() || old(fds).entries@[fd as int].is_none(),
        r == -1 ==> final(fds).entries@ == old(fds).entries@ && final(pipes)@ == old(pipes)@,
        r == 0 ==> final(fds).entries@ == old(fds).entries@.update(fd as int, None),
        r == 0 || r == -1,
        final(pipes)@.len() == old(pipes)@.len(),
        forall|i: int| 0 <= i < final(pipes)@.len() ==> {
            &&& (#[trigger] final(pipes)@[i]).wf()
            &&& final(pipes)@[i].contents() == old(pipes)@[i].contents()
            &&& final(pipes)@[i].writer_attached() == old(pipes)@[i].writer_attached()
            &&& final(pipes)@[i].open_writers() == if r == 0 && (old(fds).entries@[fd as int] matches Some(FileDesc::Pipe(p))
                && p.is_write_end() && p.buffer_id() == i && old(pipes)@[i].writer_attached()
                && old(pipes)@[i].open_writers() > 0) {
                (old(pipes)@[i].open_writers() - 1) as nat
            } else {
                old(pipes)@[i].open_writers()
            }
        },
{
    if fd >= fds.entries.len() || fds.entries[fd].is_none() {
        return -1;
    }
    if let Some(FileDesc::Pipe(p)) = &fds.entries[fd] {
        let b = p.buffer();
        if p.writable() && !p.readable() && b < pipes.len() {
            if pipes[b].writer_attached_exec() && !pipes[b].all_write_ends_closed() {
                let ghost before = pipes@;
                let mut ring = PipeRingBuffer::new();
                std::mem::swap(&mut pipes[b], &mut ring);
                ring.drop_writer();
                std::mem::swap(&mut pipes[b], &mut ring);
                assert forall|i: int| 0 <= i < pipes@.len() && i != b implies #[trigger] pipes@[i] == before[i] by {}
            }
        }
    }
    fds.entries.set(fd, None);
    0
}

/// Writes `buf` to descriptor `fd`. A file takes all of it; standard output
/// reports it all written (the caller prints it); a pipe's write end takes
/// what fits, and `-2` asks the caller to yield and write the rest, which
/// `done` counts. -1 for a descriptor that is not open for writing.
pub fn sys_write(
    fs: &mut FileSystem,
    pipes: &mut Vec<PipeRingBuffer>,
    fds: &mut FdTable,
    fd: usize,
    buf: &Vec<u8>,
    done: &mut usize,
) -> (r: isize)
    requires
        old(fs).wf(),
        buf@.len() <= isize::MAX,
        *old(done) <= buf@.len(),
        forall|i: int| 0 <= i < old(pipes)@.len() ==> (#[trigger] old(pipes)@[i]).wf(),
        forall|j: int| 0 <= j < old(fds).entries@.len() ==> (#[trigger] old(fds).entries@[j] matches Some(FileDesc::File(f)) ==> (f.inode_id as int) < old(fs).files@.len()),
    ensures
        final(fs).wf(),
        forall|i: int| 0 <= i < final(pipes)@.len() ==> (#[trigger] final(pipes)@[i]).wf(),
        final(pipes)@.len() == old(pipes)@.len(),
        forall|j: int| 0 <= j < final(fds).entries@.len() ==> (#[trigger] final(fds).entries@[j] matches Some(FileDesc::File(f)) ==> (f.inode_id as int) < final(fs).files@.len()),
        final(fds).entries@.len() == old(fds).entries@.len(),
        r == -1 <==> (fd >= old(fds).entries@.len() || match old(fds).entries@[fd as int] {
            Some(FileDesc::File(f)) => !f.writable || f.offset + buf@.len() > usize::MAX,
            Some(FileDesc::Pipe(p)) => !p.is_write_end() || p.buffer_id() >= old(pipes)@.len(),
            Some(FileDesc::Stdout(_)) => false,
            _ => true,
        }),
        r != -1 ==> (old(fds).entries@[fd as int] matches Some(FileDesc::File(f)) ==> r == buf@.len()
            && final(fs).content(f.inode_id) == write_spec(old(fs).content(f.inode_id), f.offset as int, buf@)),
        r != -1 ==> (old(fds).entries@[fd as int] matches Some(FileDesc::Stdout(_)) ==> r == buf@.len()),
        r != -1 ==> (old(fds).entries@[fd as int] matches Some(FileDesc::Pipe(p)) ==> ({
            let b = p.buffer_id() as int;
            let c0 = old(pipes)@[b].contents();
            let room = RING_BUFFER_SIZE - c0.len();
            let k = if room < buf@.len() - *old(done) { room } else { buf@.len() - *old(done) };
            &&& *final(done) == *old(done) + k
            &&& final(pipes)@[b].contents() == c0 + buf@.subrange(*old(done) as int, *old(done) + k)
            &&& r == if *final(done) == buf@.len() { buf@.len() as isize } else { -2isize }
            &&& forall|i: int| 0 <= i < old(pipes)@.len() && i != b ==> #[trigger] final(pipes)@[i] == old(pipes)@[i]
        })),
        r == -1 || r == -2 || r >= 0,
        r == -1 ==> final(fds).entries@ == old(fds).entries@ && final(pipes)@ == old(pipes)@
            && final(fs).files@ == old(fs).files@ && final(fs).root@ == old(fs).root@ && *final(done) == *old(done),
        r != -1 ==> (old(fds).entries@[fd as int] matches Some(FileDesc::File(f)) ==> final(fds).entries@[fd as int]
            == Some(FileDesc::File(OSInode { offset: (f.offset + buf@.len()) as usize, ..f }))),
{
    if fd >= fds.entries.len() {
        return -1;
    }
    let mut slot: Option<FileDesc> = None;
    std::mem::swap(&mut fds.entries[fd], &mut slot);
    let r = match &mut slot {
        Some(FileDesc::File(f)) => {
            if !f.writable || buf.len() > usize::MAX - f.offset {
                -1
            } else {
                assert((f.inode_id as int) < fs.files@.len()) by {
                    assert(old(fds).entries@[fd as int] matches Some(FileDesc::File(g)) ==> (g.inode_id as int) < old(fs).files@.len());
                }
                f.write(fs, buf) as isize
            }
        },
        Some(FileDesc::Pipe(p)) => {
            if !p.writable() || p.readable() || p.buffer() >= pipes.len() {
                -1
            } else {
                let b = p.buffer();
                let mut ring = PipeRingBuffer::new();
                std::mem::swap(&mut pipes[b], &mut ring);
                let (progress, total) = p.write(&mut ring, buf, *done);
                std::mem::swap(&mut pipes[b], &mut ring);
                *done = total;
                proof {
                    assert forall|i: int| 0 <= i < pipes@.len() implies (#[trigger] pipes@[i]).wf() by {
                        if i != b {
                            assert(pipes@[i] == old(pipes)@[i]);
                        }
                    }
                }
                match progress {
                    PipeProgress::Done(n) => n as isize,
                    PipeProgress::Pending => -2,
                }
            }
        },
        Some(FileDesc::Stdout(_)) => buf.len() as isize,
        _ => -1,
    };
    std::mem::swap(&mut fds.entries[fd], &mut slot);
    proof {
        assert forall|j: int| 0 <= j < fds.entries@.len() implies (#[trigger] fds.entries@[j] matches Some(FileDesc::File(f)) ==> (f.inode_id as int) < fs.files@.len()) by {
            if j != fd {
                assert(fds.entries@[j] == old(fds).entries@[j]);
            }
        }
    }
    r
}

/// Reads up to `len` bytes from descriptor `fd` into `buf`, which holds what
/// earlier rounds of this read got. A file gives what it has from the
/// offset. A pipe's read end gives what is queued; `-2` asks the caller to
/// yield and read on. -1 for a descriptor not open for reading, or
/// standard input, which the caller serves.
pub fn sys_read(
    fs: &FileSystem,
    pipes: &mut Vec<PipeRingBuffer>,
    fds: &mut FdTable,
    fd: usize,
    len: usize,
    buf: &mut Vec<u8>,
) -> (r: isize)
    requires
        fs.wf(),
        len <= isize::MAX,
        old(buf)@.len() <= len,
        forall|i: int| 0 <= i < old(pipes)@.len() ==> (#[trigger] old(pipes)@[i]).wf() && old(pipes)@[i].writer_attached(),
        forall|j: int| 0 <= j < old(fds).entries@.len() ==> (#[trigger] old(fds).entries@[j] matches Some(FileDesc::File(f)) ==> (f.inode_id as int) < fs.files@.len()),
    ensures
        forall|i: int| 0 <= i < final(pipes)@.len() ==> (#[trigger] final(pipes)@[i]).wf() && final(pipes)@[i].writer_attached(),
        final(pipes)@.len() == old(pipes)@.len(),
        forall|j: int| 0 <= j < final(fds).entries@.len() ==> (#[trigger] final(fds).entries@[j] matches Some(FileDesc::File(f)) ==> (f.inode_id as int) < fs.files@.len()),
        final(fds).entries@.len() == old(fds).entries@.len(),
        r == -1 <==> (fd >= old(fds).entries@.len() || match old(fds).entries@[fd as int] {
            Some(FileDesc::File(f)) => !f.readable,
            Some(FileDesc::Pipe(p)) => !p.is_read_end() || p.buffer_id() >= old(pipes)@.len(),
            _ => true,
        }),
        r != -1 ==> (old(fds).entries@[fd as int] matches Some(FileDesc::File(f)) ==> final(buf)@ == old(buf)@ + read_spec(fs.content(f.inode_id), f.offset as int, len - old(buf)@.len())
            && r == final(buf)@.len()),
        r != -1 ==> (old(fds).entries@[fd as int] matches Some(FileDesc::Pipe(p)) ==> ({
            let b = p.buffer_id() as int;
            let c0 = old(pipes)@[b].contents();
            let k = if c0.len() < len - old(buf)@.len() { c0.len() as int } else { len - old(buf)@.len() };
            &&& final(buf)@ == old(buf)@ + c0.take(k)
            &&& final(pipes)@[b].contents() == c0.skip(k)
            &&& r == if final(buf)@.len() == len || (c0.len() == 0 && old(pipes)@[b].open_writers() == 0) {
                final(buf)@.len() as isize
            } else {
                -2isize
            }
            &&& forall|i: int| 0 <= i < old(pipes)@.len() && i != b ==> #[trigger] final(pipes)@[i] == old(pipes)@[i]
        })),
        r == -1 ==> final(fds).entries@ == old(fds).entries@ && final(pipes)@ == old(pipes)@ && final(buf)@ == old(buf)@,
        r != -1 ==> (old(fds).entries@[fd as int] matches Some(FileDesc::File(f)) ==> final(fds).entries@[fd as int]
            == Some(FileDesc::File(OSInode { offset: (f.offset + final(buf)@.len() - old(buf)@.len()) as usize, ..f }))),
        r == -1 || r == -2 || r >= 0,
{
    if fd >= fds.entries.len() {
        return -1;
    }
    let mut slot: Option<FileDesc> = None;
    std::mem::swap(&mut fds.entries[fd], &mut slot);
    let r = match &mut slot {
        Some(FileDesc::File(f)) => {
            if !f.readable {
                -1
            } else {
                assert((f.inode_id as int) < fs.files@.len()) by {
                    assert(old(fds).entries@[fd as int] matches Some(FileDesc::File(g)) ==> (g.inode_id as int) < fs.files@.len());
                }
                let got = f.read(fs, len - buf.len());
                let mut i: usize = 0;
                let ghost b0 = buf@;
                while i < got.len()
                    invariant
                        i <= got@.len(),
                        buf@ == b0 + got@.take(i as int),
                    decreases got@.len() - i,
                {
                    buf.push(got[i]);
                    i = i + 1;
                    assert(buf@ =~= b0 + got@.take(i as int));
                }
                assert(got@.take(got@.len() as int) =~= got@);
                buf.len() as isize
            }
        },
        Some(FileDesc::Pipe(p)) => {
            if !p.readable() || p.writable() || p.buffer() >= pipes.len() {
                -1
            } else {
                let b = p.buffer();
                let mut ring = PipeRingBuffer::new();
                std::mem::swap(&mut pipes[b], &mut ring);
                let progress = p.read(&mut ring, len, buf);
                std::mem::swap(&mut pipes[b], &mut ring);
                proof {
                    assert forall|i: int| 0 <= i < pipes@.len() implies (#[trigger] pipes@[i]).wf() && pipes@[i].writer_attached() by {
                        if i != b {
                            assert(pipes@[i] == old(pipes)@[i]);
                        }
                    }
                }
                match progress {
                    PipeProgress::Done(n) => n as isize,
                    PipeProgress::Pending => -2,
                }
            }
        },
        _ => -1,
    };
    std::mem::swap(&mut fds.entries[fd], &mut slot);
    proof {
        assert forall|j: int| 0 <= j < fds.entries@.len() implies (#[trigger] fds.entries@[j] matches Some(FileDesc::File(f)) ==> (f.inode_id as int) < fs.files@.len()) by {
            if j != fd {
                assert(fds.entries@[j] == old(fds).entries@[j]);
            }
        }
    }
    r
}

/// Makes a pipe: its buffer joins `pipes`, and the read and write ends are
/// returned.
pub fn make_pipe(pipes: &mut Vec<PipeRingBuffer>) -> (r: (Pipe, Pipe))
    ensures
        final(pipes)@.len() == old(pipes)@.len() + 1,
        forall|i: int| 0 <= i < old(pipes)@.len() ==> #[trigger] final(pipes)@[i] == old(pipes)@[i],
        final(pipes)@.last().wf(),
        final(pipes)@.last().contents().len() == 0,
        final(pipes)@.last().writer_attached(),
        final(pipes)@.last().open_writers() == 1,
        r.0.is_read_end() && r.0.buffer_id() == old(pipes)@.len(),
        r.1.is_write_end() && r.1.buffer_id() == old(pipes)@.len(),
{
    let id = pipes.len();
    let mut buffer = PipeRingBuffer::new();
    let read_end = Pipe::read_end_with_buffer(id);
    let write_end = Pipe::write_end_with_buffer(id);
    buffer.set_write_end(&write_end);
    pipes.push(buffer);
    (read_end, write_end)
}

/// Adds name `new` for the file `old_name`; -1 when the names are equal or
/// `old_name` does not exist.
pub fn sys_linkat(fs: &mut FileSystem, old_name: &Vec<u8>, new: &Vec<u8>) -> (r: isize)
    requires
        old(fs).wf(),
    ensures
        final(fs).wf(),
        r == -1 <==> old_name@ == new@ || lookup(old(fs).root@, old_name@).is_none(),
        r == -1 ==> final(fs).root@ == old(fs).root@,
        r == 0 ==> final(fs).root@.last().name@ == new@ && Some(final(fs).root@.last().inode_id) == lookup(old(fs).root@, old_name@)
            && final(fs).root@.len() == old(fs).root@.len() + 1
            && (forall|k: int| 0 <= k < old(fs).root@.len() ==> #[trigger] final(fs).root@[k] == old(fs).root@[k]),
        final(fs).files@ == old(fs).files@,
        r == 0 || r == -1,
{
    if crate::fs::bytes_eq(old_name, new) {
        return -1;
    }
    match fs.link(old_name, new) {
        Some(_) => 0,
        None => -1,
    }
}

/// Removes name `name`; when it was the file's last name the file is
/// emptied. -1 when `name` does not exist.
pub fn sys_unlinkat(fs: &mut FileSystem, name: &Vec<u8>) -> (r: isize)
    requires
        old(fs).wf(),
        old(fs).root@.len() <= u32::MAX,
    ensures
        final(fs).wf(),
        r == -1 <==> lookup(old(fs).root@, name@).is_none(),
        r == -1 ==> final(fs).root@ == old(fs).root@,
        r == 0 ==> exists|k: int|
            crate::fs::find_index(old(fs).root@, name@, k) && final(fs).root@ == old(fs).root@.update(
                k,
                old(fs).root@.last(),
            ).drop_last(),
        r == 0 ==> ({
            let id = lookup(old(fs).root@, name@).unwrap();
            &&& old(fs).root@.filter(|e: crate::fs::DirEntry| e.inode_id == id).len() == 1 ==> final(fs).content(id).len() == 0
            &&& old(fs).root@.filter(|e: crate::fs::DirEntry| e.inode_id == id).len() != 1 ==> final(fs).files@ == old(fs).files@
            &&& forall|i: int| 0 <= i < old(fs).files@.len() && i != id ==> #[trigger] final(fs).files@[i] == old(fs).files@[i]
        }),
        r == -1 ==> final(fs).files@ == old(fs).files@,
        r == 0 || r == -1,
{
    match fs.find(name) {
        Some(id) => {
            proof {
                let c = choose|c: int| crate::fs::find_index(fs.root@, name@, c);
                assert(fs.root@[c].inode_id < fs.files@.len());
            }
            if fs.link_count(id) == 1 {
                fs.clear(id);
            }
            fs.unlink(name)
        },
        None => -1,
    }
}

/// The `fstat` record of descriptor `fd`; `None` when it is not an open file.
pub fn sys_fstat(fs: &FileSystem, fds: &FdTable, fd: usize) -> (r: Option<Stat>)
    requires
        fs.root@.len() <= u32::MAX,
    ensures
        r.is_some() <==> fd < fds.entries@.len() && fds.entries@[fd as int] matches Some(FileDesc::File(_)),
        r matches Some(st) ==> fds.entries@[fd as int] matches Some(FileDesc::File(f)) && st == (Stat {
            dev: 0,
            ino: f.inode_id as u64,
            mode: S_IFREG,
            nlink: fs.root@.filter(|e: crate::fs::DirEntry| e.inode_id == f.inode_id).len() as u32,
        }),
{
    if fd >= fds.entries.len() {
        return None;
    }
    match &fds.entries[fd] {
        Some(FileDesc::File(f)) => {
            let nlink = fs.link_count(f.inode_id);
            Some(Stat { dev: 0, ino: f.get_inode_id(), mode: S_IFREG, nlink })
        },
        _ => None,
    }
}

} // verus!
