//! A flat file system: a root directory of `(name, inode)` entries, the
//! byte contents of each inode, and an inode bitmap.
use crate::bitmap::{bit_set, Bitmap, WORDS_PER_BLOCK};
use vstd::prelude::*;

verus! {

/// Open for reading only (no bit set).
pub const RDONLY: u32 = 0;
/// Open for writing only.
pub const WRONLY: u32 = 1;
/// Open for reading and writing.
pub const RDWR: u32 = 2;
/// Create the file when it does not exist (and empty it when it does).
pub const CREATE: u32 = 0x200;
/// Empty the file on open.
pub const TRUNC: u32 = 0x400;

/// Flags of an `open` call.
#[derive(Clone, Copy, PartialEq, Eq, Structural, Debug)]
pub struct OpenFlags {
    pub bits: u32,
}

impl OpenFlags {
    /// Whether the file opens readable and writable: no flag means read
    /// only; `WRONLY` means write only; anything else both.
    pub fn read_write(&self) -> (r: (bool, bool))
        ensures
            r == if self.bits == 0 {
                (true, false)
            } else if self.bits & WRONLY != 0 {
                (false, true)
            } else {
                (true, true)
            },
    {
        if self.bits == 0 {
            (true, false)
        } else if self.bits & WRONLY != 0 {
            (false, true)
        } else {
            (true, true)
        }
    }

    pub fn contains(&self, flag: u32) -> (r: bool)
        ensures
            r == (self.bits & flag == flag),
    {
        self.bits & flag == flag
    }
}

/// A directory entry.
pub struct DirEntry {
    pub name: Vec<u8>,
    pub inode_id: u32,
}

/// Index of the first entry of `dir` named `name`.
pub open spec fn find_index(dir: Seq<DirEntry>, name: Seq<u8>, k: int) -> bool {
    &&& 0 <= k < dir.len()
    &&& dir[k].name@ == name
    &&& forall|j: int| 0 <= j < k ==> (#[trigger] dir[j]).name@ != name
}

/// The inode that `name` denotes in `dir`: that of its first entry.
pub open spec fn lookup(dir: Seq<DirEntry>, name: Seq<u8>) -> Option<u32> {
    if exists|k: int| find_index(dir, name, k) {
        Some(dir[choose|k: int| find_index(dir, name, k)].inode_id)
    } else {
        None
    }
}

/// The bytes `[offset, offset + len)` of `data`, cut at its end.
pub open spec fn read_spec(data: Seq<u8>, offset: int, len: int) -> Seq<u8> {
    if offset >= data.len() {
        Seq::empty()
    } else if offset + len > data.len() {
        data.subrange(offset, data.len() as int)
    } else {
        data.subrange(offset, offset + len)
    }
}

/// `data` with `buf` written at `offset`; a gap before `offset` reads as zeros.
pub open spec fn write_spec(data: Seq<u8>, offset: int, buf: Seq<u8>) -> Seq<u8> {
    let head = if offset <= data.len() {
        data.take(offset)
    } else {
        data + Seq::new((offset - data.len()) as nat, |i: int| 0u8)
    };
    let tail = if offset + buf.len() < data.len() {
        data.skip(offset + buf.len())
    } else {
        Seq::empty()
    };
    head + buf + tail
}

/// Whether two byte strings are equal.
pub fn bytes_eq(a: &Vec<u8>, b: &Vec<u8>) -> (r: bool)
    ensures
        r == (a@ == b@),
{
    if a.len() != b.len() {
        return false;
    }
    let mut i: usize = 0;
    while i < a.len()
        invariant
            i <= a@.len(),
            a@.len() == b@.len(),
            forall|j: int| 0 <= j < i ==> a@[j] == b@[j],
        decreases a@.len() - i,
    {
        if a[i] != b[i] {
            return false;
        }
        i = i + 1;
    }
    assert(a@ =~= b@);
    true
}

/// A copy of a byte string.
pub fn copy_bytes(a: &Vec<u8>) -> (r: Vec<u8>)
    ensures
        r@ == a@,
{
    let mut r: Vec<u8> = Vec::new();
    let mut i: usize = 0;
    while i < a.len()
        invariant
            i <= a@.len(),
            r@ == a@.take(i as int),
        decreases a@.len() - i,
    {
        r.push(a[i]);
        i = i + 1;
        assert(r@ =~= a@.take(i as int));
    }
    assert(r@ =~= a@);
    r
}

/// The file system.
pub struct FileSystem {
    pub root: Vec<DirEntry>,
    pub files: Vec<Vec<u8>>,
    pub inode_bitmap: Bitmap,
    pub inode_words: Vec<u64>,
}

impl FileSystem {
    pub open spec fn wf(&self) -> bool {
        &&& self.inode_bitmap.bits() <= usize::MAX
        &&& self.inode_bitmap.bits() <= u32::MAX
        &&& self.inode_words@.len() == self.inode_bitmap.spec_blocks() * WORDS_PER_BLOCK
        &&& self.files@.len() == self.inode_bitmap.bits()
        &&& forall|k: int| 0 <= k < self.root@.len() ==> (#[trigger] self.root@[k]).inode_id < self.files@.len()
    }

    /// Contents of inode `ino`.
    pub open spec fn content(&self, ino: u32) -> Seq<u8> {
        self.files@[ino as int]@
    }

    /// An empty file system with `inode_blocks` blocks of inode bitmap.
    pub fn new(inode_blocks: usize) -> (r: Self)
        requires
            inode_blocks * 4096 <= u32::MAX,
        ensures
            r.wf(),
            r.root@.len() == 0,
            forall|i: int| 0 <= i < r.files@.len() ==> (#[trigger] r.files@[i])@.len() == 0,
    {
        let inode_bitmap = Bitmap::new(1, inode_blocks);
        let n = inode_blocks * WORDS_PER_BLOCK;
        let mut inode_words: Vec<u64> = Vec::new();
        let mut i: usize = 0;
        while i < n
            invariant
                i <= n,
                inode_words@.len() == i,
            decreases n - i,
        {
            inode_words.push(0);
            i = i + 1;
        }
        let total = inode_blocks * 4096;
        let mut files: Vec<Vec<u8>> = Vec::new();
        let mut j: usize = 0;
        while j < total
            invariant
                j <= total,
                files@.len() == j,
                forall|q: int| 0 <= q < j ==> (#[trigger] files@[q])@.len() == 0,
            decreases total - j,
        {
            files.push(Vec::new());
            j = j + 1;
        }
        FileSystem { root: Vec::new(), files, inode_bitmap, inode_words }
    }

    /// Position of the first entry named `name`.
    fn find_pos(&self, name: &Vec<u8>) -> (r: Option<usize>)
        ensures
            r matches Some(k) ==> find_index(self.root@, name@, k as int),
            r.is_none() ==> forall|k: int| 0 <= k < self.root@.len() ==> (#[trigger] self.root@[k]).name@ != name@,
    {
        let mut i: usize = 0;
        while i < self.root.len()
            invariant
                i <= self.root@.len(),
                forall|k: int| 0 <= k < i ==> (#[trigger] self.root@[k]).name@ != name@,
            decreases self.root@.len() - i,
        {
            if bytes_eq(&self.root[i].name, name) {
                return Some(i);
            }
            i = i + 1;
        }
        None
    }

    /// The inode that `name` denotes.
    pub fn find(&self, name: &Vec<u8>) -> (r: Option<u32>)
        ensures
            r == lookup(self.root@, name@),
    {
        match self.find_pos(name) {
            Some(k) => {
                proof {
                    let c = choose|c: int| find_index(self.root@, name@, c);
                    if c < k {
                        assert(self.root@[c].name@ != name@);
                    }
                    if k < c {
                        assert(self.root@[k as int].name@ != name@);
                    }
                }
                Some(self.root[k].inode_id)
            },
            None => None,
        }
    }

    /// Creates an empty file `name` in a fresh inode. `None` when the name
    /// exists or no inode is free.
    pub fn create(&mut self, name: &Vec<u8>) -> (r: Option<u32>)
        requires
            old(self).wf(),
        ensures
            final(self).wf(),
            lookup(old(self).root@, name@).is_some() ==> r.is_none(),
            r.is_none() ==> final(self).root@ == old(self).root@ && final(self).files@ == old(self).files@,
            r.is_none() ==> lookup(old(self).root@, name@).is_some() || forall|i: int|
                0 <= i < old(self).inode_bitmap.bits() ==> #[trigger] bit_set(old(self).inode_words@, i),
            final(self).inode_bitmap == old(self).inode_bitmap,
            final(self).files@.len() == old(self).files@.len(),
            r matches Some(id) ==> {
                &&& lookup(old(self).root@, name@).is_none()
                &&& !bit_set(old(self).inode_words@, id as int)
                &&& lookup(final(self).root@, name@) == Some(id)
                &&& final(self).content(id).len() == 0
                &&& final(self).root@.len() == old(self).root@.len() + 1
                &&& forall|k: int| 0 <= k < old(self).root@.len() ==> #[trigger] final(self).root@[k] == old(self).root@[k]
                &&& forall|i: int| 0 <= i < final(self).files@.len() && i != id ==> #[trigger] final(self).files@[i] == old(self).files@[i]
            },
    {
        if self.find(name).is_some() {
            return None;
        }
        let id = match self.inode_bitmap.allocate(&mut self.inode_words) {
            Some(b) => b,
            None => {
                return None;
            },
        };
        self.files.set(id, Vec::new());
        let entry = DirEntry { name: copy_bytes(name), inode_id: id as u32 };
        let ghost r0 = self.root@;
        self.root.push(entry);
        proof {
            let n = r0.len() as int;
            assert(find_index(self.root@, name@, n)) by {
                assert forall|j: int| 0 <= j < n implies (#[trigger] self.root@[j]).name@ != name@ by {
                    assert(self.root@[j] == r0[j]);
                    if r0[j].name@ == name@ {
                        let c = j;
                        assert(exists|k: int| find_index(r0, name@, k)) by {
                            let mut m = 0int;
                            assert(exists|k: int| 0 <= k < r0.len() && r0[k].name@ == name@);
                            lemma_first_match(r0, name@);
                        }
                    }
                }
            }
            let c = choose|c: int| find_index(self.root@, name@, c);
            if c < n {
                assert(self.root@[c].name@ != name@);
            }
            assert forall|k: int| 0 <= k < self.root@.len() implies (#[trigger] self.root@[k]).inode_id < self.files@.len() by {
                if k < n {
                    assert(self.root@[k] == r0[k]);
                }
            }
        }
        Some(id as u32)
    }

    /// Adds entry `new` for the inode of `old_name`; `None` when `old_name`
    /// does not exist.
    pub fn link(&mut self, old_name: &Vec<u8>, new: &Vec<u8>) -> (r: Option<u32>)
        requires
            old(self).wf(),
        ensures
            final(self).wf(),
            r == lookup(old(self).root@, old_name@),
            final(self).files@ == old(self).files@,
            r.is_none() ==> final(self).root@ == old(self).root@,
            r matches Some(id) ==> final(self).root@.len() == old(self).root@.len() + 1
                && final(self).root@.last().name@ == new@ && final(self).root@.last().inode_id == id
                && forall|k: int| 0 <= k < old(self).root@.len() ==> #[trigger] final(self).root@[k] == old(self).root@[k],
    {
        match self.find(old_name) {
            Some(id) => {
                proof {
                    let c = choose|c: int| find_index(self.root@, old_name@, c);
                    assert(self.root@[c].inode_id < self.files@.len());
                }
                let ghost r0 = self.root@;
                self.root.push(DirEntry { name: copy_bytes(new), inode_id: id });
                proof {
                    assert forall|k: int| 0 <= k < self.root@.len() implies (#[trigger] self.root@[k]).inode_id < self.files@.len() by {
                        if k < r0.len() {
                            assert(self.root@[k] == r0[k]);
                        }
                    }
                }
                Some(id)
            },
            None => None,
        }
    }

    /// Removes the first entry named `name` by moving the last entry into its
    /// place. 0, or -1 when there is none.
    pub fn unlink(&mut self, name: &Vec<u8>) -> (r: isize)
        requires
            old(self).wf(),
        ensures
            final(self).wf(),
            final(self).files@ == old(self).files@,
            r == 0 <==> lookup(old(self).root@, name@).is_some(),
            r == -1 ==> final(self).root@ == old(self).root@,
            r == 0 ==> exists|k: int|
                find_index(old(self).root@, name@, k) && final(self).root@ == old(self).root@.update(
                    k,
                    old(self).root@.last(),
                ).drop_last(),
            r == 0 || r == -1,
    {
        match self.find_pos(name) {
            Some(k) => {
                let ghost r0 = self.root@;
                let last = self.root.pop().unwrap();
                if k < self.root.len() {
                    self.root.set(k, last);
                }
                proof {
                    assert(self.root@ =~= r0.update(k as int, r0.last()).drop_last());
                    assert(exists|c: int| find_index(r0, name@, c));
                    assert forall|q: int| 0 <= q < self.root@.len() implies (#[trigger] self.root@[q]).inode_id < self.files@.len() by {
                        if q == k {
                            assert(r0[r0.len() - 1].inode_id < self.files@.len());
                        } else {
                            assert(self.root@[q] == r0[q]);
                        }
                    }
                }
                0
            },
            None => {
                proof {
                    if exists|c: int| find_index(self.root@, name@, c) {
                        let c = choose|c: int| find_index(self.root@, name@, c);
                        assert(self.root@[c].name@ != name@);
                    }
                }
                -1
            },
        }
    }

    /// Number of entries that denote inode `ino`.
    pub fn link_count(&self, ino: u32) -> (r: u32)
        requires
            self.root@.len() <= u32::MAX,
        ensures
            r == self.root@.filter(|e: DirEntry| e.inode_id == ino).len(),
    {
        let mut count: u32 = 0;
        let mut i: usize = 0;
        while i < self.root.len()
            invariant
                i <= self.root@.len(),
                self.root@.len() <= u32::MAX,
                count == self.root@.take(i as int).filter(|e: DirEntry| e.inode_id == ino).len(),
                count <= i,
            decreases self.root@.len() - i,
        {
            proof {
                reveal(Seq::filter);
                assert(self.root@.take(i + 1).drop_last() =~= self.root@.take(i as int));
                self.root@.take(i as int).lemma_filter_len(|e: DirEntry| e.inode_id == ino);
            }
            if self.root[i].inode_id == ino {
                count = count + 1;
            }
            i = i + 1;
        }
        assert(self.root@.take(self.root@.len() as int) =~= self.root@);
        count
    }

    /// Bytes `[offset, offset + len)` of inode `ino`, cut at its end.
    pub fn read_at(&self, ino: u32, offset: usize, len: usize) -> (r: Vec<u8>)
        requires
            self.wf(),
            (ino as int) < self.files@.len(),
        ensures
            r@ == read_spec(self.content(ino), offset as int, len as int),
    {
        let data = &self.files[ino as usize];
        let mut r: Vec<u8> = Vec::new();
        if offset >= data.len() {
            return r;
        }
        let end = if len > data.len() - offset { data.len() } else { offset + len };
        let mut i = offset;
        while i < end
            invariant
                offset <= i <= end <= data@.len(),
                r@ == data@.subrange(offset as int, i as int),
            decreases end - i,
        {
            r.push(data[i]);
            i = i + 1;
            assert(r@ =~= data@.subrange(offset as int, i as int));
        }
        r
    }

    /// Writes `buf` into inode `ino` at `offset`, growing the file as needed.
    pub fn write_at(&mut self, ino: u32, offset: usize, buf: &Vec<u8>) -> (r: usize)
        requires
            old(self).wf(),
            (ino as int) < old(self).files@.len(),
            offset + buf@.len() <= usize::MAX,
        ensures
            final(self).wf(),
            r == buf@.len(),
            final(self).root == old(self).root,
            final(self).files@.len() == old(self).files@.len(),
            final(self).content(ino) == write_spec(old(self).content(ino), offset as int, buf@),
            forall|i: int| 0 <= i < final(self).files@.len() && i != ino ==> #[trigger] final(self).files@[i] == old(self).files@[i],
    {
        let mut data = crate::fs::take_file(&mut self.files, ino as usize);
        let ghost d0 = data@;
        while data.len() < offset
            invariant
                data@.len() <= offset || data@.len() == d0.len(),
                d0.len() <= data@.len(),
                data@ == d0 + Seq::new((data@.len() - d0.len()) as nat, |i: int| 0u8),
            decreases offset - data@.len(),
        {
            data.push(0);
            assert(data@ =~= d0 + Seq::new((data@.len() - d0.len()) as nat, |i: int| 0u8));
        }
        let ghost padded = data@;
        let mut i: usize = 0;
        while i < buf.len()
            invariant
                i <= buf@.len(),
                offset + buf@.len() <= usize::MAX,
                padded.len() >= offset,
                data@.len() == if offset + i > padded.len() { offset + i } else { padded.len() as int },
                forall|q: int| 0 <= q < offset ==> #[trigger] data@[q] == padded[q],
                forall|q: int| offset <= q < offset + i ==> #[trigger] data@[q] == buf@[q - offset],
                forall|q: int| offset + i <= q < data@.len() ==> #[trigger] data@[q] == padded[q],
            decreases buf@.len() - i,
        {
            if offset + i < data.len() {
                data.set(offset + i, buf[i]);
            } else {
                data.push(buf[i]);
            }
            i = i + 1;
        }
        proof {
            let w = write_spec(d0, offset as int, buf@);
            assert(data@ =~= w) by {
                if offset <= d0.len() {
                    assert(padded =~= d0);
                }
            }
        }
        self.files.set(ino as usize, data);
        buf.len()
    }

    /// Empties inode `ino`.
    pub fn clear(&mut self, ino: u32)
        requires
            old(self).wf(),
            (ino as int) < old(self).files@.len(),
        ensures
            final(self).wf(),
            final(self).root == old(self).root,
            final(self).files@.len() == old(self).files@.len(),
            final(self).content(ino).len() == 0,
            forall|i: int| 0 <= i < final(self).files@.len() && i != ino ==> #[trigger] final(self).files@[i] == old(self).files@[i],
    {
        self.files.set(ino as usize, Vec::new());
    }
}

/// Takes the contents of slot `i` out, leaving an empty file.
pub fn take_file(v: &mut Vec<Vec<u8>>, i: usize) -> (r: Vec<u8>)
    requires
        i < old(v)@.len(),
    ensures
        r == old(v)@[i as int],
        final(v)@.len() == old(v)@.len(),
        forall|j: int| 0 <= j < final(v)@.len() && j != i ==> #[trigger] final(v)@[j] == old(v)@[j],
{
    let mut tmp: Vec<u8> = Vec::new();
    std::mem::swap(&mut v[i], &mut tmp);
    tmp
}

/// When some entry of `dir` is named `name`, a first one is.
proof fn lemma_first_match(dir: Seq<DirEntry>, name: Seq<u8>)
    requires
        exists|k: int| 0 <= k < dir.len() && dir[k].name@ == name,
    ensures
        exists|k: int| find_index(dir, name, k),
    decreases dir.len(),
{
    let k = choose|k: int| 0 <= k < dir.len() && dir[k].name@ == name;
    if dir[0].name@ == name {
        assert(find_index(dir, name, 0));
    } else {
        let rest = dir.drop_first();
        assert(rest[k - 1] == dir[k]);
        lemma_first_match(rest, name);
        let j = choose|j: int| find_index(rest, name, j);
        assert forall|q: int| 0 <= q < j + 1 implies (#[trigger] dir[q]).name@ != name by {
            if q > 0 {
                assert(dir[q] == rest[q - 1]);
            }
        }
        assert(find_index(dir, name, j + 1));
    }
}

/// Reading back the first `buf.len()` bytes of a file just written from
/// offset 0 with `buf` gives `buf`, whatever the file held before.
pub proof fn lemma_write_then_read(data: Seq<u8>, buf: Seq<u8>)
    ensures
        read_spec(write_spec(data, 0, buf), 0, buf.len() as int) == buf,
{
    let w = write_spec(data, 0, buf);
    assert(data.take(0) =~= Seq::<u8>::empty());
    if buf.len() > 0 {
        assert(w.subrange(0, buf.len() as int) =~= buf);
    } else {
        assert(read_spec(w, 0, 0) =~= buf) by {
            if 0 < w.len() {
                assert(w.subrange(0, 0) =~= buf);
            }
        }
    }
}

} // verus!
