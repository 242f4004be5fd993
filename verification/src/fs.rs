//! Open files of the kernel: an inode with a cursor and with the rights to
//! read or to write.
use crate::block_dev::BlockDevice;
use crate::codec::spec_splice;
use crate::disk_inode::{spec_clip, spec_data_blocks, spec_total_blocks, spec_window, DiskInode};
use crate::efs::{
    spec_file, spec_find, spec_inode_used, spec_ls, spec_others_same,
    EasyFileSystem};
use crate::layout::{spec_first_nul, MAX_FILE_SIZE};
use crate::mm::{spec_total_len, UserBuffer};
use crate::vfs::{spec_read, spec_same_mount, spec_written, Inode};
use vstd::prelude::*;
use vstd::string::StringSliceAdditionalSpecFns;

verus! {

/// Bit of `OpenFlags`: open for writing only.
pub const WRITE_ONLY: u32 = 1;

/// Bit of `OpenFlags`: open for reading and writing.
pub const READ_WRITE: u32 = 2;

/// Bit of `OpenFlags`: create the file, or empty it if it exists.
pub const CREATE: u32 = 512;

/// Bit of `OpenFlags`: empty the file.
pub const TRUNCATE: u32 = 1024;

/// All bits that `OpenFlags` knows.
pub const OPEN_FLAGS_ALL: u32 = 1539;

/// How a file is to be opened. No bit set means: for reading only.
#[derive(Copy, Clone, PartialEq, Eq, Structural, Debug)]
pub struct OpenFlags {
    pub bits: u32,
}

impl OpenFlags {
    /// The flags with the given bits, if all of them are known.
    pub fn from_bits(bits: u32) -> (flags: Option<Self>)
        ensures
            flags == (if bits & !OPEN_FLAGS_ALL == 0 {
                Some(OpenFlags { bits })
            } else {
                None
            }),
    {
        if bits & !OPEN_FLAGS_ALL == 0 {
            Some(OpenFlags { bits })
        } else {
            None
        }
    }

    /// The bits of the flags.
    pub fn bits(&self) -> (bits: u32)
        ensures
            bits == self.bits,
    {
        self.bits
    }

    /// Is no bit set?
    pub fn is_empty(&self) -> (r: bool)
        ensures
            r == (self.bits == 0),
    {
        self.bits == 0
    }

    /// Are all bits of `other` set?
    pub fn contains(&self, other: OpenFlags) -> (r: bool)
        ensures
            r == (self.bits & other.bits == other.bits),
    {
        self.bits & other.bits == other.bits
    }

    /// Whether the file may be read and whether it may be written: read
    /// only without any bit, write only with the bit for it, else both.
    pub fn read_write(&self) -> (rw: (bool, bool))
        ensures
            rw == (if self.bits == 0 {
                (true, false)
            } else if self.bits & WRITE_ONLY == WRITE_ONLY {
                (false, true)
            } else {
                (true, true)
            }),
    {
        if self.is_empty() {
            (true, false)
        } else if self.contains(OpenFlags { bits: WRITE_ONLY }) {
            (false, true)
        } else {
            (true, true)
        }
    }
}

/// An open file: an inode, the place in it where the next read or write
/// starts, and what may be done with it.
#[derive(Copy, Clone, PartialEq, Eq, Structural, Debug)]
pub struct OSInode {
    pub readable: bool,
    pub writable: bool,
    pub offset: usize,
    pub inode: Inode,
}

/// The pieces `buffers` after a read from `file` at `offset` has filled
/// them from piece `from` on, and the number of bytes read. The pieces are
/// filled one after the other; the read ends at the first piece for which
/// nothing is left to read.
pub open spec fn spec_scatter(
    file: Seq<u8>,
    offset: int,
    buffers: Seq<Seq<u8>>,
    from: int,
) -> (Seq<Seq<u8>>, int)
    decreases buffers.len() - from,
{
    if from >= buffers.len() || from < 0 {
        (buffers, 0)
    } else {
        let n = spec_clip(offset, buffers[from].len() as int, file.len() as int);
        if n == 0 {
            (buffers, 0)
        } else {
            let rest = spec_scatter(
                file,
                offset + n,
                buffers.update(from, spec_splice(buffers[from], 0, spec_window(file, offset, n))),
                from + 1,
            );
            (rest.0, n + rest.1)
        }
    }
}

/// The file after the pieces of `buffers` from piece `from` on were written
/// to it one after the other, the first at `offset`.
pub open spec fn spec_gather(file: Seq<u8>, offset: int, buffers: Seq<Vec<u8>>, from: int) -> Seq<
    u8,
>
    decreases buffers.len() - from,
{
    if from >= buffers.len() || from < 0 {
        file
    } else {
        spec_gather(
            spec_written(file, offset, buffers[from]@),
            offset + buffers[from]@.len(),
            buffers,
            from + 1,
        )
    }
}

/// The views of the pieces of `buffers`.
pub open spec fn spec_pieces(buffers: Seq<Vec<u8>>) -> Seq<Seq<u8>> {
    Seq::new(buffers.len(), |i: int| buffers[i]@)
}

/// The file after all pieces were written reaches as far as the last of
/// them, or as far as before.
pub proof fn lemma_gather_len(file: Seq<u8>, offset: int, buffers: Seq<Vec<u8>>, from: int)
    requires
        0 <= offset,
        0 <= from,
    ensures
        spec_gather(file, offset, buffers, from).len() == (if from < buffers.len() && offset
            + spec_total_len(buffers, from) > file.len() {
            offset + spec_total_len(buffers, from)
        } else {
            file.len() as int
        }),
    decreases buffers.len() - from,
{
    if from < buffers.len() {
        crate::mm::lemma_flat_len(buffers, from + 1);
        lemma_gather_len(
            spec_written(file, offset, buffers[from]@),
            offset + buffers[from]@.len(),
            buffers,
            from + 1,
        );
    }
}

/// A longer file takes no fewer blocks.
pub proof fn lemma_total_blocks_monotone(a: int, b: int)
    requires
        0 <= a <= b,
    ensures
        spec_total_blocks(a) <= spec_total_blocks(b),
{
    let da = spec_data_blocks(a);
    let db = spec_data_blocks(b);
    assert(da <= db);
    if da > 156 {
        assert((da - 156 + 127) / 128 <= (db - 156 + 127) / 128);
    }
}

impl OSInode {
    /// An open file on `inode` with its cursor at the start.
    pub fn new(readable: bool, writable: bool, inode: Inode) -> (file: Self)
        ensures
            file.readable == readable,
            file.writable == writable,
            file.offset == 0,
            file.inode == inode,
    {
        Self { readable, writable, offset: 0, inode }
    }

    /// May the file be read?
    pub fn readable(&self) -> (r: bool)
        ensures
            r == self.readable,
    {
        self.readable
    }

    /// May the file be written?
    pub fn writable(&self) -> (w: bool)
        ensures
            w == self.writable,
    {
        self.writable
    }

    /// Reads the file from the cursor to its end and leaves the cursor
    /// there.
    pub fn read_all<D: BlockDevice>(&mut self, fs: &mut EasyFileSystem<D>) -> (data: Vec<u8>)
        requires
            old(self).inode.spec_live(old(fs)),
            old(self).offset + 512 <= usize::MAX,
        ensures
            final(fs).inv(),
            final(fs)@ == old(fs)@,
            spec_same_mount(final(fs), old(fs)),
            final(self).inode == old(self).inode,
            final(self).readable == old(self).readable,
            final(self).writable == old(self).writable,
            data@ == spec_read(
                spec_file(
                    old(fs).spec_geometry(),
                    old(fs)@,
                    old(self).inode.spec_ino(old(fs).spec_geometry()),
                ),
                old(self).offset as int,
                MAX_FILE_SIZE as int,
            ),
            final(self).offset == old(self).offset + data@.len(),
    {
        let ghost g = fs.spec_geometry();
        let ghost disk = fs@;
        let ghost file = spec_file(g, disk, self.inode.spec_ino(g));
        let ghost start = self.offset;
        proof {
            assert(crate::efs::spec_inode_ok(g, disk, self.inode.spec_ino(g)));
        }
        let mut buf: Vec<u8> = vec![0u8; 512];
        let mut v: Vec<u8> = Vec::new();
        loop
            invariant
                self.inode == old(self).inode,
                self.readable == old(self).readable,
                self.writable == old(self).writable,
                self.inode.spec_live(fs),
                fs@ == disk,
                disk == old(fs)@,
                g == fs.spec_geometry(),
                g == old(fs).spec_geometry(),
                spec_same_mount(fs, old(fs)),
                file == spec_file(g, disk, self.inode.spec_ino(g)),
                file.len() <= MAX_FILE_SIZE,
                buf@.len() == 512,
                start == old(self).offset,
                start + 512 <= usize::MAX,
                self.offset == start + v@.len(),
                self.offset <= file.len() || v@.len() == 0,
                v@ == spec_window(file, start as int, v@.len() as int),
            ensures
                v@ == spec_read(file, start as int, MAX_FILE_SIZE as int),
                self.offset == start + v@.len(),
                self.inode == old(self).inode,
                self.readable == old(self).readable,
                self.writable == old(self).writable,
                fs.inv(),
                fs@ == disk,
                spec_same_mount(fs, old(fs)),
            decreases file.len() - self.offset,
        {
            let len: usize = self.inode.read_at(fs, self.offset, buf.as_mut_slice());
            if len == 0 {
                proof {
                    assert(v@ =~= spec_read(file, start as int, MAX_FILE_SIZE as int));
                }
                break ;
            }
            let ghost before = v@;
            let mut i: usize = 0;
            while i < len
                invariant
                    i <= len,
                    len <= 512,
                    buf@.len() == 512,
                    v@ == before + buf@.subrange(0, i as int),
                decreases len - i,
            {
                v.push(buf[i]);
                i += 1;
                assert(v@ =~= before + buf@.subrange(0, i as int));
            }
            self.offset += len;
            proof {
                assert(v@ =~= spec_window(file, start as int, v@.len() as int));
            }
        }
        v
    }

    /// Reads from the cursor on into the pieces of `buf`, one piece after
    /// the other, up to the end of the file, moves the cursor behind what
    /// was read, and returns the number of bytes read.
    pub fn read<D: BlockDevice>(&mut self, fs: &mut EasyFileSystem<D>, buf: &mut UserBuffer) -> (n:
        usize)
        requires
            old(self).inode.spec_live(old(fs)),
            old(self).offset + spec_total_len(old(buf).buffers@, 0) <= usize::MAX,
        ensures
            final(fs).inv(),
            final(fs)@ == old(fs)@,
            spec_same_mount(final(fs), old(fs)),
            final(self).inode == old(self).inode,
            final(self).readable == old(self).readable,
            final(self).writable == old(self).writable,
            final(self).offset == old(self).offset + n,
            final(buf).buffers@.len() == old(buf).buffers@.len(),
            n <= spec_total_len(old(buf).buffers@, 0),
            (spec_pieces(final(buf).buffers@), n as int) == spec_scatter(
                spec_file(
                    old(fs).spec_geometry(),
                    old(fs)@,
                    old(self).inode.spec_ino(old(fs).spec_geometry()),
                ),
                old(self).offset as int,
                spec_pieces(old(buf).buffers@),
                0,
            ),
    {
        let ghost g = fs.spec_geometry();
        let ghost disk = fs@;
        let ghost file = spec_file(g, disk, self.inode.spec_ino(g));
        let ghost goal = spec_scatter(file, self.offset as int, spec_pieces(buf.buffers@), 0);
        let count: usize = buf.buffers.len();
        let mut total_read_size: usize = 0;
        let mut i: usize = 0;
        proof {
            crate::mm::lemma_flat_len(buf.buffers@, 0);
        }
        while i < count
            invariant
                i <= count,
                count == buf.buffers@.len(),
                self.inode == old(self).inode,
                self.readable == old(self).readable,
                self.writable == old(self).writable,
                self.inode.spec_live(fs),
                fs@ == disk,
                disk == old(fs)@,
                g == fs.spec_geometry(),
                g == old(fs).spec_geometry(),
                spec_same_mount(fs, old(fs)),
                file == spec_file(g, disk, self.inode.spec_ino(g)),
                self.offset == old(self).offset + total_read_size,
                self.offset + spec_total_len(buf.buffers@, i as int) <= usize::MAX,
                count == old(buf).buffers@.len(),
                total_read_size + spec_total_len(buf.buffers@, i as int) <= spec_total_len(
                    old(buf).buffers@,
                    0,
                ),
                goal.0 == spec_scatter(
                    file,
                    self.offset as int,
                    spec_pieces(buf.buffers@),
                    i as int,
                ).0,
                goal.1 == total_read_size + spec_scatter(
                    file,
                    self.offset as int,
                    spec_pieces(buf.buffers@),
                    i as int,
                ).1,
            ensures
                self.inode == old(self).inode,
                self.readable == old(self).readable,
                self.writable == old(self).writable,
                fs.inv(),
                fs@ == disk,
                spec_same_mount(fs, old(fs)),
                self.offset == old(self).offset + total_read_size,
                goal == (spec_pieces(buf.buffers@), total_read_size as int),
                count == buf.buffers@.len(),
                count == old(buf).buffers@.len(),
                total_read_size <= spec_total_len(old(buf).buffers@, 0),
            decreases count - i,
        {
            let ghost pieces = spec_pieces(buf.buffers@);
            let ghost before = buf.buffers@;
            proof {
                crate::mm::lemma_flat_len(buf.buffers@, i + 1);
                crate::mm::lemma_flat_len(buf.buffers@, i as int);
                assert(pieces[i as int] == buf.buffers@[i as int]@);
            }
            let read_size: usize = self.inode.read_at(fs, self.offset, buf.buffers[i].as_mut_slice());
            proof {
                let after = buf.buffers@;
                assert(after.len() == before.len());
                assert forall|k: int| 0 <= k < after.len() && k != i implies after[k] == before[k] by {}
                let n = spec_clip(self.offset as int, pieces[i as int].len() as int, file.len() as int);
                assert(read_size == n);
                assert(spec_pieces(after) =~= pieces.update(
                    i as int,
                    spec_splice(pieces[i as int], 0, spec_window(file, self.offset as int, n)),
                ));
                if n == 0 {
                    assert(spec_splice(
                        pieces[i as int],
                        0,
                        spec_window(file, self.offset as int, 0),
                    ) =~= pieces[i as int]);
                    assert(spec_pieces(after) =~= pieces);
                }
                assert forall|k: int| i < k < after.len() implies after[k]@.len() == before[k]@.len() by {}
                lemma_total_same(before, after, i + 1);
            }
            if read_size == 0 {
                break ;
            }
            self.offset += read_size;
            total_read_size += read_size;
            i += 1;
        }
        total_read_size
    }

    /// Writes the pieces of `buf` at the cursor, one piece after the
    /// other, moves the cursor behind what was written, and returns the
    /// number of bytes written, which is the number of bytes of `buf`. The
    /// file grows as far as it has to.
    pub fn write<D: BlockDevice>(&mut self, fs: &mut EasyFileSystem<D>, buf: &UserBuffer) -> (n:
        usize)
        requires
            old(self).inode.spec_live(old(fs)),
            old(self).inode.spec_ino(old(fs).spec_geometry()) != 0,
            old(self).offset + spec_total_len(buf.buffers@, 0) <= MAX_FILE_SIZE,
            old(fs).spec_free_data() >= spec_total_blocks(
                spec_gather(
                    spec_file(
                        old(fs).spec_geometry(),
                        old(fs)@,
                        old(self).inode.spec_ino(old(fs).spec_geometry()),
                    ),
                    old(self).offset as int,
                    buf.buffers@,
                    0,
                ).len() as int,
            ) - spec_total_blocks(
                spec_file(
                    old(fs).spec_geometry(),
                    old(fs)@,
                    old(self).inode.spec_ino(old(fs).spec_geometry()),
                ).len() as int,
            ),
        ensures
            final(self).inode.spec_live(final(fs)),
            spec_same_mount(final(fs), old(fs)),
            final(fs).spec_geometry() == old(fs).spec_geometry(),
            final(self).inode == old(self).inode,
            final(self).readable == old(self).readable,
            final(self).writable == old(self).writable,
            n == spec_total_len(buf.buffers@, 0),
            final(self).offset == old(self).offset + n,
            spec_file(
                old(fs).spec_geometry(),
                final(fs)@,
                old(self).inode.spec_ino(old(fs).spec_geometry()),
            ) == spec_gather(
                spec_file(
                    old(fs).spec_geometry(),
                    old(fs)@,
                    old(self).inode.spec_ino(old(fs).spec_geometry()),
                ),
                old(self).offset as int,
                buf.buffers@,
                0,
            ),
            spec_others_same(
                old(fs).spec_geometry(),
                old(fs)@,
                final(fs)@,
                old(self).inode.spec_ino(old(fs).spec_geometry()),
            ),
            spec_ls(final(fs)@) == spec_ls(old(fs)@),
    {
        let ghost g = fs.spec_geometry();
        let ghost x = self.inode.spec_ino(g);
        let ghost disk0 = fs@;
        let ghost file0 = spec_file(g, disk0, x);
        let ghost goal = spec_gather(file0, self.offset as int, buf.buffers@, 0);
        let count: usize = buf.buffers.len();
        let mut total_write_size: usize = 0;
        let mut i: usize = 0;
        proof {
            crate::mm::lemma_flat_len(buf.buffers@, 0);
            crate::efs::lemma_others_same_refl(g, disk0, x);
        }
        while i < count
            invariant
                i <= count,
                count == buf.buffers@.len(),
                self.inode == old(self).inode,
                self.readable == old(self).readable,
                self.writable == old(self).writable,
                self.inode.spec_live(fs),
                g == fs.spec_geometry(),
                g == old(fs).spec_geometry(),
                x == self.inode.spec_ino(g),
                x != 0,
                disk0 == old(fs)@,
                spec_same_mount(fs, old(fs)),
                self.offset == old(self).offset + total_write_size,
                total_write_size + spec_total_len(buf.buffers@, i as int) == spec_total_len(
                    buf.buffers@,
                    0,
                ),
                self.offset + spec_total_len(buf.buffers@, i as int) <= MAX_FILE_SIZE,
                goal == spec_gather(spec_file(g, fs@, x), self.offset as int, buf.buffers@, i as int),
                fs.spec_free_data() >= spec_total_blocks(goal.len() as int) - spec_total_blocks(
                    spec_file(g, fs@, x).len() as int,
                ),
                spec_others_same(g, disk0, fs@, x),
                spec_ls(fs@) == spec_ls(disk0),
            decreases count - i,
        {
            let ghost before = fs@;
            let ghost file = spec_file(g, before, x);
            proof {
                crate::mm::lemma_flat_len(buf.buffers@, i + 1);
                let next = spec_written(file, self.offset as int, buf.buffers@[i as int]@);
                lemma_gather_len(
                    next,
                    self.offset + buf.buffers@[i as int]@.len(),
                    buf.buffers@,
                    i + 1,
                );
                lemma_total_blocks_monotone(next.len() as int, goal.len() as int);
            }
            let write_size: usize = self.inode.write_at(fs, self.offset, buf.buffers[i].as_slice());
            proof {
                crate::efs::lemma_others_same_trans(g, disk0, before, fs@, x);
            }
            self.offset += write_size;
            total_write_size += write_size;
            i += 1;
        }
        total_write_size
    }
}

/// Pieces of the same lengths have the same number of bytes.
pub proof fn lemma_total_same(a: Seq<Vec<u8>>, b: Seq<Vec<u8>>, from: int)
    requires
        0 <= from,
        a.len() == b.len(),
        forall|k: int| from <= k < a.len() ==> a[k]@.len() == b[k]@.len(),
    ensures
        spec_total_len(a, from) == spec_total_len(b, from),
    decreases a.len() - from,
{
    if from < a.len() {
        lemma_total_same(a, b, from + 1);
    }
}

/// What opening a file does to it: with `CREATE` or `TRUNCATE` the file is
/// emptied, else it is left as it is.
pub open spec fn spec_empties(flags: OpenFlags) -> bool {
    flags.bits & CREATE == CREATE || flags.bits & TRUNCATE == TRUNCATE
}

/// Opens the file called `name` of the root directory.
///
/// With `CREATE`, a file that exists is emptied and one that does not is
/// created. With `TRUNCATE`, a file that exists is emptied. A file that
/// does not exist and is not to be created is not opened: `None`.
pub fn open_file<D: BlockDevice>(fs: &mut EasyFileSystem<D>, name: &str, flags: OpenFlags) -> (file:
    Option<OSInode>)
    requires
        old(fs).inv(),
        flags.bits & CREATE == CREATE && spec_find(old(fs)@, name.spec_bytes()) is None ==> {
            &&& name.spec_bytes().len() <= 27
            &&& old(fs).spec_free_inodes() > 0
            &&& spec_file(old(fs).spec_geometry(), old(fs)@, 0).len() + 32 <= MAX_FILE_SIZE
            &&& old(fs).spec_free_data() >= spec_total_blocks(
                (spec_file(old(fs).spec_geometry(), old(fs)@, 0).len() + 32) as int,
            ) - spec_total_blocks(spec_file(old(fs).spec_geometry(), old(fs)@, 0).len() as int)
        },
    ensures
        final(fs).inv(),
        spec_same_mount(final(fs), old(fs)),
        final(fs).spec_geometry() == old(fs).spec_geometry(),
        file is None <==> spec_find(old(fs)@, name.spec_bytes()) is None && !(flags.bits & CREATE
            == CREATE),
        file is None ==> final(fs)@ == old(fs)@,
        !spec_empties(flags) ==> final(fs)@ == old(fs)@,
        forall|ino: int|
            0 <= ino < old(fs).spec_geometry().max_inodes() && spec_inode_used(old(fs)@, ino)
                ==> spec_inode_used(final(fs)@, ino),
        match file {
            Some(opened) => {
                &&& opened.inode.spec_live(final(fs))
                &&& opened.inode.spec_ino(old(fs).spec_geometry()) != 0
                &&& opened.offset == 0
                &&& (opened.readable, opened.writable) == (if flags.bits == 0 {
                    (true, false)
                } else if flags.bits & WRITE_ONLY == WRITE_ONLY {
                    (false, true)
                } else {
                    (true, true)
                })
                &&& match spec_find(old(fs)@, name.spec_bytes()) {
                    Some(ino) => {
                        &&& opened.inode.spec_ino(old(fs).spec_geometry()) == ino
                        &&& spec_others_same(old(fs).spec_geometry(), old(fs)@, final(fs)@, ino)
                        &&& spec_file(old(fs).spec_geometry(), final(fs)@, ino) == (if spec_empties(
                            flags,
                        ) {
                            Seq::<u8>::empty()
                        } else {
                            spec_file(old(fs).spec_geometry(), old(fs)@, ino)
                        })
                        &&& spec_ls(final(fs)@) == spec_ls(old(fs)@)
                    },
                    None => {
                        &&& !spec_inode_used(
                            old(fs)@,
                            opened.inode.spec_ino(old(fs).spec_geometry()),
                        )
                        &&& spec_file(
                            old(fs).spec_geometry(),
                            final(fs)@,
                            opened.inode.spec_ino(old(fs).spec_geometry()),
                        ) == Seq::<u8>::empty()
                        &&& spec_ls(final(fs)@) == spec_ls(old(fs)@).push(
                            name.spec_bytes().subrange(0, spec_first_nul(name.spec_bytes(), 0)),
                        )
                    },
                }
            },
            None => true,
        },
{
    let ghost g = fs.spec_geometry();
    let ghost disk0 = fs@;
    let (readable, writable) = flags.read_write();
    let root = fs.root_inode();
    proof {
        assert(spec_inode_used(disk0, 0));
    }
    if flags.contains(OpenFlags { bits: CREATE }) {
        match root.find(fs, name) {
            Some(inode) => {
                inode.clear(fs);
                proof {
                    lemma_used_kept(g, disk0, fs@, inode.spec_ino(g));
                }
                return Some(OSInode::new(readable, writable, inode));
            },
            None => {
                let created = root.create(fs, name);
                return match created {
                    Some(inode) => {
                        proof {
                            lemma_create_keeps_used(g, disk0, fs@, inode.spec_ino(g));
                        }
                        Some(OSInode::new(readable, writable, inode))
                    },
                    None => None,
                };
            },
        }
    }
    if flags.contains(OpenFlags { bits: TRUNCATE }) {
        return match root.find(fs, name) {
            Some(inode) => {
                inode.clear(fs);
                proof {
                    lemma_used_kept(g, disk0, fs@, inode.spec_ino(g));
                }
                Some(OSInode::new(readable, writable, inode))
            },
            None => None,
        };
    }
    match root.find(fs, name) {
        Some(inode) => {
            proof {
                crate::efs::lemma_others_same_refl(g, disk0, inode.spec_ino(g));
            }
            Some(OSInode::new(readable, writable, inode))
        },
        None => None,
    }
}

/// Is there room in the file system to create a file called `name`: is the
/// name short enough, is an inode free, and are the blocks free that the
/// root directory needs for one more entry?
pub open spec fn spec_can_create<D: BlockDevice>(fs: &EasyFileSystem<D>, name: Seq<u8>) -> bool {
    let size = spec_file(fs.spec_geometry(), fs@, 0).len();
    &&& name.len() <= 27
    &&& fs.spec_free_inodes() > 0
    &&& size + 32 <= MAX_FILE_SIZE
    &&& fs.spec_free_data() >= spec_total_blocks((size + 32) as int) - spec_total_blocks(
        size as int,
    )
}

/// Is there room in the file system to write `total` bytes at `offset` of
/// the file of inode `ino`?
pub open spec fn spec_can_write<D: BlockDevice>(
    fs: &EasyFileSystem<D>,
    ino: int,
    offset: int,
    total: int,
) -> bool {
    let size = spec_file(fs.spec_geometry(), fs@, ino).len();
    let new_size = if offset + total > size {
        offset + total
    } else {
        size as int
    };
    &&& offset + total <= MAX_FILE_SIZE
    &&& fs.spec_free_data() >= spec_total_blocks(new_size) - spec_total_blocks(size as int)
}

/// Opens the file called `name` as `open_file` does, if the file system
/// has room for what is asked. Returns `None`, and changes nothing, if the
/// file is to be created and cannot be, or if it does not exist and is not
/// to be created.
pub fn try_open_file<D: BlockDevice>(fs: &mut EasyFileSystem<D>, name: &str, flags: OpenFlags) -> (
    file: Option<OSInode>)
    requires
        old(fs).inv(),
    ensures
        final(fs).inv(),
        spec_same_mount(final(fs), old(fs)),
        final(fs).spec_geometry() == old(fs).spec_geometry(),
        file is None <==> spec_find(old(fs)@, name.spec_bytes()) is None && !(flags.bits & CREATE
            == CREATE && spec_can_create(old(fs), name.spec_bytes())),
        file is None ==> final(fs)@ == old(fs)@,
        !spec_empties(flags) ==> final(fs)@ == old(fs)@,
        forall|ino: int|
            0 <= ino < old(fs).spec_geometry().max_inodes() && spec_inode_used(old(fs)@, ino)
                ==> spec_inode_used(final(fs)@, ino),
        match file {
            Some(opened) => {
                &&& opened.inode.spec_live(final(fs))
                &&& opened.inode.spec_ino(old(fs).spec_geometry()) != 0
                &&& opened.offset == 0
                &&& (opened.readable, opened.writable) == (if flags.bits == 0 {
                    (true, false)
                } else if flags.bits & WRITE_ONLY == WRITE_ONLY {
                    (false, true)
                } else {
                    (true, true)
                })
                &&& match spec_find(old(fs)@, name.spec_bytes()) {
                    Some(ino) => {
                        &&& opened.inode.spec_ino(old(fs).spec_geometry()) == ino
                        &&& spec_others_same(old(fs).spec_geometry(), old(fs)@, final(fs)@, ino)
                        &&& spec_file(old(fs).spec_geometry(), final(fs)@, ino) == (if spec_empties(
                            flags,
                        ) {
                            Seq::<u8>::empty()
                        } else {
                            spec_file(old(fs).spec_geometry(), old(fs)@, ino)
                        })
                        &&& spec_ls(final(fs)@) == spec_ls(old(fs)@)
                    },
                    None => {
                        &&& !spec_inode_used(
                            old(fs)@,
                            opened.inode.spec_ino(old(fs).spec_geometry()),
                        )
                        &&& spec_file(
                            old(fs).spec_geometry(),
                            final(fs)@,
                            opened.inode.spec_ino(old(fs).spec_geometry()),
                        ) == Seq::<u8>::empty()
                        &&& spec_ls(final(fs)@) == spec_ls(old(fs)@).push(
                            name.spec_bytes().subrange(0, spec_first_nul(name.spec_bytes(), 0)),
                        )
                    },
                }
            },
            None => true,
        },
{
    if flags.contains(OpenFlags { bits: CREATE }) {
        let root = fs.root_inode();
        proof {
            assert(spec_inode_used(fs@, 0));
        }
        let found = root.find(fs, name);
        if found.is_none() && !can_create(fs, name) {
            return None;
        }
    }
    open_file(fs, name, flags)
}

/// Is there room in the file system to create a file called `name`?
pub fn can_create<D: BlockDevice>(fs: &mut EasyFileSystem<D>, name: &str) -> (r: bool)
    requires
        old(fs).inv(),
    ensures
        final(fs).inv(),
        final(fs)@ == old(fs)@,
        spec_same_mount(final(fs), old(fs)),
        r == spec_can_create(old(fs), name.spec_bytes()),
{
    let ghost g = fs.spec_geometry();
    let ghost disk0 = fs@;
    let root = fs.root_inode();
    proof {
        assert(spec_inode_used(disk0, 0));
        assert(crate::efs::spec_inode_ok(g, disk0, 0));
    }
    let name_len: usize = name.as_bytes().len();
    let free_inodes: usize = fs.free_inodes();
    let root_inode: DiskInode = root.read_disk_inode(fs);
    let free_data: usize = fs.free_data_blocks();
    if name_len > 27 || free_inodes == 0 || root_inode.size > MAX_FILE_SIZE - 32 {
        return false;
    }
    let needed: u32 = root_inode.blocks_num_needed(root_inode.size + 32);
    free_data >= needed as usize
}

/// After a change that leaves all inodes but inode `x` as they were, and
/// inode `x` in use, the inodes that were in use still are.
pub proof fn lemma_used_kept(
    g: crate::efs::Geometry,
    disk0: Seq<Seq<u8>>,
    disk1: Seq<Seq<u8>>,
    x: int,
)
    requires
        spec_others_same(g, disk0, disk1, x),
        spec_inode_used(disk1, x),
    ensures
        forall|ino: int|
            0 <= ino < g.max_inodes() && spec_inode_used(disk0, ino) ==> spec_inode_used(
                disk1,
                ino,
            ),
{
    assert forall|ino: int|
        0 <= ino < g.max_inodes() && spec_inode_used(disk0, ino) implies spec_inode_used(
        disk1,
        ino,
    ) by {
        if ino != x {
            assert(spec_inode_used(disk1, ino) == spec_inode_used(disk0, ino));
        }
    }
}

/// After a file was created as inode `x`, the inodes that were in use
/// still are.
pub proof fn lemma_create_keeps_used(
    g: crate::efs::Geometry,
    disk0: Seq<Seq<u8>>,
    disk1: Seq<Seq<u8>>,
    x: int,
)
    requires
        spec_inode_used(disk1, 0),
        spec_inode_used(disk1, x),
        forall|ino: int|
            0 < ino < g.max_inodes() && ino != x ==> (#[trigger] spec_inode_used(disk1, ino))
                == spec_inode_used(disk0, ino),
    ensures
        forall|ino: int|
            0 <= ino < g.max_inodes() && spec_inode_used(disk0, ino) ==> spec_inode_used(
                disk1,
                ino,
            ),
{
    assert forall|ino: int|
        0 <= ino < g.max_inodes() && spec_inode_used(disk0, ino) implies spec_inode_used(
        disk1,
        ino,
    ) by {
        if ino != 0 && ino != x {
            assert(spec_inode_used(disk1, ino) == spec_inode_used(disk0, ino));
        }
    }
}

impl OSInode {
    /// Writes the pieces of `buf` at the cursor as `write` does, if the
    /// file system has room for them. Returns `None`, and changes nothing,
    /// if it has not.
    pub fn try_write<D: BlockDevice>(&mut self, fs: &mut EasyFileSystem<D>, buf: &UserBuffer) -> (n:
        Option<usize>)
        requires
            old(self).inode.spec_live(old(fs)),
            old(self).inode.spec_ino(old(fs).spec_geometry()) != 0,
        ensures
            final(self).inode.spec_live(final(fs)),
            spec_same_mount(final(fs), old(fs)),
            final(fs).spec_geometry() == old(fs).spec_geometry(),
            final(self).inode == old(self).inode,
            final(self).readable == old(self).readable,
            final(self).writable == old(self).writable,
            n is Some <==> spec_can_write(
                old(fs),
                old(self).inode.spec_ino(old(fs).spec_geometry()),
                old(self).offset as int,
                spec_total_len(buf.buffers@, 0),
            ),
            n is None ==> final(fs)@ == old(fs)@ && final(self).offset == old(self).offset,
            forall|ino: int|
                0 <= ino < old(fs).spec_geometry().max_inodes() ==> spec_inode_used(
                    final(fs)@,
                    ino,
                ) == spec_inode_used(old(fs)@, ino),
            n is Some ==> {
                &&& n->0 == spec_total_len(buf.buffers@, 0)
                &&& final(self).offset == old(self).offset + n->0
                &&& spec_file(
                    old(fs).spec_geometry(),
                    final(fs)@,
                    old(self).inode.spec_ino(old(fs).spec_geometry()),
                ) == spec_gather(
                    spec_file(
                        old(fs).spec_geometry(),
                        old(fs)@,
                        old(self).inode.spec_ino(old(fs).spec_geometry()),
                    ),
                    old(self).offset as int,
                    buf.buffers@,
                    0,
                )
                &&& spec_others_same(
                    old(fs).spec_geometry(),
                    old(fs)@,
                    final(fs)@,
                    old(self).inode.spec_ino(old(fs).spec_geometry()),
                )
                &&& spec_ls(final(fs)@) == spec_ls(old(fs)@)
            },
    {
        let ghost g = fs.spec_geometry();
        let ghost x = self.inode.spec_ino(g);
        let ghost disk0 = fs@;
        // how much is to be written?
        let count: usize = buf.buffers.len();
        let mut total: usize = 0;
        let mut i: usize = 0;
        proof {
            crate::mm::lemma_flat_len(buf.buffers@, 0);
        }
        while i < count
            invariant
                i <= count,
                count == buf.buffers@.len(),
                total <= MAX_FILE_SIZE,
                total + spec_total_len(buf.buffers@, i as int) == spec_total_len(buf.buffers@, 0),
                *self == *old(self),
                *fs == *old(fs),
                self.inode.spec_live(fs),
            decreases count - i,
        {
            proof {
                crate::mm::lemma_flat_len(buf.buffers@, i + 1);
            }
            let piece: usize = buf.buffers[i].len();
            if piece > MAX_FILE_SIZE as usize - total {
                return None;
            }
            total += piece;
            i += 1;
        }
        if self.offset > MAX_FILE_SIZE as usize - total {
            return None;
        }
        let disk_inode: DiskInode = self.inode.read_disk_inode(fs);
        let free_data: usize = fs.free_data_blocks();
        let new_size: u32 = if self.offset + total > disk_inode.size as usize {
            (self.offset + total) as u32
        } else {
            disk_inode.size
        };
        proof {
            assert(crate::efs::spec_inode_ok(g, disk0, x));
        }
        let needed: u32 = disk_inode.blocks_num_needed(new_size);
        if free_data < needed as usize {
            return None;
        }
        proof {
            lemma_gather_len(spec_file(g, disk0, x), self.offset as int, buf.buffers@, 0);
        }
        let n: usize = self.write(fs, buf);
        proof {
            assert forall|ino: int| 0 <= ino < g.max_inodes() implies spec_inode_used(fs@, ino)
                == spec_inode_used(disk0, ino) by {
                if ino != x {
                    assert(spec_inode_used(fs@, ino) == spec_inode_used(disk0, ino));
                }
            }
        }
        Some(n)
    }
}

} // verus!
