//! On-disk records: super block, disk inode and directory entry.
//!
//! Every record has a fixed place in a 512-byte block and is stored
//! little-endian. A disk inode maps the blocks of a file through 28 direct
//! slots, one indirect block of 128 slots and one doubly indirect block of
//! 128 indirect blocks.
use crate::block_cache::BlockCacheManager;
use crate::block_dev::{BlockDevice, BLOCK_SIZE};
use crate::codec::{get_u32, spec_get_u32, spec_set_u32};
use crate::codec::{lemma_auto_u32_le, spec_u32_to_le_bytes, u32_to_le_bytes};
use vstd::prelude::*;
use vstd::slice::slice_subrange;
use vstd::string::StringSliceAdditionalSpecFns;
use vstd::utf8::{
    is_char_boundary_iff_not_is_continuation_byte, is_continuation_byte, valid_utf8,
    valid_utf8_split,
};

verus! {

/// Marks block 0 of a formatted device.
pub const EFS_MAGIC: u32 = 0x3b800001;

/// Number of block ids held in the inode itself.
pub const INODE_DIRECT_COUNT: usize = 28;

/// Number of block ids held in one indirect block.
pub const INODE_INDIRECT1_COUNT: usize = 128;

/// Number of data blocks reachable through the doubly indirect block.
pub const INODE_INDIRECT2_COUNT: usize = 16384;

/// First data block number that is not direct.
pub const DIRECT_BOUND: usize = 28;

/// First data block number that is behind the doubly indirect block.
pub const INDIRECT1_BOUND: usize = 156;

/// Number of data blocks a file can have.
pub const INDIRECT2_BOUND: usize = 16540;

/// Largest file size in bytes.
pub const MAX_FILE_SIZE: u32 = 8468480;

/// Longest file name in bytes.
pub const NAME_LENGTH_LIMIT: usize = 27;

/// Number of bytes of one directory entry.
pub const DIR_ENTRY_SIZE: usize = 32;

/// Number of bytes of one disk inode.
pub const DISK_INODE_SIZE: usize = 128;

/// The first block of a device: where the four areas lie.
pub struct SuperBlock {
    pub magic: u32,
    pub total_blocks: u32,
    pub inode_bitmap_blocks: u32,
    pub inode_area_blocks: u32,
    pub data_bitmap_blocks: u32,
    pub data_area_blocks: u32,
}

impl SuperBlock {
    /// Does `block` hold this record in its first 24 bytes?
    pub open spec fn spec_stored_in(&self, block: Seq<u8>) -> bool {
        &&& spec_get_u32(block, 0) == self.magic
        &&& spec_get_u32(block, 4) == self.total_blocks
        &&& spec_get_u32(block, 8) == self.inode_bitmap_blocks
        &&& spec_get_u32(block, 12) == self.inode_area_blocks
        &&& spec_get_u32(block, 16) == self.data_bitmap_blocks
        &&& spec_get_u32(block, 20) == self.data_area_blocks
    }

    /// `block` with the six fields of this record stored in its first 24
    /// bytes.
    pub open spec fn spec_store(&self, block: Seq<u8>) -> Seq<u8> {
        spec_set_u32(
            spec_set_u32(
                spec_set_u32(
                    spec_set_u32(
                        spec_set_u32(spec_set_u32(block, 0, self.magic), 4, self.total_blocks),
                        8,
                        self.inode_bitmap_blocks,
                    ),
                    12,
                    self.inode_area_blocks,
                ),
                16,
                self.data_bitmap_blocks,
            ),
            20,
            self.data_area_blocks,
        )
    }

    /// A record with all fields zero, which is not valid.
    pub fn empty() -> (sb: Self)
        ensures
            sb.magic == 0,
            sb.total_blocks == 0,
            sb.inode_bitmap_blocks == 0,
            sb.inode_area_blocks == 0,
            sb.data_bitmap_blocks == 0,
            sb.data_area_blocks == 0,
    {
        SuperBlock {
            magic: 0,
            total_blocks: 0,
            inode_bitmap_blocks: 0,
            inode_area_blocks: 0,
            data_bitmap_blocks: 0,
            data_area_blocks: 0,
        }
    }

    /// Sets the magic number and the five counts.
    pub fn initialize(
        &mut self,
        total_blocks: u32,
        inode_bitmap_blocks: u32,
        inode_area_blocks: u32,
        data_bitmap_blocks: u32,
        data_area_blocks: u32,
    )
        ensures
            final(self).magic == EFS_MAGIC,
            final(self).total_blocks == total_blocks,
            final(self).inode_bitmap_blocks == inode_bitmap_blocks,
            final(self).inode_area_blocks == inode_area_blocks,
            final(self).data_bitmap_blocks == data_bitmap_blocks,
            final(self).data_area_blocks == data_area_blocks,
    {
        self.magic = EFS_MAGIC;
        self.total_blocks = total_blocks;
        self.inode_bitmap_blocks = inode_bitmap_blocks;
        self.inode_area_blocks = inode_area_blocks;
        self.data_bitmap_blocks = data_bitmap_blocks;
        self.data_area_blocks = data_area_blocks;
    }

    /// Does the record carry the magic number?
    pub fn is_valid(&self) -> (valid: bool)
        ensures
            valid == (self.magic == EFS_MAGIC),
    {
        self.magic == EFS_MAGIC
    }

    /// Reads the record from the start of block `block_id`.
    pub fn load<D: BlockDevice>(cache: &mut BlockCacheManager<D>, block_id: usize) -> (sb: Self)
        requires
            old(cache).wf(),
            block_id < old(cache)@.len(),
        ensures
            final(cache).wf(),
            final(cache)@ == old(cache)@,
            sb.spec_stored_in(old(cache)@[block_id as int]),
    {
        let magic: u32 = cache.read_u32(block_id, 0);
        let total_blocks: u32 = cache.read_u32(block_id, 4);
        let inode_bitmap_blocks: u32 = cache.read_u32(block_id, 8);
        let inode_area_blocks: u32 = cache.read_u32(block_id, 12);
        let data_bitmap_blocks: u32 = cache.read_u32(block_id, 16);
        let data_area_blocks: u32 = cache.read_u32(block_id, 20);
        SuperBlock {
            magic,
            total_blocks,
            inode_bitmap_blocks,
            inode_area_blocks,
            data_bitmap_blocks,
            data_area_blocks,
        }
    }

    /// Writes the record to the start of block `block_id`.
    pub fn store<D: BlockDevice>(&self, cache: &mut BlockCacheManager<D>, block_id: usize)
        requires
            old(cache).wf(),
            block_id < old(cache)@.len(),
        ensures
            final(cache).wf(),
            final(cache)@ == old(cache)@.update(
                block_id as int,
                self.spec_store(old(cache)@[block_id as int]),
            ),
            self.spec_stored_in(final(cache)@[block_id as int]),
    {
        proof {
            cache.lemma_view_valid();
        }
        let ghost b0 = cache@[block_id as int];
        cache.modify_u32(block_id, 0, self.magic);
        cache.modify_u32(block_id, 4, self.total_blocks);
        cache.modify_u32(block_id, 8, self.inode_bitmap_blocks);
        cache.modify_u32(block_id, 12, self.inode_area_blocks);
        cache.modify_u32(block_id, 16, self.data_bitmap_blocks);
        cache.modify_u32(block_id, 20, self.data_area_blocks);
        proof {
            Self::lemma_store_load(*self, b0);
            assert(cache@ =~= old(cache)@.update(block_id as int, self.spec_store(b0)));
        }
    }

    /// What `spec_store` writes is what `spec_stored_in` reads; the bytes
    /// from 24 on stay.
    pub proof fn lemma_store_load(sb: SuperBlock, block: Seq<u8>)
        requires
            block.len() == BLOCK_SIZE,
        ensures
            sb.spec_stored_in(sb.spec_store(block)),
            sb.spec_store(block).len() == BLOCK_SIZE,
            forall|i: int| 24 <= i < BLOCK_SIZE ==> sb.spec_store(block)[i] == block[i],
    {
        let b1 = spec_set_u32(block, 0, sb.magic);
        let b2 = spec_set_u32(b1, 4, sb.total_blocks);
        let b3 = spec_set_u32(b2, 8, sb.inode_bitmap_blocks);
        let b4 = spec_set_u32(b3, 12, sb.inode_area_blocks);
        let b5 = spec_set_u32(b4, 16, sb.data_bitmap_blocks);
        let b6 = spec_set_u32(b5, 20, sb.data_area_blocks);
        crate::codec::lemma_get_set_u32_same(block, 0, sb.magic);
        crate::codec::lemma_get_set_u32_same(b1, 4, sb.total_blocks);
        crate::codec::lemma_get_set_u32_same(b2, 8, sb.inode_bitmap_blocks);
        crate::codec::lemma_get_set_u32_same(b3, 12, sb.inode_area_blocks);
        crate::codec::lemma_get_set_u32_same(b4, 16, sb.data_bitmap_blocks);
        crate::codec::lemma_get_set_u32_same(b5, 20, sb.data_area_blocks);
        crate::codec::lemma_get_set_u32_other(b1, 4, sb.total_blocks, 0);
        crate::codec::lemma_get_set_u32_other(b2, 8, sb.inode_bitmap_blocks, 0);
        crate::codec::lemma_get_set_u32_other(b2, 8, sb.inode_bitmap_blocks, 4);
        crate::codec::lemma_get_set_u32_other(b3, 12, sb.inode_area_blocks, 0);
        crate::codec::lemma_get_set_u32_other(b3, 12, sb.inode_area_blocks, 4);
        crate::codec::lemma_get_set_u32_other(b3, 12, sb.inode_area_blocks, 8);
        crate::codec::lemma_get_set_u32_other(b4, 16, sb.data_bitmap_blocks, 0);
        crate::codec::lemma_get_set_u32_other(b4, 16, sb.data_bitmap_blocks, 4);
        crate::codec::lemma_get_set_u32_other(b4, 16, sb.data_bitmap_blocks, 8);
        crate::codec::lemma_get_set_u32_other(b4, 16, sb.data_bitmap_blocks, 12);
        crate::codec::lemma_get_set_u32_other(b5, 20, sb.data_area_blocks, 0);
        crate::codec::lemma_get_set_u32_other(b5, 20, sb.data_area_blocks, 4);
        crate::codec::lemma_get_set_u32_other(b5, 20, sb.data_area_blocks, 8);
        crate::codec::lemma_get_set_u32_other(b5, 20, sb.data_area_blocks, 12);
        crate::codec::lemma_get_set_u32_other(b5, 20, sb.data_area_blocks, 16);
        lemma_auto_u32_le();
    }
}

/// The place of the first zero byte of `field` at or behind `from`, or the
/// length of `field` if there is none.
pub open spec fn spec_first_nul(field: Seq<u8>, from: int) -> int
    decreases field.len() - from,
{
    if from >= field.len() {
        field.len() as int
    } else if field[from] == 0 {
        from
    } else {
        spec_first_nul(field, from + 1)
    }
}

/// The name held in a name field: its bytes before the first zero byte.
pub open spec fn spec_name(field: Seq<u8>) -> Seq<u8> {
    field.subrange(0, spec_first_nul(field, 0))
}

/// The 28-byte name field that holds `name`: the bytes of the name, then
/// zero bytes.
pub open spec fn spec_name_field(name: Seq<u8>) -> Seq<u8> {
    Seq::new(
        28,
        |i: int|
            if i < name.len() {
                name[i]
            } else {
                0u8
            },
    )
}

/// The first zero byte lies within the field, behind `from`, and no byte
/// between `from` and it is zero.
pub proof fn lemma_first_nul(field: Seq<u8>, from: int)
    requires
        0 <= from <= field.len(),
    ensures
        from <= spec_first_nul(field, from) <= field.len(),
        forall|i: int| from <= i < spec_first_nul(field, from) ==> field[i] != 0,
        spec_first_nul(field, from) < field.len() ==> field[spec_first_nul(field, from)] == 0,
    decreases field.len() - from,
{
    if from < field.len() && field[from] != 0 {
        lemma_first_nul(field, from + 1);
    }
}

/// The first zero byte is at `at` if there is one there and none before.
pub proof fn lemma_first_nul_at(field: Seq<u8>, from: int, at: int)
    requires
        0 <= from <= at <= field.len(),
        forall|i: int| from <= i < at ==> field[i] != 0,
        at < field.len() ==> field[at] == 0,
    ensures
        spec_first_nul(field, from) == at,
    decreases at - from,
{
    if from < at {
        lemma_first_nul_at(field, from + 1, at);
    }
}

/// The part before the first zero byte of valid UTF-8 is valid UTF-8.
pub proof fn lemma_name_valid(bytes: Seq<u8>)
    requires
        valid_utf8(bytes),
    ensures
        valid_utf8(bytes.subrange(0, spec_first_nul(bytes, 0))),
{
    lemma_first_nul(bytes, 0);
    let at = spec_first_nul(bytes, 0);
    if at == bytes.len() {
        assert(bytes.subrange(0, at) =~= bytes);
    } else {
        assert(!is_continuation_byte(bytes[at]));
        is_char_boundary_iff_not_is_continuation_byte(bytes, at);
        valid_utf8_split(bytes, at);
    }
}

/// Converts bytes to a string slice, if they are valid UTF-8.
///
/// The body is a call of `core::str::from_utf8`, and the contract is taken
/// on trust, not proved: the call succeeds exactly on well-formed UTF-8,
/// and the string slice it gives then has the very bytes it was given.
#[verifier::external_body]
fn str_from_utf8(bytes: &[u8]) -> (r: Option<&str>)
    ensures
        match r {
            Some(s) => valid_utf8(bytes@) && s.spec_bytes() == bytes@,
            None => !valid_utf8(bytes@),
        },
{
    match core::str::from_utf8(bytes) {
        Ok(s) => Some(s),
        Err(_) => None,
    }
}

/// One entry of the root directory: a name of at most 27 bytes and the number
/// of the inode it names.
pub struct DirEntry {
    name: [u8; 28],
    inode_number: u32,
}

impl View for DirEntry {
    type V = Seq<u8>;

    /// The 32 bytes of the entry on disk.
    closed spec fn view(&self) -> Seq<u8> {
        self.name@ + spec_u32_to_le_bytes(self.inode_number)
    }
}

/// The name field of the 32-byte entry `bytes`.
pub open spec fn spec_entry_name_field(bytes: Seq<u8>) -> Seq<u8> {
    bytes.subrange(0, 28)
}

/// The name of the 32-byte entry `bytes`.
pub open spec fn spec_entry_name(bytes: Seq<u8>) -> Seq<u8> {
    spec_name(spec_entry_name_field(bytes))
}

/// The inode number of the 32-byte entry `bytes`.
pub open spec fn spec_entry_inode(bytes: Seq<u8>) -> u32 {
    spec_get_u32(bytes, 28)
}

/// The 32 bytes of the entry that binds `name` to `inode_number`.
pub open spec fn spec_entry_bytes(name: Seq<u8>, inode_number: u32) -> Seq<u8> {
    spec_name_field(name) + spec_u32_to_le_bytes(inode_number)
}

/// An entry made of a name without zero byte reads back as that name and
/// number; with a zero byte in it, the name reads back up to that byte.
pub proof fn lemma_entry_bytes(name: Seq<u8>, inode_number: u32)
    requires
        name.len() <= 27,
    ensures
        spec_entry_bytes(name, inode_number).len() == 32,
        spec_entry_inode(spec_entry_bytes(name, inode_number)) == inode_number,
        spec_entry_name_field(spec_entry_bytes(name, inode_number)) == spec_name_field(name),
        spec_entry_name(spec_entry_bytes(name, inode_number)) == name.subrange(
            0,
            spec_first_nul(name, 0),
        ),
{
    lemma_auto_u32_le();
    let bytes = spec_entry_bytes(name, inode_number);
    let field = spec_name_field(name);
    assert(bytes.subrange(28, 32) =~= spec_u32_to_le_bytes(inode_number));
    assert(bytes.subrange(0, 28) =~= field);
    lemma_first_nul(name, 0);
    let at = spec_first_nul(name, 0);
    lemma_first_nul_at(field, 0, at);
    assert(field.subrange(0, at) =~= name.subrange(0, at));
}

impl DirEntry {
    /// The name field of the entry.
    pub closed spec fn spec_field(&self) -> Seq<u8> {
        self.name@
    }

    /// The inode number of the entry.
    pub closed spec fn spec_inode_number(&self) -> u32 {
        self.inode_number
    }

    /// The bytes of an entry are its name field and its inode number.
    pub proof fn lemma_view(&self)
        ensures
            self@.len() == 32,
            self@ == self.spec_field() + spec_u32_to_le_bytes(self.spec_inode_number()),
            spec_entry_name_field(self@) == self.spec_field(),
            spec_entry_inode(self@) == self.spec_inode_number(),
            self.spec_field().len() == 28,
    {
        lemma_auto_u32_le();
        assert(self@.subrange(28, 32) =~= spec_u32_to_le_bytes(self.inode_number));
        assert(self@.subrange(0, 28) =~= self.name@);
    }

    /// An entry with an empty name and inode number 0.
    pub fn empty() -> (entry: Self)
        ensures
            entry.spec_field() == spec_name_field(Seq::empty()),
            entry.spec_inode_number() == 0,
    {
        let entry = Self { name: [0u8; 28], inode_number: 0 };
        assert(entry.name@ =~= spec_name_field(Seq::empty()));
        entry
    }

    /// The entry that binds `name` to `inode_number`.
    pub fn new(name: &str, inode_number: u32) -> (entry: Self)
        requires
            name.spec_bytes().len() <= NAME_LENGTH_LIMIT,
        ensures
            entry.spec_field() == spec_name_field(name.spec_bytes()),
            entry.spec_inode_number() == inode_number,
            entry@ == spec_entry_bytes(name.spec_bytes(), inode_number),
    {
        let src = name.as_bytes();
        let len: usize = src.len();
        let mut bytes: [u8; 28] = [0u8; 28];
        let mut i: usize = 0;
        while i < len
            invariant
                i <= len,
                len == src@.len(),
                len <= 27,
                forall|k: int| 0 <= k < i ==> bytes@[k] == src@[k],
                forall|k: int| i <= k < 28 ==> bytes@[k] == 0,
            decreases len - i,
        {
            bytes[i] = src[i];
            i += 1;
        }
        assert(bytes@ =~= spec_name_field(name.spec_bytes()));
        Self { name: bytes, inode_number }
    }

    /// The 32 bytes of the entry on disk.
    pub fn as_bytes(&self) -> (bytes: Vec<u8>)
        ensures
            bytes@ == self@,
            bytes@.len() == DIR_ENTRY_SIZE,
    {
        let mut bytes: Vec<u8> = Vec::new();
        let mut i: usize = 0;
        while i < 28
            invariant
                i <= 28,
                bytes@ == self.name@.subrange(0, i as int),
            decreases 28 - i,
        {
            bytes.push(self.name[i]);
            i += 1;
            assert(bytes@ =~= self.name@.subrange(0, i as int));
        }
        assert(self.name@.subrange(0, 28) =~= self.name@);
        let le = u32_to_le_bytes(self.inode_number);
        bytes.extend_from_slice(le.as_slice());
        proof {
            lemma_auto_u32_le();
        }
        bytes
    }

    /// The entry stored in the 32 bytes `bytes`.
    pub fn from_bytes(bytes: &[u8]) -> (entry: Self)
        requires
            bytes@.len() == DIR_ENTRY_SIZE,
        ensures
            entry.spec_field() == spec_entry_name_field(bytes@),
            entry.spec_inode_number() == spec_entry_inode(bytes@),
    {
        let mut name: [u8; 28] = [0u8; 28];
        let mut i: usize = 0;
        while i < 28
            invariant
                i <= 28,
                bytes@.len() == 32,
                forall|k: int| 0 <= k < i ==> name@[k] == bytes@[k],
            decreases 28 - i,
        {
            name[i] = bytes[i];
            i += 1;
        }
        assert(name@ =~= spec_entry_name_field(bytes@));
        let inode_number: u32 = get_u32(bytes, 28);
        Self { name, inode_number }
    }

    /// Number of bytes of the name: the place of the first zero byte of the
    /// name field, or 28 if it has none.
    pub fn name_len(&self) -> (len: usize)
        ensures
            len == spec_first_nul(self.spec_field(), 0),
            len <= 28,
    {
        let mut i: usize = 0;
        while i < 28 && self.name[i] != 0
            invariant
                i <= 28,
                forall|k: int| 0 <= k < i ==> self.name@[k] != 0,
            decreases 28 - i,
        {
            i += 1;
        }
        proof {
            lemma_first_nul_at(self.name@, 0, i as int);
        }
        i
    }

    /// Is `name` the name of the entry?
    pub fn name_is(&self, name: &str) -> (same: bool)
        ensures
            same == (spec_name(self.spec_field()) == name.spec_bytes()),
    {
        let len: usize = self.name_len();
        let other = name.as_bytes();
        if other.len() != len {
            return false;
        }
        let mut i: usize = 0;
        while i < len
            invariant
                i <= len,
                len <= 28,
                len == other@.len(),
                other@ == name.spec_bytes(),
                len == spec_first_nul(self.name@, 0),
                forall|k: int| 0 <= k < i ==> self.name@[k] == other@[k],
            decreases len - i,
        {
            if self.name[i] != other[i] {
                assert(spec_name(self.name@)[i as int] != other@[i as int]);
                return false;
            }
            i += 1;
        }
        assert(spec_name(self.name@) =~= other@);
        true
    }

    /// The name of the entry, which must be valid UTF-8.
    pub fn name(&self) -> (name: &str)
        requires
            valid_utf8(spec_name(self.spec_field())),
        ensures
            name.spec_bytes() == spec_name(self.spec_field()),
    {
        let len: usize = self.name_len();
        let field = self.name.as_slice();
        let bytes = slice_subrange(field, 0, len);
        match str_from_utf8(bytes) {
            Some(s) => s,
            None => "",
        }
    }

    /// The inode number of the entry.
    pub fn inode_number(&self) -> (n: u32)
        ensures
            n == self.spec_inode_number(),
    {
        self.inode_number
    }
}

} // verus!
