//! The bitmap allocator: one bit per inode or data block.
//!
//! A bitmap occupies consecutive blocks. Each block holds 64 little-endian
//! `u64` words, that is 4096 bits; bit `i` of the bitmap is bit `i % 64` of
//! word `(i % 4096) / 64` of block `i / 4096`. A set bit means "in use".
//! Allocation takes the lowest clear bit.
use crate::block_cache::BlockCacheManager;
use crate::block_dev::{BlockDevice, BLOCK_SIZE};
use crate::codec::{lemma_get_set_u64_other, lemma_get_set_u64_same, spec_get_u64, spec_set_u64};
use vstd::prelude::*;
use vstd::std_specs::bits::axiom_u64_trailing_ones;

verus! {

/// Number of bits in one bitmap block.
pub const BLOCK_BITS: usize = 4096;

/// Where a bitmap lies on the device.
pub struct Bitmap {
    pub start_block_id: usize,
    pub blocks: usize,
}

/// Is bit `j` of `word` set?
pub open spec fn spec_word_bit(word: u64, j: u64) -> bool {
    (word >> j) & 1u64 == 1u64
}

/// The word of the bitmap that starts at block `start` which holds bit `bit`.
pub open spec fn spec_bitmap_word(disk: Seq<Seq<u8>>, start: int, bit: int) -> u64 {
    spec_get_u64(disk[start + bit / 4096], 8 * ((bit % 4096) / 64))
}

/// Is bit `bit` of the bitmap that starts at block `start` set?
pub open spec fn spec_bit(disk: Seq<Seq<u8>>, start: int, bit: int) -> bool {
    spec_word_bit(spec_bitmap_word(disk, start, bit), (bit % 64) as u64)
}

/// Every bit of the full word is set.
pub proof fn lemma_full_word(j: u64)
    requires
        j < 64,
    ensures
        spec_word_bit(u64::MAX, j),
{
    assert((0xffff_ffff_ffff_ffffu64 >> j) & 1u64 == 1u64) by (bit_vector)
        requires
            j < 64,
    ;
}

/// No bit of the zero word is set.
pub proof fn lemma_zero_word(j: u64)
    requires
        j < 64,
    ensures
        !spec_word_bit(0, j),
{
    assert((0u64 >> j) & 1u64 == 0u64) by (bit_vector)
        requires
            j < 64,
    ;
}

/// Setting bit `t` of a word sets it and leaves the other bits.
pub proof fn lemma_set_bit(word: u64, t: u64, j: u64)
    requires
        t < 64,
        j < 64,
    ensures
        spec_word_bit(word | (1u64 << t), j) == (j == t || spec_word_bit(word, j)),
{
    assert((((word | (1u64 << t)) >> j) & 1u64 == 1u64) == (j == t || ((word >> j) & 1u64 == 1u64)))
        by (bit_vector)
        requires
            t < 64,
            j < 64,
    ;
}

/// Clearing the set bit `t` of a word by subtraction clears it and leaves the
/// other bits.
pub proof fn lemma_clear_bit(word: u64, t: u64, j: u64)
    requires
        t < 64,
        j < 64,
        spec_word_bit(word, t),
    ensures
        word >= (1u64 << t),
        (word & (1u64 << t)) > 0,
        spec_word_bit((word - (1u64 << t)) as u64, j) == (j != t && spec_word_bit(word, j)),
{
    assert(word >= (1u64 << t) && (word & (1u64 << t)) > 0) by (bit_vector)
        requires
            t < 64,
            (word >> t) & 1u64 == 1u64,
    ;
    let cleared = (word - (1u64 << t)) as u64;
    assert(cleared == word & !(1u64 << t)) by (bit_vector)
        requires
            t < 64,
            (word >> t) & 1u64 == 1u64,
            word >= (1u64 << t),
            cleared as int == word - (1u64 << t),
    ;
    assert((((word & !(1u64 << t)) >> j) & 1u64 == 1u64) == (j != t && ((word >> j) & 1u64
        == 1u64))) by (bit_vector)
        requires
            t < 64,
            j < 64,
    ;
}

/// A bit is set exactly if the test `word & (1 << t) > 0` says so.
pub proof fn lemma_test_bit(word: u64, t: u64)
    requires
        t < 64,
    ensures
        spec_word_bit(word, t) == ((word & (1u64 << t)) > 0),
{
    assert(((word >> t) & 1u64 == 1u64) == ((word & (1u64 << t)) > 0)) by (bit_vector)
        requires
            t < 64,
    ;
}

/// Replacing the word that holds `bit` changes the bits of that word only.
pub proof fn lemma_word_replaced(
    disk: Seq<Seq<u8>>,
    start: int,
    bit: int,
    word: u64,
    j: int,
)
    requires
        0 <= start,
        0 <= bit,
        0 <= j,
        start + bit / 4096 < disk.len(),
        start + j / 4096 < disk.len(),
        disk[start + bit / 4096].len() == BLOCK_SIZE,
    ensures
        spec_bitmap_word(
            disk.update(
                start + bit / 4096,
                spec_set_u64(disk[start + bit / 4096], 8 * ((bit % 4096) / 64), word),
            ),
            start,
            j,
        ) == (if j / 64 == bit / 64 {
            word
        } else {
            spec_bitmap_word(disk, start, j)
        }),
{
    let blk = start + bit / 4096;
    let off = 8 * ((bit % 4096) / 64);
    lemma_get_set_u64_same(disk[blk], off, word);
    if j / 4096 == bit / 4096 && j / 64 != bit / 64 {
        lemma_get_set_u64_other(disk[blk], off, word, 8 * ((j % 4096) / 64));
    }
}

/// Splits a bit number into block, word and bit within the word.
pub fn decomposition(bit: usize) -> (r: (usize, usize, usize))
    ensures
        r.0 == bit / 4096,
        r.1 == (bit % 4096) / 64,
        r.2 == bit % 64,
        bit == r.0 * 4096 + r.1 * 64 + r.2,
{
    let block_id: usize = bit / BLOCK_BITS;
    let bitmap_pos: usize = (bit % BLOCK_BITS) / 64;
    let bit_pos: usize = (bit % BLOCK_BITS) % 64;
    (block_id, bitmap_pos, bit_pos)
}

impl Bitmap {
    /// Number of bits of the bitmap.
    pub open spec fn spec_maximum(&self) -> int {
        self.blocks * 4096
    }

    /// Do the blocks of the bitmap lie on `disk`?
    pub open spec fn spec_on_disk(&self, disk: Seq<Seq<u8>>) -> bool {
        &&& self.start_block_id + self.blocks <= disk.len()
        &&& self.start_block_id + self.blocks <= usize::MAX
        &&& self.blocks * 4096 <= usize::MAX
    }

    /// Is bit `bit` set on `disk`?
    pub open spec fn spec_is_set(&self, disk: Seq<Seq<u8>>, bit: int) -> bool {
        spec_bit(disk, self.start_block_id as int, bit)
    }

    /// `disk` with the word that holds `bit` replaced by `word`.
    pub open spec fn spec_with_word(&self, disk: Seq<Seq<u8>>, bit: int, word: u64) -> Seq<
        Seq<u8>,
    > {
        disk.update(
            self.start_block_id + bit / 4096,
            spec_set_u64(disk[self.start_block_id + bit / 4096], 8 * ((bit % 4096) / 64), word),
        )
    }

    /// A bitmap of `blocks` blocks from block `start_block_id` on.
    pub fn new(start_block_id: usize, blocks: usize) -> (bitmap: Self)
        ensures
            bitmap.start_block_id == start_block_id,
            bitmap.blocks == blocks,
    {
        Self { start_block_id, blocks }
    }

    /// Sets the lowest clear bit and returns its number, or returns `None`
    /// when every bit is set.
    pub fn allocate<D: BlockDevice>(&self, cache: &mut BlockCacheManager<D>) -> (r: Option<usize>)
        requires
            old(cache).wf(),
            self.spec_on_disk(old(cache)@),
        ensures
            final(cache).wf(),
            match r {
                Some(bit) => {
                    &&& bit < self.spec_maximum()
                    &&& !self.spec_is_set(old(cache)@, bit as int)
                    &&& forall|j: int| 0 <= j < bit ==> self.spec_is_set(old(cache)@, j)
                    &&& final(cache)@ == self.spec_with_word(
                        old(cache)@,
                        bit as int,
                        spec_bitmap_word(old(cache)@, self.start_block_id as int, bit as int) | (
                        1u64 << ((bit % 64) as u64)),
                    )
                    &&& forall|j: int|
                        0 <= j < self.spec_maximum() ==> self.spec_is_set(final(cache)@, j) == (j
                            == bit || self.spec_is_set(old(cache)@, j))
                },
                None => {
                    &&& final(cache)@ == old(cache)@
                    &&& forall|j: int| 0 <= j < self.spec_maximum() ==> self.spec_is_set(
                        old(cache)@,
                        j,
                    )
                },
            },
    {
        let ghost disk = cache@;
        let ghost start = self.start_block_id as int;
        proof {
            cache.lemma_view_valid();
        }
        let mut bitmap_block_id: usize = 0;
        while bitmap_block_id < self.blocks
            invariant
                bitmap_block_id <= self.blocks,
                cache.wf(),
                cache@ == disk,
                disk == old(cache)@,
                self.spec_on_disk(disk),
                start == self.start_block_id,
                forall|j: int| 0 <= j < bitmap_block_id * 4096 ==> spec_bit(disk, start, j),
            decreases self.blocks - bitmap_block_id,
        {
            let block: usize = self.start_block_id + bitmap_block_id;
            let mut pos: usize = 0;
            while pos < 64
                invariant
                    pos <= 64,
                    bitmap_block_id < self.blocks,
                    block == self.start_block_id + bitmap_block_id,
                    cache.wf(),
                    cache@ == disk,
                    disk == old(cache)@,
                    self.spec_on_disk(disk),
                    start == self.start_block_id,
                    forall|j: int|
                        0 <= j < bitmap_block_id * 4096 + pos * 64 ==> spec_bit(disk, start, j),
                decreases 64 - pos,
            {
                let word: u64 = cache.read_u64(block, 8 * pos);
                let ghost base = bitmap_block_id * 4096 + pos * 64;
                assert(word == spec_bitmap_word(disk, start, base));
                if word != u64::MAX {
                    let inner_pos: usize = word.trailing_ones() as usize;
                    proof {
                        axiom_u64_trailing_ones(word);
                    }
                    let bit: usize = bitmap_block_id * BLOCK_BITS + pos * 64 + inner_pos;
                    cache.modify_u64(block, 8 * pos, word | (1u64 << (inner_pos as u64)));
                    proof {
                        assert forall|t: u64| t < inner_pos implies spec_word_bit(word, t) by {
                            assert((word >> t) & 1u64 == 1u64);
                        }
                        self.lemma_allocated(
                            disk,
                            cache@,
                            bitmap_block_id as int,
                            pos as int,
                            word,
                            inner_pos as u64,
                        );
                    }
                    return Some(bit);
                }
                proof {
                    assert forall|j: int| 0 <= j < base + 64 implies spec_bit(disk, start, j) by {
                        if j >= base {
                            assert(spec_bitmap_word(disk, start, j) == word);
                            lemma_full_word((j % 64) as u64);
                        }
                    }
                }
                pos += 1;
            }
            bitmap_block_id += 1;
        }
        None
    }

    /// What setting the lowest clear bit of a bitmap does to its bits.
    proof fn lemma_allocated(
        &self,
        disk: Seq<Seq<u8>>,
        disk2: Seq<Seq<u8>>,
        block: int,
        pos: int,
        word: u64,
        inner: u64,
    )
        requires
            self.spec_on_disk(disk),
            forall|b: int| 0 <= b < disk.len() ==> (#[trigger] disk[b]).len() == BLOCK_SIZE,
            0 <= block < self.blocks,
            0 <= pos < 64,
            inner < 64,
            word == spec_get_u64(disk[self.start_block_id + block], 8 * pos),
            !spec_word_bit(word, inner),
            forall|t: u64| t < inner ==> spec_word_bit(word, t),
            forall|j: int|
                0 <= j < block * 4096 + pos * 64 ==> spec_bit(disk, self.start_block_id as int, j),
            disk2 == disk.update(
                self.start_block_id + block,
                spec_set_u64(disk[self.start_block_id + block], 8 * pos, word | (1u64 << inner)),
            ),
        ensures
            ({
                let bit = block * 4096 + pos * 64 + inner;
                &&& 0 <= bit < self.spec_maximum()
                &&& bit % 64 == inner
                &&& !self.spec_is_set(disk, bit)
                &&& forall|j: int| 0 <= j < bit ==> self.spec_is_set(disk, j)
                &&& disk2 == self.spec_with_word(
                    disk,
                    bit,
                    spec_bitmap_word(disk, self.start_block_id as int, bit) | (1u64 << ((bit
                        % 64) as u64)),
                )
                &&& forall|j: int|
                    0 <= j < self.spec_maximum() ==> self.spec_is_set(disk2, j) == (j == bit
                        || self.spec_is_set(disk, j))
            }),
    {
        let start = self.start_block_id as int;
        let base = block * 4096 + pos * 64;
        let bit = base + inner;
        let new_word = word | (1u64 << inner);
        assert(bit / 4096 == block && (bit % 4096) / 64 == pos && bit % 64 == inner);
        assert(spec_bitmap_word(disk, start, bit) == word);
        assert(((bit % 64) as u64) == inner);
        assert forall|j: int| 0 <= j < bit implies self.spec_is_set(disk, j) by {
            if j >= base {
                assert(j / 4096 == block && (j % 4096) / 64 == pos);
                assert(spec_bitmap_word(disk, start, j) == word);
                assert(spec_word_bit(word, (j % 64) as u64));
            }
        }
        assert forall|j: int| 0 <= j < self.spec_maximum() implies self.spec_is_set(disk2, j) == (j
            == bit || self.spec_is_set(disk, j)) by {
            lemma_word_replaced(disk, start, bit, new_word, j);
            if j / 64 == bit / 64 {
                assert(j / 4096 == block && (j % 4096) / 64 == pos);
                assert(spec_bitmap_word(disk, start, j) == word);
                lemma_set_bit(word, inner, (j % 64) as u64);
            }
        }
    }

    /// Clears bit `bit`, which must be set.
    pub fn dealloc<D: BlockDevice>(&self, cache: &mut BlockCacheManager<D>, bit: usize)
        requires
            old(cache).wf(),
            self.spec_on_disk(old(cache)@),
            bit < self.spec_maximum(),
            self.spec_is_set(old(cache)@, bit as int),
        ensures
            final(cache).wf(),
            final(cache)@ == self.spec_with_word(
                old(cache)@,
                bit as int,
                (spec_bitmap_word(old(cache)@, self.start_block_id as int, bit as int) - (1u64 << (
                (bit % 64) as u64))) as u64,
            ),
            forall|j: int|
                0 <= j < self.spec_maximum() ==> self.spec_is_set(final(cache)@, j) == (j != bit
                    && self.spec_is_set(old(cache)@, j)),
    {
        let ghost disk = cache@;
        let ghost start = self.start_block_id as int;
        proof {
            cache.lemma_view_valid();
        }
        let (block_id, bitmap_pos, bit_pos) = decomposition(bit);
        let block: usize = block_id + self.start_block_id;
        let word: u64 = cache.read_u64(block, 8 * bitmap_pos);
        proof {
            assert(word == spec_bitmap_word(disk, start, bit as int));
            lemma_clear_bit(word, bit_pos as u64, bit_pos as u64);
        }
        let new_word: u64 = word - (1u64 << (bit_pos as u64));
        cache.modify_u64(block, 8 * bitmap_pos, new_word);
        proof {
            assert forall|j: int| 0 <= j < self.spec_maximum() implies spec_bit(cache@, start, j)
                == (j != bit && spec_bit(disk, start, j)) by {
                lemma_word_replaced(disk, start, bit as int, new_word, j);
                if j / 64 == bit / 64 {
                    assert(spec_bitmap_word(disk, start, j) == word);
                    lemma_clear_bit(word, bit_pos as u64, (j % 64) as u64);
                }
            }
        }
    }

    /// Number of clear bits among the first `n` bits on `disk`.
    pub open spec fn spec_free(&self, disk: Seq<Seq<u8>>, n: int) -> int
        decreases n,
    {
        if n <= 0 {
            0
        } else {
            self.spec_free(disk, n - 1) + (if self.spec_is_set(disk, n - 1) {
                0int
            } else {
                1int
            })
        }
    }

    /// There are clear bits among the first `n` exactly if their number is
    /// not 0, which is at most `n`.
    pub proof fn lemma_free_exists(&self, disk: Seq<Seq<u8>>, n: int)
        requires
            0 <= n,
        ensures
            0 <= self.spec_free(disk, n) <= n,
            self.spec_free(disk, n) > 0 <==> exists|j: int|
                0 <= j < n && !self.spec_is_set(disk, j),
        decreases n,
    {
        if n > 0 {
            self.lemma_free_exists(disk, n - 1);
            if self.spec_free(disk, n - 1) > 0 {
                let j = choose|j: int| 0 <= j < n - 1 && !self.spec_is_set(disk, j);
                assert(0 <= j < n && !self.spec_is_set(disk, j));
            } else if !self.spec_is_set(disk, n - 1) {
                assert(0 <= n - 1 < n && !self.spec_is_set(disk, n - 1));
            } else {
                assert forall|j: int| 0 <= j < n implies self.spec_is_set(disk, j) by {
                    if j < n - 1 {
                        assert(!(0 <= j < n - 1 && !self.spec_is_set(disk, j)));
                    }
                }
            }
        }
    }

    /// How the number of clear bits changes when one bit changes.
    pub proof fn lemma_free_changed(
        &self,
        disk: Seq<Seq<u8>>,
        disk2: Seq<Seq<u8>>,
        n: int,
        bit: int,
    )
        requires
            0 <= n,
            forall|j: int|
                0 <= j < n && j != bit ==> self.spec_is_set(disk2, j) == self.spec_is_set(disk, j),
        ensures
            self.spec_free(disk2, n) == self.spec_free(disk, n) + (if 0 <= bit < n {
                (if self.spec_is_set(disk, bit) {
                    1int
                } else {
                    0int
                }) - (if self.spec_is_set(disk2, bit) {
                    1int
                } else {
                    0int
                })
            } else {
                0int
            }),
        decreases n,
    {
        if n > 0 {
            self.lemma_free_changed(disk, disk2, n - 1, bit);
        }
    }

    /// Counts the clear bits among the first `limit` bits.
    pub fn count_free<D: BlockDevice>(&self, cache: &mut BlockCacheManager<D>, limit: usize) -> (n:
        usize)
        requires
            old(cache).wf(),
            self.spec_on_disk(old(cache)@),
            limit <= self.spec_maximum(),
        ensures
            final(cache).wf(),
            final(cache)@ == old(cache)@,
            n == self.spec_free(old(cache)@, limit as int),
    {
        let ghost disk = cache@;
        let mut n: usize = 0;
        let mut bit: usize = 0;
        while bit < limit
            invariant
                bit <= limit,
                limit <= self.spec_maximum(),
                cache.wf(),
                cache@ == disk,
                disk == old(cache)@,
                self.spec_on_disk(disk),
                n == self.spec_free(disk, bit as int),
                n <= bit,
            decreases limit - bit,
        {
            let (block_id, bitmap_pos, bit_pos) = decomposition(bit);
            let word: u64 = cache.read_u64(self.start_block_id + block_id, 8 * bitmap_pos);
            proof {
                lemma_test_bit(word, bit_pos as u64);
                assert(word == spec_bitmap_word(disk, self.start_block_id as int, bit as int));
            }
            if (word & (1u64 << (bit_pos as u64))) == 0 {
                n += 1;
            }
            bit += 1;
        }
        n
    }

    /// Number of bits of the bitmap.
    pub fn maximum(&self) -> (n: usize)
        requires
            self.blocks * 4096 <= usize::MAX,
        ensures
            n == self.spec_maximum(),
    {
        self.blocks * BLOCK_BITS
    }
}

} // verus!
