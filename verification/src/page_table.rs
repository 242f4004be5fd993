//! Page table entries as the hardware reads them, the token that names a
//! page table, and the pages that a buffer of a user program touches.
use crate::config::PAGE_SIZE;
use vstd::prelude::*;

verus! {

/// Position of the page number in a page table entry.
pub const PPN_OFFSET: u64 = 10;

/// Number of bits of a page number.
pub const PPN_WIDTH: u64 = 44;

/// The entry is in use.
pub const PTE_V: u8 = 1;

/// The page may be read.
pub const PTE_R: u8 = 2;

/// The page may be written.
pub const PTE_W: u8 = 4;

/// The page may be executed.
pub const PTE_X: u8 = 8;

/// The page is for user mode.
pub const PTE_U: u8 = 16;

/// The mapping is in every address space.
pub const PTE_G: u8 = 32;

/// The page has been accessed.
pub const PTE_A: u8 = 64;

/// The page has been written.
pub const PTE_D: u8 = 128;

/// The flags of a page table entry, one bit each.
#[derive(Copy, Clone, PartialEq, Eq, Structural, Debug)]
pub struct PTEFlags {
    pub bits: u8,
}

impl PTEFlags {
    /// The flags with the given bits. Every bit is a flag, so there are
    /// always such flags.
    pub fn from_bits(bits: u8) -> (flags: Option<Self>)
        ensures
            flags == Some(PTEFlags { bits }),
    {
        Some(PTEFlags { bits })
    }

    /// The bits of the flags.
    pub fn bits(&self) -> (bits: u8)
        ensures
            bits == self.bits,
    {
        self.bits
    }

    /// No flag.
    pub fn empty() -> (flags: Self)
        ensures
            flags.bits == 0,
    {
        PTEFlags { bits: 0 }
    }

    /// Are all flags of `other` among these?
    pub fn contains(&self, other: PTEFlags) -> (r: bool)
        ensures
            r == ((self.bits & other.bits) == other.bits),
    {
        (self.bits & other.bits) == other.bits
    }

    /// These flags and those of `other`.
    pub fn union(&self, other: PTEFlags) -> (flags: Self)
        ensures
            flags.bits == self.bits | other.bits,
    {
        PTEFlags { bits: self.bits | other.bits }
    }
}

/// A page table entry: the flags in bits 0 to 7, the number of the physical
/// page in bits 10 to 53.
#[derive(Copy, Clone, PartialEq, Eq, Structural, Debug)]
pub struct PageTableEntry {
    pub bits: u64,
}

impl PageTableEntry {
    /// The page number in the entry.
    pub open spec fn spec_ppn(&self) -> u64 {
        (self.bits >> 10u64) & 0xfff_ffff_ffffu64
    }

    /// The flags in the entry.
    pub open spec fn spec_flags(&self) -> PTEFlags {
        PTEFlags { bits: (self.bits & 0xffu64) as u8 }
    }

    /// The entry for page `ppn` with the flags `flags`.
    pub fn new(ppn: u64, flags: PTEFlags) -> (pte: Self)
        ensures
            pte.bits == (ppn << 10u64) | (flags.bits as u64),
            pte.spec_flags() == flags,
            ppn < 0x1000_0000_0000 ==> pte.spec_ppn() == ppn,
    {
        let low: u64 = flags.bits as u64;
        let bits: u64 = (ppn << PPN_OFFSET) | low;
        proof {
            let f = flags.bits;
            assert(((((ppn << 10u64) | (f as u64)) & 0xffu64) as u8) == f) by (bit_vector);
            assert(ppn < 0x1000_0000_0000u64 ==> ((((ppn << 10u64) | (f as u64)) >> 10u64)
                & 0xfff_ffff_ffffu64) == ppn) by (bit_vector);
        }
        Self { bits }
    }

    /// The entry that is not in use.
    pub fn empty() -> (pte: Self)
        ensures
            pte.bits == 0,
    {
        Self { bits: 0 }
    }

    /// The page number in the entry.
    pub fn ppn(&self) -> (ppn: u64)
        ensures
            ppn == self.spec_ppn(),
            ppn < 0x1000_0000_0000,
    {
        let bits: u64 = self.bits;
        proof {
            assert((1u64 << 44u64) == 0x1000_0000_0000u64) by (bit_vector);
            assert(((bits >> 10u64) & 0xfff_ffff_ffffu64) < 0x1000_0000_0000u64) by (bit_vector);
        }
        let mask: u64 = (1u64 << PPN_WIDTH) - 1;
        (bits >> PPN_OFFSET) & mask
    }

    /// The flags in the entry.
    pub fn flags(&self) -> (flags: PTEFlags)
        ensures
            flags == self.spec_flags(),
    {
        let bits: u64 = self.bits;
        proof {
            assert((bits & 0xffu64) < 256) by (bit_vector);
        }
        PTEFlags { bits: (bits & 0xff) as u8 }
    }

    /// Is the entry in use?
    pub fn is_valid(&self) -> (r: bool)
        ensures
            r == (self.spec_flags().bits & PTE_V != 0),
    {
        (self.flags().bits & PTE_V) != 0
    }

    /// May the page be read?
    pub fn readable(&self) -> (r: bool)
        ensures
            r == (self.spec_flags().bits & PTE_R != 0),
    {
        (self.flags().bits & PTE_R) != 0
    }

    /// May the page be written?
    pub fn writable(&self) -> (r: bool)
        ensures
            r == (self.spec_flags().bits & PTE_W != 0),
    {
        (self.flags().bits & PTE_W) != 0
    }

    /// May the page be executed?
    pub fn executable(&self) -> (r: bool)
        ensures
            r == (self.spec_flags().bits & PTE_X != 0),
    {
        (self.flags().bits & PTE_X) != 0
    }
}

/// A page table, known by the number of its root page.
#[derive(Copy, Clone, PartialEq, Eq, Structural, Debug)]
pub struct PageTable {
    pub root_ppn: u64,
}

impl PageTable {
    /// The page table with token `satp`: its root page is named by the
    /// lowest 44 bits.
    pub fn from_token(satp: u64) -> (table: Self)
        ensures
            table.root_ppn == satp & 0xfff_ffff_ffffu64,
            table.root_ppn < 0x1000_0000_0000,
    {
        proof {
            assert((satp & 0xfff_ffff_ffffu64) < 0x1000_0000_0000u64) by (bit_vector);
        }
        Self { root_ppn: satp & 0xfff_ffff_ffff }
    }

    /// The token of the page table: the number of its root page with the
    /// mode of three-level paging, 8, in the four highest bits.
    pub fn token(&self) -> (satp: u64)
        ensures
            satp == (8u64 << 60u64) | self.root_ppn,
            self.root_ppn < 0x1000_0000_0000 ==> satp & 0xfff_ffff_ffffu64 == self.root_ppn,
    {
        let root: u64 = self.root_ppn;
        proof {
            assert(root < 0x1000_0000_0000u64 ==> (((8u64 << 60u64) | root) & 0xfff_ffff_ffffu64)
                == root) by (bit_vector);
        }
        (8u64 << 60) | root
    }
}

/// The part of a buffer that lies in one page: the bytes from `start` up to
/// `end`, counted from the start of page `vpn`.
#[derive(Copy, Clone, PartialEq, Eq, Structural, Debug)]
pub struct PagePiece {
    pub vpn: usize,
    pub start: usize,
    pub end: usize,
}

/// The part of the addresses from `start` up to `end` that lies in the page
/// of `start`.
#[verifier::opaque]
pub open spec fn spec_first_piece(start: int, end: int) -> PagePiece {
    let vpn = start / (PAGE_SIZE as int);
    let page_end = (vpn + 1) * PAGE_SIZE;
    PagePiece {
        vpn: vpn as usize,
        start: (start - vpn * PAGE_SIZE) as usize,
        end: (if end < page_end {
            end - vpn * PAGE_SIZE
        } else {
            PAGE_SIZE as int
        }) as usize,
    }
}

/// The pieces of the addresses from `start` up to `end`, page by page.
pub open spec fn spec_page_pieces(start: int, end: int) -> Seq<PagePiece>
    decreases end - start,
    via lemma_pieces_end
{
    if start >= end || start < 0 {
        Seq::empty()
    } else {
        seq![spec_first_piece(start, end)] + spec_page_pieces(spec_piece_stop(start, end), end)
    }
}

/// The rest of a buffer behind its first piece is shorter than the buffer.
#[via_fn]
proof fn lemma_pieces_end(start: int, end: int) {
    reveal(spec_piece_stop);
    if 0 <= start < end {
        assert(start / 4096 * 4096 + start % 4096 == start);
    }
}

/// Number of bytes in `pieces`.
pub open spec fn spec_pieces_len(pieces: Seq<PagePiece>) -> int
    decreases pieces.len(),
{
    if pieces.len() == 0 {
        0
    } else {
        pieces[0].end - pieces[0].start + spec_pieces_len(pieces.drop_first())
    }
}

/// Where the addresses from `start` up to `end` leave the page of `start`,
/// or end.
#[verifier::opaque]
pub open spec fn spec_piece_stop(start: int, end: int) -> int {
    let next = (start / (PAGE_SIZE as int) + 1) * PAGE_SIZE;
    if end < next {
        end
    } else {
        next
    }
}

/// The first piece of a buffer starts where the buffer starts, is not
/// empty, and ends at the end of the buffer or of the page.
pub proof fn lemma_first_piece(start: int, end: int)
    requires
        0 <= start < end <= usize::MAX,
    ensures
        ({
            let piece = spec_first_piece(start, end);
            let stop = spec_piece_stop(start, end);
            &&& piece.vpn == start / (PAGE_SIZE as int)
            &&& piece.start < piece.end <= PAGE_SIZE
            &&& piece.vpn * PAGE_SIZE + piece.start == start
            &&& piece.vpn * PAGE_SIZE + piece.end == stop
            &&& start < stop <= end
            &&& stop < end ==> piece.end == PAGE_SIZE && stop == (piece.vpn + 1) * PAGE_SIZE
            &&& stop / (PAGE_SIZE as int) == (if piece.end == PAGE_SIZE {
                piece.vpn + 1
            } else {
                piece.vpn as int
            })
        }),
{
    reveal(spec_first_piece);
    reveal(spec_piece_stop);
    let vpn = start / 4096;
    let offset = start % 4096;
    assert(start == vpn * 4096 + offset);
    assert(0 <= offset < 4096);
    assert(0 <= vpn <= start);
    let stop = spec_piece_stop(start, end);
    if end < (vpn + 1) * 4096 {
        assert(stop == end);
        assert(end / 4096 == vpn);
    } else {
        assert(stop == (vpn + 1) * 4096);
        assert(stop / 4096 == vpn + 1);
    }
}

/// Does `piece` lie in its page and within the addresses from `start` up
/// to `end`, and is it not empty?
pub open spec fn spec_piece_within(piece: PagePiece, start: int, end: int) -> bool {
    &&& piece.start < piece.end <= 4096
    &&& start <= piece.vpn * 4096 + piece.start
    &&& piece.vpn * 4096 + piece.end <= end
}

/// Does `next` go on in the page after `piece`, where `piece` ends with its
/// page?
pub open spec fn spec_piece_follows(piece: PagePiece, next: PagePiece) -> bool {
    piece.end == 4096 && next.start == 0 && next.vpn == piece.vpn + 1
}

/// The pieces of a buffer are not empty, lie each in its page, follow one
/// another without a gap, and have together as many bytes as the buffer.
pub proof fn lemma_page_pieces(start: int, end: int)
    requires
        0 <= start <= end <= usize::MAX,
    ensures
        spec_pieces_len(spec_page_pieces(start, end)) == end - start,
        forall|i: int|
            0 <= i < spec_page_pieces(start, end).len() ==> spec_piece_within(
                #[trigger] spec_page_pieces(start, end)[i],
                start,
                end,
            ),
        forall|i: int|
            0 <= i < spec_page_pieces(start, end).len() - 1 ==> spec_piece_follows(
                #[trigger] spec_page_pieces(start, end)[i],
                spec_page_pieces(start, end)[i + 1],
            ),
        start < end ==> spec_page_pieces(start, end).len() > 0 && spec_page_pieces(
            start,
            end,
        )[0] == spec_first_piece(start, end),
    decreases end - start,
{
    if start < end {
        let stop = spec_piece_stop(start, end);
        let first = spec_first_piece(start, end);
        let rest = spec_page_pieces(stop, end);
        let all = spec_page_pieces(start, end);
        lemma_first_piece(start, end);
        assert(all == seq![first] + rest);
        assert(all[0] == first);
        assert(all.len() == rest.len() + 1);
        lemma_page_pieces(stop, end);
        assert(all.drop_first() =~= rest);
        assert(spec_piece_within(first, start, end));
        assert forall|i: int| 0 <= i < all.len() implies spec_piece_within(
            #[trigger] all[i],
            start,
            end,
        ) by {
            if i > 0 {
                assert(all[i] == rest[i - 1]);
                assert(spec_piece_within(rest[i - 1], stop, end));
            }
        }
        assert forall|i: int| 0 <= i < all.len() - 1 implies spec_piece_follows(
            #[trigger] all[i],
            all[i + 1],
        ) by {
            if i > 0 {
                assert(all[i] == rest[i - 1]);
                assert(all[i + 1] == rest[i]);
                assert(spec_piece_follows(rest[i - 1], rest[i]));
            } else {
                assert(all[1] == rest[0]);
                assert(stop < end);
                lemma_first_piece(stop, end);
                assert(rest[0] == spec_first_piece(stop, end));
            }
        }
    } else {
        assert(spec_page_pieces(start, end) =~= Seq::<PagePiece>::empty());
    }
}

/// The pages that the buffer of `len` bytes at address `ptr` touches, in
/// the order of their addresses, and the part of the buffer in each.
pub fn page_pieces(ptr: usize, len: usize) -> (pieces: Vec<PagePiece>)
    requires
        ptr + len <= usize::MAX,
    ensures
        pieces@ == spec_page_pieces(ptr as int, ptr + len),
{
    let end: usize = ptr + len;
    let mut start: usize = ptr;
    let mut pieces: Vec<PagePiece> = Vec::new();
    while start < end
        invariant
            ptr <= start <= end,
            end == ptr + len,
            pieces@ + spec_page_pieces(start as int, end as int) == spec_page_pieces(
                ptr as int,
                end as int,
            ),
        decreases end - start,
    {
        let vpn: usize = start / PAGE_SIZE;
        let offset: usize = start % PAGE_SIZE;
        let room: usize = PAGE_SIZE - offset;
        let stop: usize = if end - start < room {
            end
        } else {
            start + room
        };
        let piece = PagePiece { vpn, start: offset, end: stop - vpn * PAGE_SIZE };
        proof {
            reveal(spec_first_piece);
            reveal(spec_piece_stop);
            lemma_first_piece(start as int, end as int);
            assert(stop == spec_piece_stop(start as int, end as int));
            assert(piece == spec_first_piece(start as int, end as int));
            assert(pieces@.push(piece) + spec_page_pieces(stop as int, end as int) =~= pieces@
                + spec_page_pieces(start as int, end as int));
        }
        pieces.push(piece);
        start = stop;
    }
    assert(pieces@ + Seq::<PagePiece>::empty() =~= pieces@);
    pieces
}

} // verus!
