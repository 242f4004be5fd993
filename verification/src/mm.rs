//! Buffers of user programs as the kernel sees them: lists of byte slices,
//! one for each page that a buffer touches.
use vstd::prelude::*;

verus! {

/// A buffer of a user program: the pieces of it, in the order of their
/// addresses.
pub struct UserBuffer {
    pub buffers: Vec<Vec<u8>>,
}

/// Number of bytes in the pieces of `buffers` from piece `from` on.
pub open spec fn spec_total_len(buffers: Seq<Vec<u8>>, from: int) -> int
    decreases buffers.len() - from,
{
    if from >= buffers.len() || from < 0 {
        0
    } else {
        buffers[from]@.len() + spec_total_len(buffers, from + 1)
    }
}

/// The bytes of the pieces of `buffers` from piece `from` on, one piece
/// after the other.
pub open spec fn spec_flat(buffers: Seq<Vec<u8>>, from: int) -> Seq<u8>
    decreases buffers.len() - from,
{
    if from >= buffers.len() || from < 0 {
        Seq::empty()
    } else {
        buffers[from]@ + spec_flat(buffers, from + 1)
    }
}

/// The bytes of all pieces are as many as the pieces have.
pub proof fn lemma_flat_len(buffers: Seq<Vec<u8>>, from: int)
    requires
        0 <= from,
    ensures
        spec_flat(buffers, from).len() == spec_total_len(buffers, from),
        spec_total_len(buffers, from) >= 0,
    decreases buffers.len() - from,
{
    if from < buffers.len() {
        lemma_flat_len(buffers, from + 1);
    }
}

/// Pieces of the same lengths have the same number of bytes.
pub proof fn lemma_total_same_from(a: Seq<Vec<u8>>, b: Seq<Vec<u8>>, from: int)
    requires
        0 <= from,
        a.len() == b.len(),
        forall|k: int| 0 <= k < a.len() ==> a[k]@.len() == b[k]@.len(),
    ensures
        spec_total_len(a, from) == spec_total_len(b, from),
    decreases a.len() - from,
{
    if from < a.len() {
        lemma_total_same_from(a, b, from + 1);
    }
}

/// The pieces from a later piece on have no more bytes than those from an
/// earlier piece on.
pub proof fn lemma_total_monotone(buffers: Seq<Vec<u8>>, a: int, b: int)
    requires
        0 <= a <= b,
    ensures
        0 <= spec_total_len(buffers, b) <= spec_total_len(buffers, a),
    decreases b - a,
{
    lemma_flat_len(buffers, b);
    if a < b {
        lemma_total_monotone(buffers, a + 1, b);
        lemma_flat_len(buffers, a);
    }
}

/// Pieces that hold one after the other what `flat` holds make up `flat`.
pub proof fn lemma_flat_is(buffers: Seq<Vec<u8>>, flat: Seq<u8>, from: int)
    requires
        0 <= from <= buffers.len(),
        spec_total_len(buffers, 0) == flat.len(),
        forall|k: int|
            from <= k < buffers.len() ==> buffers[k]@ == flat.subrange(
                spec_total_len(buffers, 0) - spec_total_len(buffers, k),
                spec_total_len(buffers, 0) - spec_total_len(buffers, k + 1),
            ),
    ensures
        spec_flat(buffers, from) == flat.subrange(
            spec_total_len(buffers, 0) - spec_total_len(buffers, from),
            flat.len() as int,
        ),
    decreases buffers.len() - from,
{
    lemma_flat_len(buffers, from);
    lemma_total_monotone(buffers, 0, from);
    if from < buffers.len() {
        lemma_flat_len(buffers, from + 1);
        lemma_total_monotone(buffers, 0, from + 1);
        lemma_total_monotone(buffers, from, from + 1);
        lemma_flat_is(buffers, flat, from + 1);
        assert(spec_flat(buffers, from) =~= flat.subrange(
            spec_total_len(buffers, 0) - spec_total_len(buffers, from),
            flat.len() as int,
        ));
    } else {
        assert(spec_flat(buffers, from) =~= flat.subrange(flat.len() as int, flat.len() as int));
    }
}

impl UserBuffer {
    /// The buffer made of the pieces `buffers`.
    pub fn new(buffers: Vec<Vec<u8>>) -> (buf: UserBuffer)
        ensures
            buf.buffers == buffers,
    {
        UserBuffer { buffers }
    }

    /// Number of bytes of the buffer.
    pub fn len(&self) -> (total: usize)
        requires
            spec_total_len(self.buffers@, 0) <= usize::MAX,
        ensures
            total == spec_total_len(self.buffers@, 0),
    {
        let n: usize = self.buffers.len();
        let mut total: usize = 0;
        let mut i: usize = 0;
        proof {
            lemma_flat_len(self.buffers@, 0);
        }
        while i < n
            invariant
                i <= n,
                n == self.buffers@.len(),
                total + spec_total_len(self.buffers@, i as int) == spec_total_len(self.buffers@, 0),
                spec_total_len(self.buffers@, 0) <= usize::MAX,
            decreases n - i,
        {
            proof {
                lemma_flat_len(self.buffers@, i + 1);
            }
            total += self.buffers[i].len();
            i += 1;
        }
        total
    }

    /// The bytes of the buffer in one piece.
    pub fn to_vec(&self) -> (flat: Vec<u8>)
        ensures
            flat@ == spec_flat(self.buffers@, 0),
    {
        let n: usize = self.buffers.len();
        let mut flat: Vec<u8> = Vec::new();
        let mut i: usize = 0;
        while i < n
            invariant
                i <= n,
                n == self.buffers@.len(),
                flat@ + spec_flat(self.buffers@, i as int) == spec_flat(self.buffers@, 0),
            decreases n - i,
        {
            let ghost before = flat@;
            flat.extend_from_slice(self.buffers[i].as_slice());
            assert(flat@ + spec_flat(self.buffers@, i + 1) =~= before + spec_flat(
                self.buffers@,
                i as int,
            ));
            i += 1;
        }
        assert(flat@ + spec_flat(self.buffers@, n as int) =~= flat@);
        flat
    }

    /// Number of bytes of the buffer, if it is at most `limit`.
    pub fn checked_len(&self, limit: usize) -> (total: Option<usize>)
        ensures
            match total {
                Some(n) => n == spec_total_len(self.buffers@, 0) && n <= limit,
                None => spec_total_len(self.buffers@, 0) > limit,
            },
    {
        let n: usize = self.buffers.len();
        let mut total: usize = 0;
        let mut i: usize = 0;
        proof {
            lemma_flat_len(self.buffers@, 0);
        }
        while i < n
            invariant
                i <= n,
                n == self.buffers@.len(),
                total <= limit,
                total + spec_total_len(self.buffers@, i as int) == spec_total_len(self.buffers@, 0),
            decreases n - i,
        {
            proof {
                lemma_flat_len(self.buffers@, i + 1);
            }
            let piece: usize = self.buffers[i].len();
            if piece > limit - total {
                return None;
            }
            total += piece;
            i += 1;
        }
        Some(total)
    }

    /// Copies `flat`, which has as many bytes as the buffer, into the
    /// pieces of the buffer, one piece after the other.
    pub fn fill_from(&mut self, flat: &[u8])
        requires
            flat@.len() == spec_total_len(old(self).buffers@, 0),
        ensures
            final(self).buffers@.len() == old(self).buffers@.len(),
            forall|i: int|
                0 <= i < old(self).buffers@.len() ==> final(self).buffers@[i]@.len() == old(self).buffers@[i]@.len(),
            spec_flat(final(self).buffers@, 0) == flat@,
    {
        let n: usize = self.buffers.len();
        let total_bytes: usize = flat.len();
        let mut done: usize = 0;
        let mut i: usize = 0;
        proof {
            lemma_flat_len(self.buffers@, 0);
        }
        while i < n
            invariant
                i <= n,
                n == self.buffers@.len(),
                n == old(self).buffers@.len(),
                forall|k: int|
                    0 <= k < n ==> self.buffers@[k]@.len() == old(self).buffers@[k]@.len(),
                done + spec_total_len(self.buffers@, i as int) == flat@.len(),
                forall|k: int|
                    0 <= k < i ==> self.buffers@[k]@ == flat@.subrange(
                        spec_total_len(self.buffers@, 0) - spec_total_len(self.buffers@, k),
                        spec_total_len(self.buffers@, 0) - spec_total_len(self.buffers@, k + 1),
                    ),
                spec_total_len(self.buffers@, 0) == flat@.len(),
                total_bytes == flat@.len(),
                done == spec_total_len(self.buffers@, 0) - spec_total_len(self.buffers@, i as int),
            decreases n - i,
        {
            let ghost before = self.buffers@;
            proof {
                lemma_flat_len(self.buffers@, i + 1);
                lemma_total_monotone(self.buffers@, i as int, i + 1);
            }
            let len: usize = self.buffers[i].len();
            let piece = vstd::slice::slice_subrange(flat, done, done + len);
            crate::codec::splice(self.buffers[i].as_mut_slice(), 0, piece);
            proof {
                let after = self.buffers@;
                assert(after[i as int]@ =~= piece@);
                assert forall|k: int| 0 <= k < n implies after[k]@.len() == before[k]@.len() by {}
                lemma_total_same_from(before, after, 0);
                assert forall|k: int| 0 <= k <= n implies spec_total_len(after, k)
                    == spec_total_len(before, k) by {
                    lemma_total_same_from(before, after, k);
                }
            }
            done += len;
            i += 1;
        }
        proof {
            lemma_flat_is(self.buffers@, flat@, 0);
        }
    }
}

/// A walk through the bytes of a user buffer in the order of their
/// addresses. Its place is a piece and a byte of that piece.
pub struct UserBufferIterator {
    pub buffers: Vec<Vec<u8>>,
    pub current_buffer: usize,
    pub current_idx: usize,
}

impl UserBuffer {
    /// The walk through the bytes of the buffer, at its first byte.
    pub fn into_iter(self) -> (walk: UserBufferIterator)
        ensures
            walk.buffers == self.buffers,
            walk.current_buffer == 0,
            walk.current_idx == 0,
            walk.spec_passed() == 0,
    {
        proof {
            lemma_flat_len(self.buffers@, 0);
        }
        UserBufferIterator { buffers: self.buffers, current_buffer: 0, current_idx: 0 }
    }
}

impl UserBufferIterator {
    /// The invariant: no piece is empty, and the walk is at a byte of a
    /// piece or behind the last piece.
    pub open spec fn wf(&self) -> bool {
        &&& forall|k: int| 0 <= k < self.buffers@.len() ==> (#[trigger] self.buffers@[k])@.len() > 0
        &&& self.current_buffer <= self.buffers@.len()
        &&& self.current_buffer < self.buffers@.len() ==> self.current_idx
            < self.buffers@[self.current_buffer as int]@.len()
        &&& self.current_buffer == self.buffers@.len() ==> self.current_idx == 0
    }

    /// Number of bytes that the walk has passed: those of the pieces before
    /// its place and those before it in its piece.
    pub open spec fn spec_passed(&self) -> int {
        spec_total_len(self.buffers@, 0) - spec_total_len(
            self.buffers@,
            self.current_buffer as int,
        ) + self.current_idx
    }

    /// The place of the next byte, as the numbers of its piece and of the
    /// byte in the piece, or `None` behind the last byte. The walk moves on
    /// by one byte: byte number `spec_passed` of the buffer is the one at
    /// the place returned.
    pub fn next(&mut self) -> (place: Option<(usize, usize)>)
        requires
            old(self).wf(),
        ensures
            final(self).wf(),
            final(self).buffers == old(self).buffers,
            old(self).current_buffer >= old(self).buffers@.len() ==> place is None && *final(self)
                == *old(self),
            old(self).current_buffer < old(self).buffers@.len() ==> {
                &&& place == Some((old(self).current_buffer, old(self).current_idx))
                &&& final(self).spec_passed() == old(self).spec_passed() + 1
                &&& spec_flat(old(self).buffers@, 0)[old(self).spec_passed()] == old(self).buffers@[old(self).current_buffer as int]@[old(self).current_idx as int]
            },
    {
        if self.current_buffer >= self.buffers.len() {
            return None;
        }
        let place = (self.current_buffer, self.current_idx);
        proof {
            lemma_flat_at(self.buffers@, self.current_buffer as int, self.current_idx as int);
            lemma_flat_len(self.buffers@, self.current_buffer + 1);
        }
        let len: usize = self.buffers[self.current_buffer].len();
        if self.current_idx + 1 == len {
            self.current_buffer += 1;
            self.current_idx = 0;
        } else {
            self.current_idx += 1;
        }
        Some(place)
    }
}

/// Byte `idx` of piece `piece` is the byte of the buffer that comes after
/// the bytes of the pieces before and the bytes before it in its piece.
pub proof fn lemma_flat_at(buffers: Seq<Vec<u8>>, piece: int, idx: int)
    requires
        0 <= piece < buffers.len(),
        0 <= idx < buffers[piece]@.len(),
    ensures
        0 <= spec_total_len(buffers, 0) - spec_total_len(buffers, piece) + idx < spec_flat(
            buffers,
            0,
        ).len(),
        spec_flat(buffers, 0)[spec_total_len(buffers, 0) - spec_total_len(buffers, piece) + idx]
            == buffers[piece]@[idx],
{
    lemma_flat_from(buffers, 0, piece, idx);
}

/// The same, counted from piece `from` on.
proof fn lemma_flat_from(buffers: Seq<Vec<u8>>, from: int, piece: int, idx: int)
    requires
        0 <= from <= piece < buffers.len(),
        0 <= idx < buffers[piece]@.len(),
    ensures
        0 <= spec_total_len(buffers, from) - spec_total_len(buffers, piece) + idx < spec_flat(
            buffers,
            from,
        ).len(),
        spec_flat(buffers, from)[spec_total_len(buffers, from) - spec_total_len(buffers, piece)
            + idx] == buffers[piece]@[idx],
    decreases piece - from,
{
    lemma_flat_len(buffers, from);
    lemma_flat_len(buffers, from + 1);
    if from < piece {
        lemma_flat_from(buffers, from + 1, piece, idx);
    }
}

} // verus!
