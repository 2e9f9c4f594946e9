//! A non-owning cursor over a byte region, with sequential and random-access
//! decoding of fixed-width integers in both byte orders.

use vstd::prelude::*;
use vstd::slice::slice_subrange;

verus! {

/// `256` raised to the power `n`.
pub open spec fn pow256(n: nat) -> nat
    decreases n,
{
    if n == 0 {
        1
    } else {
        256 * pow256((n - 1) as nat)
    }
}

/// The number that `s` spells with its most significant byte first.
pub open spec fn be_nat(s: Seq<u8>) -> nat
    decreases s.len(),
{
    if s.len() == 0 {
        0
    } else {
        be_nat(s.drop_last()) * 256 + s.last() as nat
    }
}

/// The number that `s` spells with its least significant byte first.
pub open spec fn le_nat(s: Seq<u8>) -> nat
    decreases s.len(),
{
    if s.len() == 0 {
        0
    } else {
        s[0] as nat + 256 * le_nat(s.skip(1))
    }
}

/// The signed reading of `v` in two's complement, where `half` is two to the
/// power of the width in bits less one: the first number that reads as
/// negative.
pub open spec fn twos_complement(v: nat, half: nat) -> int {
    if v < half {
        v as int
    } else {
        v - 2 * half
    }
}

/// `pow256` is at least one and grows with its argument.
pub proof fn lemma_pow256_monotonic(a: nat, b: nat)
    requires
        a <= b,
    ensures
        1 <= pow256(a) <= pow256(b),
    decreases b,
{
    if b == 0 {
    } else if a == b {
        lemma_pow256_monotonic((a - 1) as nat, (b - 1) as nat);
    } else {
        lemma_pow256_monotonic(a, (b - 1) as nat);
    }
}

/// `256^16` is `2^128`, and the smaller widths that the readers use.
pub proof fn lemma_pow256_values()
    ensures
        pow256(1) == 0x100,
        pow256(2) == 0x1_0000,
        pow256(4) == 0x1_0000_0000,
        pow256(8) == 0x1_0000_0000_0000_0000,
        pow256(16) == 0x1_0000_0000_0000_0000_0000_0000_0000_0000,
{
    reveal_with_fuel(pow256, 17);
}

/// A little-endian number of `n` bytes is below `256^n`.
pub proof fn lemma_le_nat_bound(s: Seq<u8>)
    ensures
        le_nat(s) < pow256(s.len()),
    decreases s.len(),
{
    if s.len() > 0 {
        lemma_le_nat_bound(s.skip(1));
    }
}

/// Cursor arithmetic: over a view whose cursors are in order, a sequential
/// read of `k` bytes moves the reader cursor up by `k`, takes `k` from what
/// remains, and leaves the cursors in order.
pub proof fn lemma_read_moves_cursor(prev: BufView, next: BufView, k: int)
    requires
        prev.inv(),
        0 <= k <= prev.remaining_len(),
        next.advanced(&prev, k),
    ensures
        next.inv(),
        next.reader() == prev.reader() + k,
        next.remaining_len() == prev.remaining_len() - k,
        next.filled() == prev.filled(),
{
}

/// Decodes `width` bytes of `buf` from `start`, most significant byte first.
fn decode_be(buf: &[u8], start: usize, width: usize) -> (r: u128)
    requires
        width <= 16,
        start + width <= buf@.len(),
    ensures
        r as nat == be_nat(buf@.subrange(start as int, start + width)),
        (r as nat) < pow256(width as nat),
{
    let len = buf.len();
    let mut acc: u128 = 0;
    let mut i: usize = 0;
    while i < width
        invariant
            i <= width <= 16,
            start + width <= len == buf@.len(),
            acc as nat == be_nat(buf@.subrange(start as int, start + i)),
            (acc as nat) < pow256(i as nat),
        decreases width - i,
    {
        proof {
            lemma_pow256_monotonic((i + 1) as nat, 16);
            lemma_pow256_values();
            let s = buf@.subrange(start as int, start + i + 1);
            assert(s.drop_last() =~= buf@.subrange(start as int, start + i));
        }
        acc = acc * 256 + buf[start + i] as u128;
        i = i + 1;
    }
    acc
}

/// Decodes `width` bytes of `buf` from `start`, least significant byte first.
fn decode_le(buf: &[u8], start: usize, width: usize) -> (r: u128)
    requires
        width <= 16,
        start + width <= buf@.len(),
    ensures
        r as nat == le_nat(buf@.subrange(start as int, start + width)),
        (r as nat) < pow256(width as nat),
{
    let len = buf.len();
    let mut acc: u128 = 0;
    let mut i: usize = width;
    while i > 0
        invariant
            i <= width <= 16,
            start + width <= len == buf@.len(),
            acc as nat == le_nat(buf@.subrange(start + i, start + width)),
            (acc as nat) < pow256((width - i) as nat),
        decreases i,
    {
        proof {
            lemma_pow256_monotonic((width - i + 1) as nat, 16);
            lemma_pow256_values();
            let s = buf@.subrange(start + i - 1, start + width);
            assert(s.skip(1) =~= buf@.subrange(start + i, start + width));
        }
        i = i - 1;
        acc = acc * 256 + buf[start + i] as u128;
    }
    acc
}

/// A read-only cursor over borrowed bytes: the region itself and two offsets
/// into it, the next byte to decode and the end of what is valid.
pub struct BufView<'a> {
    buf: &'a [u8],
    reader_index: usize,
    writer_index: usize,
}

impl<'a> BufView<'a> {
    /// The whole underlying region.
    pub closed spec fn buffer(&self) -> Seq<u8> {
        self.buf@
    }

    /// The offset of the next byte that a sequential read decodes.
    pub closed spec fn reader(&self) -> int {
        self.reader_index as int
    }

    /// The offset just past the last valid byte.
    pub closed spec fn writer(&self) -> int {
        self.writer_index as int
    }

    /// The cursors are ordered and lie inside the region.
    pub open spec fn inv(&self) -> bool {
        0 <= self.reader() <= self.writer() <= self.buffer().len()
    }

    /// The `width` bytes of the region that start at `index`.
    pub open spec fn field(&self, index: int, width: int) -> Seq<u8> {
        self.buffer().subrange(index, index + width)
    }

    /// The bytes between the two cursors.
    pub open spec fn readable(&self) -> Seq<u8> {
        self.buffer().subrange(self.reader(), self.writer())
    }

    /// The region up to the writer cursor: what sequential reads may reach.
    pub open spec fn filled(&self) -> Seq<u8> {
        self.buffer().take(self.writer())
    }

    /// The number of bytes between the two cursors.
    pub open spec fn remaining_len(&self) -> int {
        self.writer() - self.reader()
    }

    /// `self` is `prev` after a sequential read of `k` bytes.
    pub open spec fn advanced(&self, prev: &Self, k: int) -> bool {
        &&& self.buffer() == prev.buffer()
        &&& self.writer() == prev.writer()
        &&& self.reader() == prev.reader() + k
    }

    /// A view in which the whole of `buf` is readable.
    pub fn wrap(buf: &'a [u8]) -> (r: Self)
        ensures
            r.inv(),
            r.buffer() == buf@,
            r.reader() == 0,
            r.writer() == buf@.len(),
    {
        let len = buf.len();
        BufView::wrap_with(buf, 0, len)
    }

    /// A view of `buf` with the given cursors.
    pub fn wrap_with(buf: &'a [u8], reader_index: usize, writer_index: usize) -> (r: Self)
        requires
            reader_index <= writer_index <= buf@.len(),
        ensures
            r.inv(),
            r.buffer() == buf@,
            r.reader() == reader_index,
            r.writer() == writer_index,
    {
        BufView { buf, reader_index, writer_index }
    }

    /// Reads the byte at the reader cursor and steps over it.
    pub fn read_u8(&mut self) -> (r: u8)
        requires
            old(self).inv(),
            old(self).remaining_len() >= 1,
        ensures
            final(self).inv(),
            final(self).advanced(old(self), 1),
            r == old(self).buffer()[old(self).reader()],
    {
        let val = self.buf[self.reader_index];
        self.reader_index += 1;
        val
    }

    /// Reads the byte at the reader cursor as a signed number and steps over it.
    pub fn read_i8(&mut self) -> (r: i8)
        requires
            old(self).inv(),
            old(self).remaining_len() >= 1,
        ensures
            final(self).inv(),
            final(self).advanced(old(self), 1),
            r as int == twos_complement(old(self).buffer()[old(self).reader()] as nat, 0x80),
    {
        let v = self.read_u8();
        if v < 0x80 {
            v as i8
        } else {
            (v - 0x80) as i8 + i8::MIN
        }
    }

    /// Reads a big-endian `u16` at the reader cursor and steps over it.
    pub fn read_u16(&mut self) -> (r: u16)
        requires
            old(self).inv(),
            old(self).remaining_len() >= 2,
        ensures
            final(self).inv(),
            final(self).advanced(old(self), 2),
            r as nat == be_nat(old(self).field(old(self).reader(), 2)),
    {
        proof {
            lemma_pow256_values();
        }
        let v = decode_be(self.buf, self.reader_index, 2) as u16;
        self.reader_index += 2;
        v
    }

    /// Reads a little-endian `u16` at the reader cursor and steps over it.
    pub fn read_u16_le(&mut self) -> (r: u16)
        requires
            old(self).inv(),
            old(self).remaining_len() >= 2,
        ensures
            final(self).inv(),
            final(self).advanced(old(self), 2),
            r as nat == le_nat(old(self).field(old(self).reader(), 2)),
    {
        proof {
            lemma_pow256_values();
        }
        let v = decode_le(self.buf, self.reader_index, 2) as u16;
        self.reader_index += 2;
        v
    }

    /// Reads a big-endian `i16` at the reader cursor and steps over it.
    pub fn read_i16(&mut self) -> (r: i16)
        requires
            old(self).inv(),
            old(self).remaining_len() >= 2,
        ensures
            final(self).inv(),
            final(self).advanced(old(self), 2),
            r as int == twos_complement(be_nat(old(self).field(old(self).reader(), 2)), 0x8000),
    {
        proof {
            lemma_pow256_values();
        }
        let v = decode_be(self.buf, self.reader_index, 2) as u16;
        self.reader_index += 2;
        if v < 0x8000 {
            v as i16
        } else {
            (v - 0x8000) as i16 + i16::MIN
        }
    }

    /// Reads a little-endian `i16` at the reader cursor and steps over it.
    pub fn read_i16_le(&mut self) -> (r: i16)
        requires
            old(self).inv(),
            old(self).remaining_len() >= 2,
        ensures
            final(self).inv(),
            final(self).advanced(old(self), 2),
            r as int == twos_complement(le_nat(old(self).field(old(self).reader(), 2)), 0x8000),
    {
        proof {
            lemma_pow256_values();
        }
        let v = decode_le(self.buf, self.reader_index, 2) as u16;
        self.reader_index += 2;
        if v < 0x8000 {
            v as i16
        } else {
            (v - 0x8000) as i16 + i16::MIN
        }
    }

    /// Reads a big-endian `u32` at the reader cursor and steps over it.
    pub fn read_u32(&mut self) -> (r: u32)
        requires
            old(self).inv(),
            old(self).remaining_len() >= 4,
        ensures
            final(self).inv(),
            final(self).advanced(old(self), 4),
            r as nat == be_nat(old(self).field(old(self).reader(), 4)),
    {
        proof {
            lemma_pow256_values();
        }
        let v = decode_be(self.buf, self.reader_index, 4) as u32;
        self.reader_index += 4;
        v
    }

    /// Reads a little-endian `u32` at the reader cursor and steps over it.
    pub fn read_u32_le(&mut self) -> (r: u32)
        requires
            old(self).inv(),
            old(self).remaining_len() >= 4,
        ensures
            final(self).inv(),
            final(self).advanced(old(self), 4),
            r as nat == le_nat(old(self).field(old(self).reader(), 4)),
    {
        proof {
            lemma_pow256_values();
        }
        let v = decode_le(self.buf, self.reader_index, 4) as u32;
        self.reader_index += 4;
        v
    }

    /// Reads a big-endian `i32` at the reader cursor and steps over it.
    pub fn read_i32(&mut self) -> (r: i32)
        requires
            old(self).inv(),
            old(self).remaining_len() >= 4,
        ensures
            final(self).inv(),
            final(self).advanced(old(self), 4),
            r as int == twos_complement(be_nat(old(self).field(old(self).reader(), 4)), 0x8000_0000),
    {
        proof {
            lemma_pow256_values();
        }
        let v = decode_be(self.buf, self.reader_index, 4) as u32;
        self.reader_index += 4;
        if v < 0x8000_0000 {
            v as i32
        } else {
            (v - 0x8000_0000) as i32 + i32::MIN
        }
    }

    /// Reads a little-endian `i32` at the reader cursor and steps over it.
    pub fn read_i32_le(&mut self) -> (r: i32)
        requires
            old(self).inv(),
            old(self).remaining_len() >= 4,
        ensures
            final(self).inv(),
            final(self).advanced(old(self), 4),
            r as int == twos_complement(le_nat(old(self).field(old(self).reader(), 4)), 0x8000_0000),
    {
        proof {
            lemma_pow256_values();
        }
        let v = decode_le(self.buf, self.reader_index, 4) as u32;
        self.reader_index += 4;
        if v < 0x8000_0000 {
            v as i32
        } else {
            (v - 0x8000_0000) as i32 + i32::MIN
        }
    }

    /// Reads a big-endian `u64` at the reader cursor and steps over it.
    pub fn read_u64(&mut self) -> (r: u64)
        requires
            old(self).inv(),
            old(self).remaining_len() >= 8,
        ensures
            final(self).inv(),
            final(self).advanced(old(self), 8),
            r as nat == be_nat(old(self).field(old(self).reader(), 8)),
    {
        proof {
            lemma_pow256_values();
        }
        let v = decode_be(self.buf, self.reader_index, 8) as u64;
        self.reader_index += 8;
        v
    }

    /// Reads a little-endian `u64` at the reader cursor and steps over it.
    pub fn read_u64_le(&mut self) -> (r: u64)
        requires
            old(self).inv(),
            old(self).remaining_len() >= 8,
        ensures
            final(self).inv(),
            final(self).advanced(old(self), 8),
            r as nat == le_nat(old(self).field(old(self).reader(), 8)),
    {
        proof {
            lemma_pow256_values();
        }
        let v = decode_le(self.buf, self.reader_index, 8) as u64;
        self.reader_index += 8;
        v
    }

    /// Reads a big-endian `i64` at the reader cursor and steps over it.
    pub fn read_i64(&mut self) -> (r: i64)
        requires
            old(self).inv(),
            old(self).remaining_len() >= 8,
        ensures
            final(self).inv(),
            final(self).advanced(old(self), 8),
            r as int == twos_complement(be_nat(old(self).field(old(self).reader(), 8)), 0x8000_0000_0000_0000),
    {
        proof {
            lemma_pow256_values();
        }
        let v = decode_be(self.buf, self.reader_index, 8) as u64;
        self.reader_index += 8;
        if v < 0x8000_0000_0000_0000 {
            v as i64
        } else {
            (v - 0x8000_0000_0000_0000) as i64 + i64::MIN
        }
    }

    /// Reads a little-endian `i64` at the reader cursor and steps over it.
    pub fn read_i64_le(&mut self) -> (r: i64)
        requires
            old(self).inv(),
            old(self).remaining_len() >= 8,
        ensures
            final(self).inv(),
            final(self).advanced(old(self), 8),
            r as int == twos_complement(le_nat(old(self).field(old(self).reader(), 8)), 0x8000_0000_0000_0000),
    {
        proof {
            lemma_pow256_values();
        }
        let v = decode_le(self.buf, self.reader_index, 8) as u64;
        self.reader_index += 8;
        if v < 0x8000_0000_0000_0000 {
            v as i64
        } else {
            (v - 0x8000_0000_0000_0000) as i64 + i64::MIN
        }
    }

    /// Reads a big-endian `u128` at the reader cursor and steps over it.
    pub fn read_u128(&mut self) -> (r: u128)
        requires
            old(self).inv(),
            old(self).remaining_len() >= 16,
        ensures
            final(self).inv(),
            final(self).advanced(old(self), 16),
            r as nat == be_nat(old(self).field(old(self).reader(), 16)),
    {
        proof {
            lemma_pow256_values();
        }
        let v = decode_be(self.buf, self.reader_index, 16);
        self.reader_index += 16;
        v
    }

    /// Reads a little-endian `u128` at the reader cursor and steps over it.
    pub fn read_u128_le(&mut self) -> (r: u128)
        requires
            old(self).inv(),
            old(self).remaining_len() >= 16,
        ensures
            final(self).inv(),
            final(self).advanced(old(self), 16),
            r as nat == le_nat(old(self).field(old(self).reader(), 16)),
    {
        proof {
            lemma_pow256_values();
        }
        let v = decode_le(self.buf, self.reader_index, 16);
        self.reader_index += 16;
        v
    }

    /// Reads a big-endian `i128` at the reader cursor and steps over it.
    pub fn read_i128(&mut self) -> (r: i128)
        requires
            old(self).inv(),
            old(self).remaining_len() >= 16,
        ensures
            final(self).inv(),
            final(self).advanced(old(self), 16),
            r as int == twos_complement(be_nat(old(self).field(old(self).reader(), 16)), 0x8000_0000_0000_0000_0000_0000_0000_0000),
    {
        proof {
            lemma_pow256_values();
        }
        let v = decode_be(self.buf, self.reader_index, 16);
        self.reader_index += 16;
        if v < 0x8000_0000_0000_0000_0000_0000_0000_0000 {
            v as i128
        } else {
            (v - 0x8000_0000_0000_0000_0000_0000_0000_0000) as i128 + i128::MIN
        }
    }

    /// Reads a little-endian `i128` at the reader cursor and steps over it.
    pub fn read_i128_le(&mut self) -> (r: i128)
        requires
            old(self).inv(),
            old(self).remaining_len() >= 16,
        ensures
            final(self).inv(),
            final(self).advanced(old(self), 16),
            r as int == twos_complement(le_nat(old(self).field(old(self).reader(), 16)), 0x8000_0000_0000_0000_0000_0000_0000_0000),
    {
        proof {
            lemma_pow256_values();
        }
        let v = decode_le(self.buf, self.reader_index, 16);
        self.reader_index += 16;
        if v < 0x8000_0000_0000_0000_0000_0000_0000_0000 {
            v as i128
        } else {
            (v - 0x8000_0000_0000_0000_0000_0000_0000_0000) as i128 + i128::MIN
        }
    }

    /// Copies as many bytes as both `dest` and the readable region hold, from
    /// the reader cursor to the front of `dest`, and steps over them.
    pub fn read_bytes(&mut self, dest: &mut [u8]) -> (n: usize)
        requires
            old(self).inv(),
        ensures
            final(self).inv(),
            n as int == if old(dest)@.len() < old(self).remaining_len() {
                old(dest)@.len() as int
            } else {
                old(self).remaining_len()
            },
            final(self).advanced(old(self), n as int),
            final(dest)@ == old(self).field(old(self).reader(), n as int) + old(dest)@.skip(n as int),
    {
        let left = self.writer_index - self.reader_index;
        let copy_len = if dest.len() < left { dest.len() } else { left };
        let mut i: usize = 0;
        while i < copy_len
            invariant
                i <= copy_len,
                copy_len <= dest@.len(),
                dest@.len() == old(dest)@.len(),
                self.reader_index + copy_len <= self.writer_index <= self.buf@.len(),
                *self == *old(self),
                dest@ == old(self).field(old(self).reader(), i as int) + old(dest)@.skip(i as int),
            decreases copy_len - i,
        {
            dest[i] = self.buf[self.reader_index + i];
            i += 1;
            assert(dest@ =~= old(self).field(old(self).reader(), i as int) + old(dest)@.skip(i as int));
        }
        self.reader_index += copy_len;
        copy_len
    }

    /// The byte at `index`; the cursors stay.
    pub fn get_u8(&mut self, index: usize) -> (r: u8)
        requires
            index < old(self).buffer().len(),
        ensures
            *final(self) == *old(self),
            r == old(self).buffer()[index as int],
    {
        self.buf[index]
    }

    /// The byte at `index` as a signed number; the cursors stay.
    pub fn get_i8(&mut self, index: usize) -> (r: i8)
        requires
            index < old(self).buffer().len(),
        ensures
            *final(self) == *old(self),
            r as int == twos_complement(old(self).buffer()[index as int] as nat, 0x80),
    {
        let v = self.get_u8(index);
        if v < 0x80 {
            v as i8
        } else {
            (v - 0x80) as i8 + i8::MIN
        }
    }

    /// The big-endian `u16` at `index`; the cursors stay.
    pub fn get_u16(&mut self, index: usize) -> (r: u16)
        requires
            index + 2 <= old(self).buffer().len(),
        ensures
            *final(self) == *old(self),
            r as nat == be_nat(old(self).field(index as int, 2)),
    {
        proof {
            lemma_pow256_values();
        }
        let v = decode_be(self.buf, index, 2) as u16;
        v
    }

    /// The little-endian `u16` at `index`; the cursors stay.
    pub fn get_u16_le(&mut self, index: usize) -> (r: u16)
        requires
            index + 2 <= old(self).buffer().len(),
        ensures
            *final(self) == *old(self),
            r as nat == le_nat(old(self).field(index as int, 2)),
    {
        proof {
            lemma_pow256_values();
        }
        let v = decode_le(self.buf, index, 2) as u16;
        v
    }

    /// The big-endian `i16` at `index`; the cursors stay.
    pub fn get_i16(&mut self, index: usize) -> (r: i16)
        requires
            index + 2 <= old(self).buffer().len(),
        ensures
            *final(self) == *old(self),
            r as int == twos_complement(be_nat(old(self).field(index as int, 2)), 0x8000),
    {
        proof {
            lemma_pow256_values();
        }
        let v = decode_be(self.buf, index, 2) as u16;
        if v < 0x8000 {
            v as i16
        } else {
            (v - 0x8000) as i16 + i16::MIN
        }
    }

    /// The little-endian `i16` at `index`; the cursors stay.
    pub fn get_i16_le(&mut self, index: usize) -> (r: i16)
        requires
            index + 2 <= old(self).buffer().len(),
        ensures
            *final(self) == *old(self),
            r as int == twos_complement(le_nat(old(self).field(index as int, 2)), 0x8000),
    {
        proof {
            lemma_pow256_values();
        }
        let v = decode_le(self.buf, index, 2) as u16;
        if v < 0x8000 {
            v as i16
        } else {
            (v - 0x8000) as i16 + i16::MIN
        }
    }

    /// The big-endian `u32` at `index`; the cursors stay.
    pub fn get_u32(&mut self, index: usize) -> (r: u32)
        requires
            index + 4 <= old(self).buffer().len(),
        ensures
            *final(self) == *old(self),
            r as nat == be_nat(old(self).field(index as int, 4)),
    {
        proof {
            lemma_pow256_values();
        }
        let v = decode_be(self.buf, index, 4) as u32;
        v
    }

    /// The little-endian `u32` at `index`; the cursors stay.
    pub fn get_u32_le(&mut self, index: usize) -> (r: u32)
        requires
            index + 4 <= old(self).buffer().len(),
        ensures
            *final(self) == *old(self),
            r as nat == le_nat(old(self).field(index as int, 4)),
    {
        proof {
            lemma_pow256_values();
        }
        let v = decode_le(self.buf, index, 4) as u32;
        v
    }

    /// The big-endian `i32` at `index`; the cursors stay.
    pub fn get_i32(&mut self, index: usize) -> (r: i32)
        requires
            index + 4 <= old(self).buffer().len(),
        ensures
            *final(self) == *old(self),
            r as int == twos_complement(be_nat(old(self).field(index as int, 4)), 0x8000_0000),
    {
        proof {
            lemma_pow256_values();
        }
        let v = decode_be(self.buf, index, 4) as u32;
        if v < 0x8000_0000 {
            v as i32
        } else {
            (v - 0x8000_0000) as i32 + i32::MIN
        }
    }

    /// The little-endian `i32` at `index`; the cursors stay.
    pub fn get_i32_le(&mut self, index: usize) -> (r: i32)
        requires
            index + 4 <= old(self).buffer().len(),
        ensures
            *final(self) == *old(self),
            r as int == twos_complement(le_nat(old(self).field(index as int, 4)), 0x8000_0000),
    {
        proof {
            lemma_pow256_values();
        }
        let v = decode_le(self.buf, index, 4) as u32;
        if v < 0x8000_0000 {
            v as i32
        } else {
            (v - 0x8000_0000) as i32 + i32::MIN
        }
    }

    /// The big-endian `u64` at `index`; the cursors stay.
    pub fn get_u64(&mut self, index: usize) -> (r: u64)
        requires
            index + 8 <= old(self).buffer().len(),
        ensures
            *final(self) == *old(self),
            r as nat == be_nat(old(self).field(index as int, 8)),
    {
        proof {
            lemma_pow256_values();
        }
        let v = decode_be(self.buf, index, 8) as u64;
        v
    }

    /// The little-endian `u64` at `index`; the cursors stay.
    pub fn get_u64_le(&mut self, index: usize) -> (r: u64)
        requires
            index + 8 <= old(self).buffer().len(),
        ensures
            *final(self) == *old(self),
            r as nat == le_nat(old(self).field(index as int, 8)),
    {
        proof {
            lemma_pow256_values();
        }
        let v = decode_le(self.buf, index, 8) as u64;
        v
    }

    /// The big-endian `i64` at `index`; the cursors stay.
    pub fn get_i64(&mut self, index: usize) -> (r: i64)
        requires
            index + 8 <= old(self).buffer().len(),
        ensures
            *final(self) == *old(self),
            r as int == twos_complement(be_nat(old(self).field(index as int, 8)), 0x8000_0000_0000_0000),
    {
        proof {
            lemma_pow256_values();
        }
        let v = decode_be(self.buf, index, 8) as u64;
        if v < 0x8000_0000_0000_0000 {
            v as i64
        } else {
            (v - 0x8000_0000_0000_0000) as i64 + i64::MIN
        }
    }

    /// The little-endian `i64` at `index`; the cursors stay.
    pub fn get_i64_le(&mut self, index: usize) -> (r: i64)
        requires
            index + 8 <= old(self).buffer().len(),
        ensures
            *final(self) == *old(self),
            r as int == twos_complement(le_nat(old(self).field(index as int, 8)), 0x8000_0000_0000_0000),
    {
        proof {
            lemma_pow256_values();
        }
        let v = decode_le(self.buf, index, 8) as u64;
        if v < 0x8000_0000_0000_0000 {
            v as i64
        } else {
            (v - 0x8000_0000_0000_0000) as i64 + i64::MIN
        }
    }

    /// The big-endian `u128` at `index`; the cursors stay.
    pub fn get_u128(&mut self, index: usize) -> (r: u128)
        requires
            index + 16 <= old(self).buffer().len(),
        ensures
            *final(self) == *old(self),
            r as nat == be_nat(old(self).field(index as int, 16)),
    {
        proof {
            lemma_pow256_values();
        }
        let v = decode_be(self.buf, index, 16);
        v
    }

    /// The little-endian `u128` at `index`; the cursors stay.
    pub fn get_u128_le(&mut self, index: usize) -> (r: u128)
        requires
            index + 16 <= old(self).buffer().len(),
        ensures
            *final(self) == *old(self),
            r as nat == le_nat(old(self).field(index as int, 16)),
    {
        proof {
            lemma_pow256_values();
        }
        let v = decode_le(self.buf, index, 16);
        v
    }

    /// The big-endian `i128` at `index`; the cursors stay.
    pub fn get_i128(&mut self, index: usize) -> (r: i128)
        requires
            index + 16 <= old(self).buffer().len(),
        ensures
            *final(self) == *old(self),
            r as int == twos_complement(be_nat(old(self).field(index as int, 16)), 0x8000_0000_0000_0000_0000_0000_0000_0000),
    {
        proof {
            lemma_pow256_values();
        }
        let v = decode_be(self.buf, index, 16);
        if v < 0x8000_0000_0000_0000_0000_0000_0000_0000 {
            v as i128
        } else {
            (v - 0x8000_0000_0000_0000_0000_0000_0000_0000) as i128 + i128::MIN
        }
    }

    /// The little-endian `i128` at `index`; the cursors stay.
    pub fn get_i128_le(&mut self, index: usize) -> (r: i128)
        requires
            index + 16 <= old(self).buffer().len(),
        ensures
            *final(self) == *old(self),
            r as int == twos_complement(le_nat(old(self).field(index as int, 16)), 0x8000_0000_0000_0000_0000_0000_0000_0000),
    {
        proof {
            lemma_pow256_values();
        }
        let v = decode_le(self.buf, index, 16);
        if v < 0x8000_0000_0000_0000_0000_0000_0000_0000 {
            v as i128
        } else {
            (v - 0x8000_0000_0000_0000_0000_0000_0000_0000) as i128 + i128::MIN
        }
    }

    /// Copies as many bytes as both `dest` and the region from `index` hold to
    /// the front of `dest`; the cursors stay.
    pub fn get_bytes(&mut self, index: usize, dest: &mut [u8]) -> (n: usize)
        requires
            index <= old(self).buffer().len(),
        ensures
            *final(self) == *old(self),
            n as int == if index + old(dest)@.len() <= old(self).buffer().len() {
                old(dest)@.len() as int
            } else {
                old(self).buffer().len() - index
            },
            final(dest)@ == old(self).field(index as int, n as int) + old(dest)@.skip(n as int),
    {
        let len = self.buf.len();
        let avail = len - index;
        let copy_len = if dest.len() <= avail { dest.len() } else { avail };
        let mut i: usize = 0;
        while i < copy_len
            invariant
                i <= copy_len,
                copy_len <= dest@.len(),
                dest@.len() == old(dest)@.len(),
                index + copy_len <= len == self.buf@.len(),
                *self == *old(self),
                dest@ == old(self).field(index as int, i as int) + old(dest)@.skip(i as int),
            decreases copy_len - i,
        {
            dest[i] = self.buf[index + i];
            i += 1;
            assert(dest@ =~= old(self).field(index as int, i as int) + old(dest)@.skip(i as int));
        }
        copy_len
    }

    /// Moves the reader cursor to `index`.
    pub fn set_reader_index(&mut self, index: usize)
        requires
            old(self).inv(),
            index <= old(self).writer(),
        ensures
            final(self).inv(),
            final(self).buffer() == old(self).buffer(),
            final(self).reader() == index,
            final(self).writer() == old(self).writer(),
    {
        self.reader_index = index;
    }

    /// The offset of the next byte that a sequential read decodes.
    pub fn reader_index(&self) -> (r: usize)
        ensures
            r == self.reader(),
    {
        self.reader_index
    }

    /// Moves the writer cursor to `index`.
    pub fn set_writer_index(&mut self, index: usize)
        requires
            old(self).inv(),
            old(self).reader() <= index <= old(self).buffer().len(),
        ensures
            final(self).inv(),
            final(self).buffer() == old(self).buffer(),
            final(self).reader() == old(self).reader(),
            final(self).writer() == index,
    {
        self.writer_index = index;
    }

    /// The offset just past the last valid byte.
    pub fn writer_index(&self) -> (r: usize)
        ensures
            r == self.writer(),
    {
        self.writer_index
    }

    /// Moves both cursors.
    pub fn set_index(&mut self, reader_index: usize, writer_index: usize)
        requires
            reader_index <= writer_index <= old(self).buffer().len(),
        ensures
            final(self).inv(),
            final(self).buffer() == old(self).buffer(),
            final(self).reader() == reader_index,
            final(self).writer() == writer_index,
    {
        self.reader_index = reader_index;
        self.writer_index = writer_index;
    }

    /// Moves both cursors to the start: nothing is readable afterwards.
    pub fn clear(&mut self)
        ensures
            final(self).inv(),
            final(self).buffer() == old(self).buffer(),
            final(self).reader() == 0,
            final(self).writer() == 0,
    {
        self.reader_index = 0;
        self.writer_index = 0;
    }

    /// The number of bytes between the two cursors.
    pub fn remaining(&self) -> (r: usize)
        requires
            self.inv(),
        ensures
            r == self.remaining_len(),
    {
        self.writer_index - self.reader_index
    }

    /// The length of the whole region.
    pub fn capacity(&self) -> (r: usize)
        ensures
            r == self.buffer().len(),
    {
        self.buf.len()
    }

    /// The bytes between the two cursors.
    pub fn as_slice(&mut self) -> (r: &'a [u8])
        requires
            old(self).inv(),
        ensures
            *final(self) == *old(self),
            r@ == old(self).readable(),
    {
        slice_subrange(self.buf, self.reader_index, self.writer_index)
    }

    /// The whole region, whatever the cursors say.
    pub fn as_raw_slice(&mut self) -> (r: &'a [u8])
        ensures
            *final(self) == *old(self),
            r@ == old(self).buffer(),
    {
        self.buf
    }
}

} // verus!
