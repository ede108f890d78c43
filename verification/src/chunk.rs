//! Splitting a field's bit range into per-byte chunks.
//!
//! A field of `width` bits that starts at container bit `start` touches the
//! bytes `start / 8 ..= (start + width - 1) / 8`. In byte `i` it occupies the
//! offsets `field_lo(start, i) .. field_hi(start, width, i)`, counted from the
//! byte's least-significant bit; those offsets are the chunk of byte `i`.

use vstd::prelude::*;

verus! {

/// One byte's share of a field.
#[derive(Clone, Copy, Debug, PartialEq, Eq, Structural)]
pub struct Chunk {
    /// The byte of the container that the chunk lies in.
    pub byte_idx: usize,
    /// The chunk's lowest offset in that byte, `0..=7`.
    pub bit_off: u8,
    /// The number of bits in the chunk, `1..=8`.
    pub take: u8,
    /// The position in the field's value of the chunk's lowest bit.
    pub src_shift: u16,
}

/// The lowest offset in byte `i` of a field that starts at bit `start`.
pub open spec fn field_lo(start: int, i: int) -> int {
    if 8 * i < start {
        start - 8 * i
    } else {
        0
    }
}

/// One past the highest offset in byte `i` of a field of `width` bits that
/// starts at bit `start`.
pub open spec fn field_hi(start: int, width: int, i: int) -> int {
    if start + width < 8 * i + 8 {
        start + width - 8 * i
    } else {
        8
    }
}

/// Whether a field of `width` bits that starts at bit `start` has a bit in
/// byte `i`.
pub open spec fn touches(start: int, width: int, i: int) -> bool {
    width > 0 && start < 8 * i + 8 && 8 * i < start + width
}

/// The number of bytes that a field touches.
pub open spec fn chunk_count(width: int, start: int) -> int {
    if width <= 0 {
        0
    } else {
        (start + width - 1) / 8 - start / 8 + 1
    }
}

/// The `n`-th chunk of a field, counted from the field's lowest bits.
pub open spec fn chunk_at(width: int, start: int, n: int) -> Chunk {
    let i = start / 8 + n;
    let lo = field_lo(start, i);
    Chunk {
        byte_idx: i as usize,
        bit_off: lo as u8,
        take: (field_hi(start, width, i) - lo) as u8,
        src_shift: (8 * i + lo - start) as u16,
    }
}

/// The chunks of a field, lowest bits first.
pub open spec fn spec_chunks(width: int, start: int) -> Seq<Chunk> {
    Seq::new(chunk_count(width, start) as nat, |n: int| chunk_at(width, start, n))
}

impl Chunk {
    /// Splits the bit range `start_bit .. start_bit + width` into one chunk
    /// for each byte it touches, lowest bits first. Each step takes what is
    /// left of the current byte or what is left of the field, whichever is
    /// less.
    pub fn for_field(width: u16, start_bit: usize) -> (v: Vec<Chunk>)
        requires
            start_bit + width <= usize::MAX,
        ensures
            v@ == spec_chunks(width as int, start_bit as int),
    {
        let mut v: Vec<Chunk> = Vec::new();
        let mut left: u16 = width;
        let mut pos: usize = start_bit;
        let mut shift: u16 = 0u16;
        while left > 0
            invariant
                start_bit + width <= usize::MAX,
                shift + left == width,
                pos == start_bit + shift,
                left > 0 ==> pos / 8 == start_bit / 8 + v.len(),
                left > 0 && v.len() > 0 ==> pos % 8 == 0,
                v.len() == 0 ==> shift == 0,
                left == 0 ==> v.len() == chunk_count(width as int, start_bit as int),
                v.len() <= chunk_count(width as int, start_bit as int),
                forall|n: int| 0 <= n < v.len() ==> v[n] == chunk_at(width as int, start_bit as int, n),
            decreases left,
        {
            let off: u8 = (pos % 8) as u8;
            let room: u16 = 8 - off as u16;
            let take: u8 = if room < left {
                room as u8
            } else {
                left as u8
            };
            let ghost before = v@;
            v.push(Chunk { byte_idx: pos / 8, bit_off: off, take, src_shift: shift });
            assert(v[v.len() - 1] == chunk_at(width as int, start_bit as int, v.len() - 1));
            assert(forall|n: int| 0 <= n < v.len() - 1 ==> v[n] == before[n]);
            pos += take as usize;
            left -= take as u16;
            shift += take as u16;
        }
        assert(v@ =~= spec_chunks(width as int, start_bit as int));
        v
    }
}

/// The chunks of the bit range `start_bit .. start_bit + width`, lowest bits
/// first.
pub fn chunks(width: u16, start_bit: usize) -> (v: Vec<Chunk>)
    requires
        start_bit + width <= usize::MAX,
    ensures
        v@ == spec_chunks(width as int, start_bit as int),
{
    Chunk::for_field(width, start_bit)
}

/// Each chunk lies inside one byte, holds at least one bit, and starts in
/// the container where its share of the value starts.
pub proof fn lemma_chunk_shape(width: int, start: int, n: int)
    requires
        0 <= start,
        0 < width <= 0xffff,
        start + width <= usize::MAX,
        0 <= n < chunk_count(width, start),
    ensures
        ({
            let c = chunk_at(width, start, n);
            &&& c.byte_idx == start / 8 + n
            &&& 1 <= c.take
            &&& c.bit_off + c.take <= 8
            &&& 8 * c.byte_idx + c.bit_off == start + c.src_shift
            &&& c.src_shift + c.take <= width
            &&& c.bit_off == field_lo(start, start / 8 + n)
            &&& c.bit_off + c.take == field_hi(start, width, start / 8 + n)
            &&& touches(start, width, start / 8 + n)
        }),
{
}

/// The chunks follow one another: the first starts at bit 0 of the value,
/// each next one starts where the one before it ends and lies in the next
/// byte, and the last one ends at the field's width.
pub proof fn lemma_chunks_are_consecutive(width: int, start: int, n: int)
    requires
        0 <= start,
        0 < width <= 0xffff,
        start + width <= usize::MAX,
        0 <= n < chunk_count(width, start),
    ensures
        chunk_at(width, start, 0).src_shift == 0,
        n + 1 < chunk_count(width, start) ==> {
            &&& chunk_at(width, start, n + 1).src_shift == chunk_at(width, start, n).src_shift + chunk_at(width, start, n).take
            &&& chunk_at(width, start, n + 1).byte_idx == chunk_at(width, start, n).byte_idx + 1
        },
        n + 1 == chunk_count(width, start) ==> chunk_at(width, start, n).src_shift + chunk_at(width, start, n).take == width,
{
    lemma_chunk_shape(width, start, n);
    lemma_chunk_shape(width, start, 0);
    if n + 1 < chunk_count(width, start) {
        lemma_chunk_shape(width, start, n + 1);
    }
}

/// Every bit of the value lies in exactly one chunk: the chunk of the byte
/// that the bit falls in.
pub proof fn law_chunks_cover(width: int, start: int, k: int)
    requires
        0 <= start,
        0 < width <= 0xffff,
        start + width <= usize::MAX,
        0 <= k < width,
    ensures
        ({
            let n = (start + k) / 8 - start / 8;
            let c = chunk_at(width, start, n);
            &&& 0 <= n < chunk_count(width, start)
            &&& c.src_shift <= k < c.src_shift + c.take
            &&& forall|m: int| 0 <= m < chunk_count(width, start) && (#[trigger] chunk_at(width, start, m)).src_shift <= k < chunk_at(width, start, m).src_shift + chunk_at(width, start, m).take ==> m == n
        }),
{
    let n = (start + k) / 8 - start / 8;
    lemma_chunk_shape(width, start, n);
    assert forall|m: int| 0 <= m < chunk_count(width, start) && (#[trigger] chunk_at(width, start, m)).src_shift <= k < chunk_at(width, start, m).src_shift + chunk_at(width, start, m).take implies m == n by {
        lemma_chunk_shape(width, start, m);
    }
}

} // verus!
