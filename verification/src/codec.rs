//! Reading and writing one field of a container.
//!
//! The container is a sequence of bytes. Value bit `k` of a field that
//! starts at container bit `start` lives in byte `(start + k) / 8`. Inside
//! that byte the field's chunk keeps its bits in order of significance; the
//! bit order of the container decides only where in the byte the chunk
//! sits: at its natural offset for `Lsb0`, mirrored for `Msb0`.

use vstd::prelude::*;
use crate::args::BitOrder;
use crate::bits::{
    bit, bits_of, from_bits, lemma_from_bits_bit, lemma_from_bits_bound, lemma_from_bits_congruent,
    lemma_from_bits_of, lemma_from_bits_unique, lemma_masked_bit, low_mask, single_bit, width_mask,
};
use crate::chunk::{
    chunk_at, chunk_count, field_hi, field_lo, lemma_chunk_shape, lemma_chunks_are_consecutive, spec_chunks, touches,
    Chunk,
};
use crate::layout::{spec_total_bits, FieldSpec};

verus! {

/// The number of bits that a field has in byte `i`.
pub open spec fn chunk_take(start: int, width: int, i: int) -> int {
    field_hi(start, width, i) - field_lo(start, i)
}

/// The offset in byte `i` at which the field's chunk physically sits.
pub open spec fn chunk_phys(start: int, width: int, order: BitOrder, i: int) -> int {
    order.spec_adjust_in_byte(field_lo(start, i), chunk_take(start, width, i))
}

/// Whether physical bit `j` of byte `i` belongs to the field.
pub open spec fn owns(start: int, width: int, order: BitOrder, i: int, j: int) -> bool {
    &&& touches(start, width, i)
    &&& chunk_phys(start, width, order, i) <= j < chunk_phys(start, width, order, i) + chunk_take(start, width, i)
}

/// The bit of the field's value that physical bit `j` of byte `i` holds.
pub open spec fn value_bit(start: int, width: int, order: BitOrder, i: int, j: int) -> int {
    8 * i + field_lo(start, i) - start + (j - chunk_phys(start, width, order, i))
}

/// The byte that holds bit `k` of the field's value.
pub open spec fn slot_byte(start: int, k: int) -> int {
    (start + k) / 8
}

/// The physical bit, in its byte, that holds bit `k` of the field's value.
pub open spec fn slot_bit(start: int, width: int, order: BitOrder, k: int) -> int {
    let i = slot_byte(start, k);
    chunk_phys(start, width, order, i) + (start + k - 8 * i - field_lo(start, i))
}

/// The bits of a field's value as they stand in `bytes`.
pub open spec fn field_bits(bytes: Seq<u8>, start: int, width: int, order: BitOrder) -> spec_fn(int) -> bool {
    |k: int| bit(bytes[slot_byte(start, k)] as u128, slot_bit(start, width, order, k))
}

/// The value of a field as it stands in `bytes`: the integer of `width`
/// bits whose bit `k` is the container bit that holds it.
pub open spec fn field_raw(bytes: Seq<u8>, start: int, width: int, order: BitOrder) -> u128 {
    from_bits(width, field_bits(bytes, start, width, order))
}

/// The bits of byte `i` after `raw` has been written to a field: the
/// field's own bits come from `raw`, the others stay.
pub open spec fn written_bits(old_byte: u8, start: int, width: int, order: BitOrder, raw: u128, i: int) -> spec_fn(int) -> bool {
    |j: int|
        if owns(start, width, order, i, j) {
            bit(raw, value_bit(start, width, order, i, j))
        } else {
            bit(old_byte as u128, j)
        }
}

/// Byte `i` after `raw` has been written to a field.
pub open spec fn written_byte(old_byte: u8, start: int, width: int, order: BitOrder, raw: u128, i: int) -> u8 {
    from_bits(8, written_bits(old_byte, start, width, order, raw, i)) as u8
}

/// The container after `raw` has been written to the field of `width` bits
/// at `start`: the low `width` bits of `raw` stand in the field's bits, and
/// every other bit of the container is as before.
pub open spec fn written(bytes: Seq<u8>, start: int, width: int, order: BitOrder, raw: u128) -> Seq<u8> {
    Seq::new(bytes.len(), |i: int| written_byte(bytes[i], start, width, order, raw, i))
}

/// The bits of a byte in which `take` bits of `val` replace the bits from
/// offset `off` on.
pub open spec fn merged_bits(old_byte: u8, val: u8, take: int, off: int) -> spec_fn(int) -> bool {
    |j: int|
        if off <= j < off + take {
            bit(val as u128, j - off)
        } else {
            bit(old_byte as u128, j)
        }
}

/// A byte in which the low `take` bits of `val` replace the bits from
/// offset `off` on.
pub open spec fn merged_byte(old_byte: u8, val: u8, take: int, off: int) -> u8 {
    from_bits(8, merged_bits(old_byte, val, take, off)) as u8
}

/// The bits of the `take` bits of a byte from offset `off` on.
pub open spec fn extracted_bits(byte: u8, take: int, off: int) -> spec_fn(int) -> bool {
    |j: int| j < take && bit(byte as u128, off + j)
}

/// The `take` bits of a byte from offset `off` on, as a number.
pub open spec fn extracted_byte(byte: u8, take: int, off: int) -> u8 {
    from_bits(8, extracted_bits(byte, take, off)) as u8
}

proof fn lemma_byte_high_bits(b: u8, k: u128)
    by (bit_vector)
    requires
        8 <= k < 128,
    ensures
        ((b as u128) >> k) & 1 == 0,
{
}

proof fn lemma_merge_step(b: u8, v: u8, take: u8, off: u8, j: u8)
    by (bit_vector)
    requires
        take < 8,
        off + take <= 8,
        j < 8,
    ensures
        ({
            let m = ((1u8 << take) - 1) as u8;
            let r = (b & !(m << off)) | ((v & m) << off);
            (((r as u128) >> (j as u128)) & 1 == 1) == (if off <= j && j < off + take {
                ((v as u128) >> ((j - off) as u128)) & 1 == 1
            } else {
                ((b as u128) >> (j as u128)) & 1 == 1
            })
        }),
{
}

proof fn lemma_slice_step(raw: u128, sh: u128, j: u128)
    by (bit_vector)
    requires
        sh < 128,
        j < 8,
    ensures
        (((((raw >> sh) as u8) as u128) >> j) & 1 == 1) == (sh + j < 128 && (raw >> ((sh + j) as u128)) & 1 == 1),
{
}

proof fn lemma_extract_step(b: u8, take: u8, off: u8, j: u8)
    by (bit_vector)
    requires
        take < 8,
        off + take <= 8,
        j < 8,
    ensures
        ({
            let m = ((1u8 << take) - 1) as u8;
            let r = (b >> off) & m;
            (((r as u128) >> (j as u128)) & 1 == 1) == (j < take && ((b as u128) >> ((off + j) as u128)) & 1 == 1)
        }),
{
}

proof fn lemma_shift_or_step(acc: u128, r: u8, sh: u128, k: u128)
    by (bit_vector)
    requires
        sh < 128,
        k < 128,
    ensures
        (((acc | ((r as u128) << sh)) >> k) & 1 == 1) == (((acc >> k) & 1 == 1) || (k >= sh && k - sh < 8 && ((r as u128) >> ((k - sh) as u128)) & 1 == 1)),
{
}

/// A byte is determined by its eight bits.
pub proof fn lemma_byte_unique(b: u8, g: spec_fn(int) -> bool)
    requires
        forall|j: int| 0 <= j < 8 ==> #[trigger] bit(b as u128, j) == g(j),
    ensures
        b == from_bits(8, g) as u8,
        from_bits(8, g) < 256,
{
    let x = b as u128;
    assert forall|k: int| 0 <= k < 128 implies bit(x, k) == (k < 8 && g(k)) by {
        if k >= 8 {
            lemma_byte_high_bits(b, k as u128);
        } else {
            assert(bit(b as u128, k) == g(k));
        }
    }
    lemma_from_bits_unique(x, 8, g);
}

/// Bit `j` of a byte assembled from eight bits is the `j`-th of them.
pub proof fn lemma_byte_bit(g: spec_fn(int) -> bool, j: int)
    ensures
        from_bits(8, g) < 256,
        bit((from_bits(8, g) as u8) as u128, j) == (0 <= j < 8 && g(j)),
{
    lemma_from_bits_bound(8, g);
    assert(single_bit(8) == 256) by (bit_vector);
    lemma_from_bits_bit(8, g, j);
}

/// Bit `j` of the byte cut out of `raw` at position `sh` is bit `sh + j` of `raw`.
pub proof fn lemma_slice_bits(raw: u128, sh: int, j: int)
    requires
        0 <= sh < 128,
        0 <= j < 8,
    ensures
        bit(((raw >> (sh as u128)) as u8) as u128, j) == bit(raw, sh + j),
{
    lemma_slice_step(raw, sh as u128, j as u128);
}

/// Or-ing a byte into an integer at position `sh` sets, beside the bits
/// that were set, the byte's bits moved up by `sh`.
pub proof fn lemma_shift_or_bits(acc: u128, r: u8, sh: int, k: int)
    requires
        0 <= sh < 128,
        0 <= k < 128,
    ensures
        bit(acc | ((r as u128) << (sh as u128)), k) == (bit(acc, k) || (sh <= k < sh + 8 && bit(r as u128, k - sh))),
{
    lemma_shift_or_step(acc, r, sh as u128, k as u128);
}

/// The byte with its low `take` bits set, for `take < 8`.
pub fn chunk_mask(take: u8) -> (m: u8)
    requires
        take < 8,
    ensures
        m == ((1u8 << take) - 1) as u8,
{
    assert((1u8 << take) >= 1) by (bit_vector)
        requires
            take < 8,
    ;
    (1u8 << take) - 1
}

/// Merges the low `take` bits of `val` into byte `i` at offset `off_adj`
/// and leaves the byte's other bits as they are.
pub fn write_chunk(bytes: &mut Vec<u8>, i: usize, val: u8, take: u8, off_adj: u8)
    requires
        i < old(bytes).len(),
        off_adj < 8,
        off_adj + take <= 8,
    ensures
        final(bytes)@ == old(bytes)@.update(i as int, merged_byte(old(bytes)[i as int], val, take as int, off_adj as int)),
{
    let old_byte = bytes[i];
    if take == 8 {
        proof {
            let g = merged_bits(old_byte, val, 8, 0);
            assert forall|j: int| 0 <= j < 8 implies #[trigger] bit(val as u128, j) == g(j) by {}
            lemma_byte_unique(val, g);
        }
        bytes.set(i, val);
    } else {
        let mask: u8 = chunk_mask(take);
        let inv_mask: u8 = !(mask << off_adj);
        let new_byte: u8 = (old_byte & inv_mask) | ((val & mask) << off_adj);
        proof {
            let g = merged_bits(old_byte, val, take as int, off_adj as int);
            assert forall|j: int| 0 <= j < 8 implies #[trigger] bit(new_byte as u128, j) == g(j) by {
                lemma_merge_step(old_byte, val, take, off_adj, j as u8);
            }
            lemma_byte_unique(new_byte, g);
        }
        bytes.set(i, new_byte);
    }
}

/// The `take` bits of `byte` from offset `off_adj` on, moved down to bit 0.
pub fn read_chunk(byte: u8, take: u8, off_adj: u8) -> (r: u8)
    requires
        off_adj < 8,
        off_adj + take <= 8,
    ensures
        r == extracted_byte(byte, take as int, off_adj as int),
{
    if take == 8 {
        proof {
            let g = extracted_bits(byte, 8, 0);
            assert forall|j: int| 0 <= j < 8 implies #[trigger] bit(byte as u128, j) == g(j) by {}
            lemma_byte_unique(byte, g);
        }
        byte
    } else {
        let mask: u8 = chunk_mask(take);
        let r: u8 = (byte >> off_adj) & mask;
        proof {
            let g = extracted_bits(byte, take as int, off_adj as int);
            assert forall|j: int| 0 <= j < 8 implies #[trigger] bit(r as u128, j) == g(j) by {
                lemma_extract_step(byte, take, off_adj, j as u8);
            }
            lemma_byte_unique(r, g);
        }
        r
    }
}

/// A byte that the field does not touch is written back as it was.
pub proof fn lemma_written_untouched(old_byte: u8, start: int, width: int, order: BitOrder, raw: u128, i: int)
    requires
        !touches(start, width, i),
    ensures
        written_byte(old_byte, start, width, order, raw, i) == old_byte,
{
    let g = written_bits(old_byte, start, width, order, raw, i);
    assert forall|j: int| 0 <= j < 8 implies #[trigger] bit(old_byte as u128, j) == g(j) by {}
    lemma_byte_unique(old_byte, g);
}

/// Writing the chunk of byte `i` is writing byte `i` of the field.
pub proof fn lemma_merged_is_written(old_byte: u8, raw: u128, start: int, width: int, order: BitOrder, n: int)
    requires
        0 <= start,
        0 < width <= 128,
        start + width <= usize::MAX,
        0 <= n < chunk_count(width, start),
    ensures
        ({
            let c = chunk_at(width, start, n);
            let part = ((raw & low_mask(width)) >> (c.src_shift as u128)) as u8;
            merged_byte(old_byte, part, c.take as int, order.spec_adjust_in_byte(c.bit_off as int, c.take as int))
                == written_byte(old_byte, start, width, order, raw, start / 8 + n)
        }),
{
    let c = chunk_at(width, start, n);
    let i = start / 8 + n;
    let val = raw & low_mask(width);
    let part = (val >> (c.src_shift as u128)) as u8;
    let off = order.spec_adjust_in_byte(c.bit_off as int, c.take as int);
    lemma_chunk_shape(width, start, n);
    let a = merged_bits(old_byte, part, c.take as int, off);
    let b = written_bits(old_byte, start, width, order, raw, i);
    assert forall|j: int| 0 <= j < 8 implies #[trigger] a(j) == b(j) by {
        if off <= j < off + c.take {
            lemma_slice_bits(val, c.src_shift as int, j - off);
            lemma_masked_bit(raw, width, c.src_shift + j - off);
            assert(owns(start, width, order, i, j));
            assert(value_bit(start, width, order, i, j) == c.src_shift + j - off);
        } else {
            assert(!owns(start, width, order, i, j));
        }
    }
    lemma_from_bits_congruent(8, a, b);
}

/// The position in the value at which the `n`-th chunk starts; the field's
/// width once the chunks are used up.
pub open spec fn chunk_start(width: int, start: int, n: int) -> int {
    if n < chunk_count(width, start) {
        chunk_at(width, start, n).src_shift as int
    } else {
        width
    }
}

/// Writes the low `width` bits of `raw` to the field's bits, chunk by
/// chunk, and leaves every other bit of the container as it is.
pub fn write_chunks(bytes: &mut Vec<u8>, f: &FieldSpec, order: BitOrder, raw: u128)
    requires
        f.wf(),
        f.end_bit() <= spec_total_bits(old(bytes).len()),
    ensures
        final(bytes)@ == written(old(bytes)@, f.start_bit as int, f.width as int, order, raw),
{
    let ghost before = bytes@;
    let ghost s = f.start_bit as int;
    let ghost w = f.width as int;
    let val: u128 = raw & width_mask(f.width);
    let cs = Chunk::for_field(f.width, f.start_bit);
    let mut n: usize = 0;
    while n < cs.len()
        invariant
            n <= cs.len(),
            f.wf(),
            s == f.start_bit,
            w == f.width,
            s + w <= spec_total_bits(before.len() as usize),
            before.len() <= usize::MAX,
            cs@ == spec_chunks(w, s),
            val == raw & low_mask(w),
            bytes.len() == before.len(),
            forall|i: int| 0 <= i < bytes.len() ==> #[trigger] bytes[i] == (if s / 8 <= i < s / 8 + n {
                written_byte(before[i], s, w, order, raw, i)
            } else {
                before[i]
            }),
        decreases cs.len() - n,
    {
        let c = cs[n];
        proof {
            lemma_chunk_shape(w, s, n as int);
            lemma_merged_is_written(before[s / 8 + n], raw, s, w, order, n as int);
        }
        let off_adj = order.adjust_in_byte(c.bit_off, c.take);
        let part: u8 = #[verifier::truncate] ((val >> c.src_shift) as u8);
        assert(part == (val >> (c.src_shift as u128)) as u8);
        write_chunk(bytes, c.byte_idx, part, c.take, off_adj);
        n += 1;
    }
    proof {
        assert forall|i: int| 0 <= i < bytes.len() implies bytes[i] == written(before, s, w, order, raw)[i] by {
            if !(s / 8 <= i < s / 8 + cs.len()) {
                lemma_written_untouched(before[i], s, w, order, raw, i);
            }
        }
        assert(bytes@ =~= written(before, s, w, order, raw));
    }
}

/// Reads the field's value out of its bits, chunk by chunk.
pub fn read_chunks(bytes: &[u8], f: &FieldSpec, order: BitOrder) -> (raw: u128)
    requires
        f.wf(),
        f.end_bit() <= spec_total_bits(bytes.len()),
    ensures
        raw == field_raw(bytes@, f.start_bit as int, f.width as int, order),
{
    let ghost s = f.start_bit as int;
    let ghost w = f.width as int;
    let ghost g = field_bits(bytes@, s, w, order);
    let cs = Chunk::for_field(f.width, f.start_bit);
    let mut acc: u128 = 0;
    let mut n: usize = 0;
    proof {
        assert forall|k: int| 0 <= k < 128 implies #[trigger] bit(acc, k) == (k < chunk_start(w, s, 0) && g(k)) by {
            lemma_from_bits_bit(0, g, k);
        }
    }
    while n < cs.len()
        invariant
            n <= cs.len(),
            f.wf(),
            s == f.start_bit,
            w == f.width,
            s + w <= spec_total_bits(bytes.len()),
            cs@ == spec_chunks(w, s),
            g == field_bits(bytes@, s, w, order),
            forall|k: int| 0 <= k < 128 ==> #[trigger] bit(acc, k) == (k < chunk_start(w, s, n as int) && g(k)),
        decreases cs.len() - n,
    {
        let c = cs[n];
        proof {
            lemma_chunk_shape(w, s, n as int);
            lemma_chunks_are_consecutive(w, s, n as int);
        }
        let off_adj = order.adjust_in_byte(c.bit_off, c.take);
        let part = read_chunk(bytes[c.byte_idx], c.take, off_adj);
        let ghost prev = acc;
        acc = acc | ((part as u128) << c.src_shift);
        proof {
            assert(acc == prev | ((part as u128) << (c.src_shift as u128)));
            let e = extracted_bits(bytes[c.byte_idx as int], c.take as int, off_adj as int);
            assert forall|k: int| 0 <= k < 128 implies #[trigger] bit(acc, k) == (k < chunk_start(w, s, n + 1) && g(k)) by {
                lemma_shift_or_bits(prev, part, c.src_shift as int, k);
                lemma_byte_bit(e, k - c.src_shift);
                if c.src_shift <= k < c.src_shift + c.take {
                    assert(slot_byte(s, k) == c.byte_idx);
                    assert(slot_bit(s, w, order, k) == off_adj + (k - c.src_shift));
                }
            }
        }
        n += 1;
    }
    proof {
        lemma_from_bits_unique(acc, w, g);
    }
    acc
}

/// Byte `t` of the little-endian form of `x`.
pub open spec fn le_byte(x: u128, t: int) -> u8 {
    (x >> ((8 * t) as u128)) as u8
}

/// The first `n` bytes of the little-endian form of `x`.
pub open spec fn le_bytes(x: u128, n: int) -> Seq<u8> {
    Seq::new(n as nat, |t: int| le_byte(x, t))
}

/// The bits of the integer that `bytes` spell in little-endian order.
pub open spec fn le_bits(bytes: Seq<u8>) -> spec_fn(int) -> bool {
    |k: int| bit(bytes[k / 8] as u128, k % 8)
}

/// The integer that `bytes` spell in little-endian order: byte 0 holds the
/// lowest eight bits.
pub open spec fn le_value(bytes: Seq<u8>) -> u128 {
    from_bits(8 * (bytes.len() as int), le_bits(bytes))
}

/// The container with `n` bytes from `start_byte` on replaced by the
/// little-endian form of `raw`.
pub open spec fn with_le_bytes(bytes: Seq<u8>, start_byte: int, n: int, raw: u128) -> Seq<u8> {
    Seq::new(bytes.len(), |i: int| if start_byte <= i < start_byte + n {
        le_byte(raw, i - start_byte)
    } else {
        bytes[i]
    })
}

/// Copies the little-endian form of `raw`, `n` bytes of it, into the
/// container from `start_byte` on.
pub fn write_aligned(bytes: &mut Vec<u8>, start_byte: usize, n: usize, raw: u128)
    requires
        n <= 16,
        start_byte + n <= old(bytes).len(),
    ensures
        final(bytes)@ == with_le_bytes(old(bytes)@, start_byte as int, n as int, raw),
{
    let ghost before = bytes@;
    let mut t: usize = 0;
    while t < n
        invariant
            t <= n <= 16,
            start_byte + n <= before.len(),
            bytes.len() == before.len(),
            forall|i: int| 0 <= i < bytes.len() ==> #[trigger] bytes[i] == (if start_byte <= i < start_byte + t {
                le_byte(raw, i - start_byte)
            } else {
                before[i]
            }),
        decreases n - t,
    {
        let sh: u32 = (8 * t) as u32;
        let b: u8 = #[verifier::truncate] ((raw >> sh) as u8);
        assert(b == le_byte(raw, t as int));
        bytes.set(start_byte + t, b);
        t += 1;
    }
    assert(bytes@ =~= with_le_bytes(before, start_byte as int, n as int, raw));
}

/// Reads `n` bytes from `start_byte` on as one little-endian integer.
pub fn read_aligned(bytes: &[u8], start_byte: usize, n: usize) -> (raw: u128)
    requires
        n <= 16,
        start_byte + n <= bytes.len(),
    ensures
        raw == le_value(bytes@.subrange(start_byte as int, start_byte + n)),
{
    let ghost part = bytes@.subrange(start_byte as int, start_byte + n);
    let ghost g = le_bits(part);
    let mut acc: u128 = 0;
    let mut t: usize = 0;
    proof {
        assert forall|k: int| 0 <= k < 128 implies #[trigger] bit(acc, k) == (k < 0 && g(k)) by {
            lemma_from_bits_bit(0, g, k);
        }
    }
    while t < n
        invariant
            t <= n <= 16,
            start_byte + n <= bytes.len(),
            part == bytes@.subrange(start_byte as int, start_byte + n),
            g == le_bits(part),
            forall|k: int| 0 <= k < 128 ==> #[trigger] bit(acc, k) == (k < 8 * t && g(k)),
        decreases n - t,
    {
        let byte = bytes[start_byte + t];
        let sh: u32 = (8 * t) as u32;
        let ghost prev = acc;
        acc = acc | ((byte as u128) << sh);
        proof {
            assert(acc == prev | ((byte as u128) << ((8 * t) as u128)));
            assert forall|k: int| 0 <= k < 128 implies #[trigger] bit(acc, k) == (k < 8 * (t + 1) && g(k)) by {
                lemma_shift_or_bits(prev, byte, 8 * t, k);
                if 8 * t <= k < 8 * t + 8 {
                    assert(k / 8 == t);
                    assert(k % 8 == k - 8 * t);
                    assert(part[t as int] == byte);
                }
            }
        }
        t += 1;
    }
    proof {
        lemma_from_bits_unique(acc, 8 * n, g);
    }
    acc
}

/// In a field that starts and ends on a byte boundary, each byte holds one
/// byte of the value's little-endian form, whatever the bit order.
pub proof fn lemma_written_aligned(old_byte: u8, start: int, width: int, order: BitOrder, raw: u128, i: int)
    requires
        0 <= start,
        0 < width <= 128,
        start % 8 == 0,
        width % 8 == 0,
        touches(start, width, i),
    ensures
        written_byte(old_byte, start, width, order, raw, i) == le_byte(raw, i - start / 8),
{
    let t = i - start / 8;
    let g = written_bits(old_byte, start, width, order, raw, i);
    let b = le_byte(raw, t);
    assert forall|j: int| 0 <= j < 8 implies #[trigger] bit(b as u128, j) == g(j) by {
        lemma_slice_bits(raw, 8 * t, j);
        assert(owns(start, width, order, i, j));
        assert(value_bit(start, width, order, i, j) == 8 * t + j);
    }
    lemma_byte_unique(b, g);
}

/// The value of a field that starts and ends on a byte boundary is the
/// little-endian integer of its bytes, whatever the bit order.
pub proof fn lemma_field_raw_aligned(bytes: Seq<u8>, start: int, width: int, order: BitOrder)
    requires
        0 <= start,
        0 < width <= 128,
        start % 8 == 0,
        width % 8 == 0,
        start + width <= 8 * bytes.len(),
    ensures
        field_raw(bytes, start, width, order) == le_value(bytes.subrange(start / 8, (start + width) / 8)),
{
    let part = bytes.subrange(start / 8, (start + width) / 8);
    let a = field_bits(bytes, start, width, order);
    let b = le_bits(part);
    assert forall|k: int| 0 <= k < width implies #[trigger] a(k) == b(k) by {
        let i = slot_byte(start, k);
        assert(i == start / 8 + k / 8);
        assert(slot_bit(start, width, order, k) == k % 8);
        assert(part[k / 8] == bytes[i]);
    }
    lemma_from_bits_congruent(width, a, b);
}

/// Writes the low `width` bits of `raw` to the field's bits and leaves
/// every other bit of the container as it is.
///
/// A field that is byte-aligned and as wide as its integer type takes the
/// value's little-endian bytes as they are; any other field is written
/// chunk by chunk.
pub fn write_field(bytes: &mut Vec<u8>, f: &FieldSpec, order: BitOrder, raw: u128)
    requires
        f.wf(),
        f.end_bit() <= spec_total_bits(old(bytes).len()),
    ensures
        final(bytes)@ == written(old(bytes)@, f.start_bit as int, f.width as int, order, raw),
{
    match f.aligned_primitive_len() {
        Some(n) => {
            let ghost before = bytes@;
            let ghost s = f.start_bit as int;
            let ghost w = f.width as int;
            write_aligned(bytes, f.start_byte(), n, raw);
            proof {
                assert forall|i: int| 0 <= i < bytes.len() implies bytes[i] == written(before, s, w, order, raw)[i] by {
                    if touches(s, w, i) {
                        lemma_written_aligned(before[i], s, w, order, raw, i);
                    } else {
                        lemma_written_untouched(before[i], s, w, order, raw, i);
                    }
                }
                assert(bytes@ =~= written(before, s, w, order, raw));
            }
        },
        None => {
            write_chunks(bytes, f, order, raw);
        },
    }
}

/// Reads the field's value out of its bits.
///
/// A field that is byte-aligned and as wide as its integer type is read as
/// little-endian bytes; any other field is read chunk by chunk.
pub fn read_field(bytes: &[u8], f: &FieldSpec, order: BitOrder) -> (raw: u128)
    requires
        f.wf(),
        f.end_bit() <= spec_total_bits(bytes.len()),
    ensures
        raw == field_raw(bytes@, f.start_bit as int, f.width as int, order),
{
    match f.aligned_primitive_len() {
        Some(n) => {
            proof {
                lemma_field_raw_aligned(bytes@, f.start_bit as int, f.width as int, order);
            }
            read_aligned(bytes, f.start_byte(), n)
        },
        None => read_chunks(bytes, f, order),
    }
}

/// The first `n` bytes of the little-endian form of `x`.
pub fn to_le_bytes(x: u128, n: usize) -> (bytes: Vec<u8>)
    requires
        n <= 16,
    ensures
        bytes@ == le_bytes(x, n as int),
{
    let mut bytes: Vec<u8> = Vec::new();
    let mut i: usize = 0;
    while i < n
        invariant
            i <= n,
            bytes.len() == i,
        decreases n - i,
    {
        bytes.push(0u8);
        i += 1;
    }
    write_aligned(&mut bytes, 0, n, x);
    assert(bytes@ =~= le_bytes(x, n as int));
    bytes
}

/// The integer that at most sixteen bytes spell in little-endian order.
pub fn from_le_bytes(bytes: &[u8]) -> (x: u128)
    requires
        bytes.len() <= 16,
    ensures
        x == le_value(bytes@),
{
    assert(bytes@.subrange(0, bytes.len() as int) =~= bytes@);
    read_aligned(bytes, 0, bytes.len())
}

/// Bit `k` of a field's value has a place in the container, the place
/// belongs to the field, and what the place holds is bit `k`.
pub proof fn lemma_slot(start: int, width: int, order: BitOrder, k: int)
    requires
        0 <= start,
        0 <= k < width,
    ensures
        ({
            let i = slot_byte(start, k);
            let j = slot_bit(start, width, order, k);
            &&& start / 8 <= i <= (start + width - 1) / 8
            &&& 0 <= j < 8
            &&& owns(start, width, order, i, j)
            &&& value_bit(start, width, order, i, j) == k
        }),
{
}

/// A place that belongs to a field holds one bit of the field's value,
/// and that bit has no other place.
pub proof fn lemma_owned(start: int, width: int, order: BitOrder, i: int, j: int)
    requires
        0 <= start,
        0 < width,
        owns(start, width, order, i, j),
    ensures
        ({
            let k = value_bit(start, width, order, i, j);
            &&& 0 <= k < width
            &&& 0 <= j < 8
            &&& slot_byte(start, k) == i
            &&& slot_bit(start, width, order, k) == j
        }),
{
}

/// Two fields whose bit ranges do not overlap share no place, whatever the
/// bit order.
pub proof fn lemma_disjoint(s1: int, w1: int, s2: int, w2: int, order: BitOrder, i: int, j: int)
    requires
        0 <= s1,
        0 <= s2,
        0 < w1,
        0 < w2,
        s1 + w1 <= s2 || s2 + w2 <= s1,
    ensures
        !(owns(s1, w1, order, i, j) && owns(s2, w2, order, i, j)),
{
}

/// What a bit of the container holds after a field has been written: a bit
/// of the value where the field owns it, and what it held before elsewhere.
pub proof fn lemma_written_bit(bytes: Seq<u8>, start: int, width: int, order: BitOrder, raw: u128, i: int, j: int)
    requires
        0 <= i < bytes.len(),
        0 <= j < 8,
    ensures
        bit(written(bytes, start, width, order, raw)[i] as u128, j) == (if owns(start, width, order, i, j) {
            bit(raw, value_bit(start, width, order, i, j))
        } else {
            bit(bytes[i] as u128, j)
        }),
{
    lemma_byte_bit(written_bits(bytes[i], start, width, order, raw, i), j);
}

/// Reading a field back after writing it gives the value's low `width` bits.
pub proof fn lemma_read_written(bytes: Seq<u8>, start: int, width: int, order: BitOrder, raw: u128)
    requires
        0 <= start,
        0 < width <= 128,
        start + width <= 8 * bytes.len(),
    ensures
        field_raw(written(bytes, start, width, order, raw), start, width, order) == raw & low_mask(width),
{
    let after = written(bytes, start, width, order, raw);
    let a = field_bits(after, start, width, order);
    let b = bits_of(raw);
    assert forall|k: int| 0 <= k < width implies #[trigger] a(k) == b(k) by {
        lemma_slot(start, width, order, k);
        lemma_written_bit(bytes, start, width, order, raw, slot_byte(start, k), slot_bit(start, width, order, k));
    }
    lemma_from_bits_congruent(width, a, b);
    lemma_from_bits_of(raw, width);
}

/// Writing one field leaves the value of a field that it does not overlap
/// as it was.
pub proof fn lemma_read_other(bytes: Seq<u8>, s1: int, w1: int, s2: int, w2: int, order: BitOrder, raw: u128)
    requires
        0 <= s1,
        0 <= s2,
        0 < w1,
        0 < w2,
        s2 + w2 <= 8 * bytes.len(),
        s1 + w1 <= s2 || s2 + w2 <= s1,
    ensures
        field_raw(written(bytes, s1, w1, order, raw), s2, w2, order) == field_raw(bytes, s2, w2, order),
{
    let after = written(bytes, s1, w1, order, raw);
    let a = field_bits(after, s2, w2, order);
    let b = field_bits(bytes, s2, w2, order);
    assert forall|k: int| 0 <= k < w2 implies #[trigger] a(k) == b(k) by {
        let i = slot_byte(s2, k);
        let j = slot_bit(s2, w2, order, k);
        lemma_slot(s2, w2, order, k);
        lemma_disjoint(s1, w1, s2, w2, order, i, j);
        lemma_written_bit(bytes, s1, w1, order, raw, i, j);
    }
    lemma_from_bits_congruent(w2, a, b);
}

/// Two bytes with the same eight bits are the same byte.
pub proof fn lemma_bytes_equal(a: u8, b: u8)
    requires
        forall|j: int| 0 <= j < 8 ==> #[trigger] bit(a as u128, j) == bit(b as u128, j),
    ensures
        a == b,
{
    let g = bits_of(b as u128);
    assert forall|j: int| 0 <= j < 8 implies #[trigger] bit(a as u128, j) == g(j) by {}
    assert forall|j: int| 0 <= j < 8 implies #[trigger] bit(b as u128, j) == g(j) by {}
    lemma_byte_unique(a, g);
    lemma_byte_unique(b, g);
}

/// The bit of byte `i` that stands at offset `n` in the bit order's own
/// numbering: offset `n` itself for `Lsb0`, its mirror image for `Msb0`.
pub open spec fn numbered_bit(order: BitOrder, n: int) -> int {
    match order {
        BitOrder::Lsb0 => n,
        BitOrder::Msb0 => 7 - n,
    }
}

/// A field owns the place of every container bit in its range: bit
/// `8 * i + n` of the container, in the bit order's own numbering, lies in
/// byte `i` at the place that the order gives offset `n`.
pub proof fn lemma_range_is_owned(start: int, width: int, order: BitOrder, i: int, n: int)
    requires
        0 <= start,
        0 < width,
        0 <= n < 8,
        start <= 8 * i + n < start + width,
    ensures
        owns(start, width, order, i, numbered_bit(order, n)),
{
}

} // verus!
