//! What holds of packing and unpacking, for every container, every bit
//! order and every value.

use vstd::prelude::*;
use crate::args::BitOrder;
use crate::bits::{
    bit, bits_of, lemma_from_bits_bit, lemma_from_bits_congruent, lemma_from_bits_masked, lemma_from_bits_of,
    lemma_mask_of_zero, lemma_masked_bit, low_mask,
};
use crate::codec::{
    field_bits, field_raw, le_bits, le_byte, le_bytes, le_value, lemma_byte_unique, lemma_bytes_equal, lemma_disjoint,
    lemma_owned, lemma_range_is_owned, lemma_read_other, lemma_read_written, lemma_slice_bits, lemma_slot,
    lemma_written_bit, numbered_bit, owns, slot_bit, value_bit,
};
use crate::layout::{spec_total_bits, FieldKind, FieldSpec};
use crate::packer::{packed, pattern_of, patterns, unpacked, zeros, Codec};
use crate::value::{
    lemma_decode_bool, lemma_decode_signed, lemma_decode_unsigned, lemma_redecode, natural_width, signed_fits,
    spec_decode, unsigned_max, FieldValue,
};

verus! {

/// Packing gives as many bytes as the container has.
pub proof fn lemma_packed_len(fields: Seq<FieldSpec>, raws: Seq<u128>, order: BitOrder, nbytes: nat, n: int)
    ensures
        packed(fields, raws, order, nbytes, n).len() == nbytes,
    decreases n,
{
    if n > 0 {
        lemma_packed_len(fields, raws, order, nbytes, n - 1);
    }
}

/// No bit of zero is set.
pub proof fn lemma_zero_has_no_bit(k: int)
    ensures
        !bit(0, k),
{
    lemma_from_bits_bit(0, bits_of(0), k);
}

/// A field reads as zero in a container of clear bytes.
pub proof fn lemma_zeros_read_zero(nbytes: nat, start: int, width: int, order: BitOrder)
    requires
        0 <= start,
        0 < width <= 128,
        start + width <= 8 * nbytes,
    ensures
        field_raw(zeros(nbytes), start, width, order) == 0,
{
    let a = field_bits(zeros(nbytes), start, width, order);
    let b = bits_of(0);
    assert forall|k: int| 0 <= k < width implies #[trigger] a(k) == b(k) by {
        lemma_slot(start, width, order, k);
        lemma_zero_has_no_bit(slot_bit(start, width, order, k));
        lemma_zero_has_no_bit(k);
    }
    lemma_from_bits_congruent(width, a, b);
    lemma_from_bits_of(0, width);
    lemma_mask_of_zero(width);
}

/// After the first `n` fields have been written, field `m` among them
/// holds the low bits of its own number.
proof fn lemma_field_after_prefix(codec: Codec, raws: Seq<u128>, n: int, m: int)
    requires
        codec.wf(),
        0 <= m < n <= codec.fields().len(),
    ensures
        field_raw(
            packed(codec.fields(), raws, codec.order(), codec.nbytes() as nat, n),
            codec.fields()[m].start_bit as int,
            codec.fields()[m].width as int,
            codec.order(),
        ) == raws[m] & low_mask(codec.fields()[m].width as int),
    decreases n,
{
    let fields = codec.fields();
    let before = packed(fields, raws, codec.order(), codec.nbytes() as nat, n - 1);
    lemma_packed_len(fields, raws, codec.order(), codec.nbytes() as nat, n - 1);
    let f = fields[m];
    let last = fields[n - 1];
    assert(f.wf() && last.wf());
    assert(f.end_bit() <= spec_total_bits(codec.nbytes()));
    if m == n - 1 {
        lemma_read_written(before, f.start_bit as int, f.width as int, codec.order(), raws[m]);
    } else {
        assert(f.end_bit() <= last.start_bit);
        lemma_read_other(before, last.start_bit as int, last.width as int, f.start_bit as int, f.width as int, codec.order(), raws[n - 1]);
        lemma_field_after_prefix(codec, raws, n - 1, m);
    }
}

/// Unpacking what was packed gives each field the low bits of its own
/// number, as many as the field is wide: `raw & ((1 << width) - 1)`.
/// What the other fields were given has no part in it.
pub proof fn law_unpack_pack(codec: Codec, raws: Seq<u128>, m: int)
    requires
        codec.wf(),
        0 <= m < codec.fields().len(),
    ensures
        unpacked(
            codec.fields(),
            packed(codec.fields(), raws, codec.order(), codec.nbytes() as nat, codec.fields().len() as int),
            codec.order(),
        )[m] == raws[m] & low_mask(codec.fields()[m].width as int),
{
    lemma_field_after_prefix(codec, raws, codec.fields().len() as int, m);
}

/// A bit range that no field overlaps stays clear after the first `n`
/// fields have been written.
proof fn lemma_gap_after_prefix(codec: Codec, raws: Seq<u128>, start: int, width: int, n: int)
    requires
        codec.wf(),
        0 <= n <= codec.fields().len(),
        0 <= start,
        0 < width <= 128,
        start + width <= 8 * codec.nbytes(),
        forall|m: int| 0 <= m < codec.fields().len() ==> (#[trigger] codec.fields()[m]).end_bit() <= start || start + width <= codec.fields()[m].start_bit,
    ensures
        field_raw(packed(codec.fields(), raws, codec.order(), codec.nbytes() as nat, n), start, width, codec.order()) == 0,
    decreases n,
{
    if n <= 0 {
        lemma_zeros_read_zero(codec.nbytes() as nat, start, width, codec.order());
    } else {
        let fields = codec.fields();
        let before = packed(fields, raws, codec.order(), codec.nbytes() as nat, n - 1);
        lemma_packed_len(fields, raws, codec.order(), codec.nbytes() as nat, n - 1);
        let last = fields[n - 1];
        assert(last.wf());
        lemma_read_other(before, last.start_bit as int, last.width as int, start, width, codec.order(), raws[n - 1]);
        lemma_gap_after_prefix(codec, raws, start, width, n - 1);
    }
}

/// A gap reads back as zero: a bit range of the container that no field
/// overlaps holds only clear bits after packing, whatever was packed.
pub proof fn law_gap_reads_zero(codec: Codec, raws: Seq<u128>, start: int, width: int)
    requires
        codec.wf(),
        0 <= start,
        0 < width <= 128,
        start + width <= 8 * codec.nbytes(),
        forall|m: int| 0 <= m < codec.fields().len() ==> (#[trigger] codec.fields()[m]).end_bit() <= start || start + width <= codec.fields()[m].start_bit,
    ensures
        field_raw(
            packed(codec.fields(), raws, codec.order(), codec.nbytes() as nat, codec.fields().len() as int),
            start,
            width,
            codec.order(),
        ) == 0,
{
    lemma_gap_after_prefix(codec, raws, start, width, codec.fields().len() as int);
}

/// What one bit of the container holds after the first `n` fields have
/// been written: the bit of the value of the field that owns it, and
/// nothing if none of them does.
proof fn lemma_bit_after_prefix(codec: Codec, raws: Seq<u128>, n: int, i: int, j: int)
    requires
        codec.wf(),
        0 <= n <= codec.fields().len(),
        0 <= i < codec.nbytes(),
        0 <= j < 8,
    ensures
        forall|m: int| 0 <= m < n && owns((#[trigger] codec.fields()[m]).start_bit as int, codec.fields()[m].width as int, codec.order(), i, j)
            ==> bit(packed(codec.fields(), raws, codec.order(), codec.nbytes() as nat, n)[i] as u128, j)
                == bit(raws[m], value_bit(codec.fields()[m].start_bit as int, codec.fields()[m].width as int, codec.order(), i, j)),
        (forall|m: int| 0 <= m < n ==> !owns((#[trigger] codec.fields()[m]).start_bit as int, codec.fields()[m].width as int, codec.order(), i, j))
            ==> !bit(packed(codec.fields(), raws, codec.order(), codec.nbytes() as nat, n)[i] as u128, j),
    decreases n,
{
    let fields = codec.fields();
    let order = codec.order();
    if n <= 0 {
        lemma_zero_has_no_bit(j);
    } else {
        let before = packed(fields, raws, order, codec.nbytes() as nat, n - 1);
        lemma_packed_len(fields, raws, order, codec.nbytes() as nat, n - 1);
        let last = fields[n - 1];
        assert(last.wf());
        lemma_written_bit(before, last.start_bit as int, last.width as int, order, raws[n - 1], i, j);
        lemma_bit_after_prefix(codec, raws, n - 1, i, j);
        assert forall|m: int| 0 <= m < n && owns((#[trigger] fields[m]).start_bit as int, fields[m].width as int, order, i, j)
            implies bit(packed(fields, raws, order, codec.nbytes() as nat, n)[i] as u128, j)
                == bit(raws[m], value_bit(fields[m].start_bit as int, fields[m].width as int, order, i, j)) by {
            if m < n - 1 {
                assert(fields[m].wf());
                assert(fields[m].end_bit() <= last.start_bit);
                lemma_disjoint(fields[m].start_bit as int, fields[m].width as int, last.start_bit as int, last.width as int, order, i, j);
            }
        }
    }
}

/// Every bit of the packed container is accounted for: a bit that a field
/// owns holds that field's value bit, and a bit that no field owns is clear.
pub proof fn law_packed_bits(codec: Codec, raws: Seq<u128>, i: int, j: int)
    requires
        codec.wf(),
        0 <= i < codec.nbytes(),
        0 <= j < 8,
    ensures
        forall|m: int| 0 <= m < codec.fields().len() && owns((#[trigger] codec.fields()[m]).start_bit as int, codec.fields()[m].width as int, codec.order(), i, j)
            ==> bit(packed(codec.fields(), raws, codec.order(), codec.nbytes() as nat, codec.fields().len() as int)[i] as u128, j)
                == bit(raws[m], value_bit(codec.fields()[m].start_bit as int, codec.fields()[m].width as int, codec.order(), i, j)),
        (forall|m: int| 0 <= m < codec.fields().len() ==> !owns((#[trigger] codec.fields()[m]).start_bit as int, codec.fields()[m].width as int, codec.order(), i, j))
            ==> !bit(packed(codec.fields(), raws, codec.order(), codec.nbytes() as nat, codec.fields().len() as int)[i] as u128, j),
{
    lemma_bit_after_prefix(codec, raws, codec.fields().len() as int, i, j);
}

/// What the other fields are given has no part in what a field holds:
/// two packings that give field `m` the same number give it the same bits.
pub proof fn law_field_independent(codec: Codec, a: Seq<u128>, b: Seq<u128>, m: int)
    requires
        codec.wf(),
        0 <= m < codec.fields().len(),
        a[m] == b[m],
    ensures
        unpacked(codec.fields(), packed(codec.fields(), a, codec.order(), codec.nbytes() as nat, codec.fields().len() as int), codec.order())[m]
            == unpacked(codec.fields(), packed(codec.fields(), b, codec.order(), codec.nbytes() as nat, codec.fields().len() as int), codec.order())[m],
{
    law_unpack_pack(codec, a, m);
    law_unpack_pack(codec, b, m);
}

/// The masking law: an unsigned integer that is packed and unpacked comes
/// back as `x & ((1 << width) - 1)`, whatever the field's width and place,
/// the bit order, and the other fields' values.
pub proof fn law_masking<T>(codec: Codec, values: Seq<FieldValue<T>>, m: int, x: u128, bytes: u8)
    requires
        codec.wf(),
        values.len() == codec.fields().len(),
        0 <= m < codec.fields().len(),
        codec.fields()[m].kind == (FieldKind::Int { signed: false, bytes }),
        values[m] == FieldValue::<T>::Unsigned(x),
        x <= unsigned_max(bytes),
    ensures
        spec_decode::<T>(
            codec.fields()[m].kind,
            codec.fields()[m].width as int,
            unpacked(
                codec.fields(),
                packed(codec.fields(), patterns(values), codec.order(), codec.nbytes() as nat, codec.fields().len() as int),
                codec.order(),
            )[m],
        ) == Some(FieldValue::<T>::Unsigned(x & low_mask(codec.fields()[m].width as int))),
{
    law_unpack_pack(codec, patterns(values), m);
    assert(codec.fields()[m].wf());
    lemma_decode_unsigned::<T>(x, codec.fields()[m].width as int, bytes);
}

/// The sign-extension law: a signed integer that fits the field's width,
/// `-(1 << (width - 1)) <= x < (1 << (width - 1))`, comes back as it was
/// packed, for every width up to that of the field's type.
pub proof fn law_sign_extension<T>(codec: Codec, values: Seq<FieldValue<T>>, m: int, x: i128, bytes: u8)
    requires
        codec.wf(),
        values.len() == codec.fields().len(),
        0 <= m < codec.fields().len(),
        codec.fields()[m].kind == (FieldKind::Int { signed: true, bytes }),
        codec.fields()[m].width <= 8 * bytes,
        values[m] == FieldValue::<T>::Signed(x),
        signed_fits(x as int, codec.fields()[m].width as int),
    ensures
        spec_decode::<T>(
            codec.fields()[m].kind,
            codec.fields()[m].width as int,
            unpacked(
                codec.fields(),
                packed(codec.fields(), patterns(values), codec.order(), codec.nbytes() as nat, codec.fields().len() as int),
                codec.order(),
            )[m],
        ) == Some(values[m]),
{
    law_unpack_pack(codec, patterns(values), m);
    assert(codec.fields()[m].wf());
    lemma_decode_signed::<T>(x, codec.fields()[m].width as int, bytes);
}

/// A boolean comes back as it was packed, whatever the field's width.
pub proof fn law_bool_round_trip<T>(codec: Codec, values: Seq<FieldValue<T>>, m: int, b: bool)
    requires
        codec.wf(),
        values.len() == codec.fields().len(),
        0 <= m < codec.fields().len(),
        codec.fields()[m].kind == FieldKind::Bool,
        values[m] == FieldValue::<T>::Bool(b),
    ensures
        spec_decode::<T>(
            codec.fields()[m].kind,
            codec.fields()[m].width as int,
            unpacked(
                codec.fields(),
                packed(codec.fields(), patterns(values), codec.order(), codec.nbytes() as nat, codec.fields().len() as int),
                codec.order(),
            )[m],
        ) == Some(values[m]),
{
    law_unpack_pack(codec, patterns(values), m);
    assert(codec.fields()[m].wf());
    lemma_decode_bool::<T>(b, codec.fields()[m].width as int);
}

/// The fast-path law: a field that starts and ends on a byte boundary
/// holds its value's little-endian bytes as they are, whatever the bit
/// order: byte `t` of the field is byte `t` of the value.
pub proof fn law_aligned_little_endian(codec: Codec, raws: Seq<u128>, m: int, t: int)
    requires
        codec.wf(),
        0 <= m < codec.fields().len(),
        codec.fields()[m].spec_is_byte_aligned(),
        0 <= t < codec.fields()[m].width / 8,
    ensures
        codec.fields()[m].start_bit / 8 + t < codec.nbytes(),
        packed(codec.fields(), raws, codec.order(), codec.nbytes() as nat, codec.fields().len() as int)[codec.fields()[m].start_bit / 8 + t]
            == le_byte(raws[m], t),
{
    let f = codec.fields()[m];
    let order = codec.order();
    let i = f.start_bit / 8 + t;
    let out = packed(codec.fields(), raws, order, codec.nbytes() as nat, codec.fields().len() as int);
    assert(f.wf());
    assert(f.end_bit() <= spec_total_bits(codec.nbytes()));
    let b = le_byte(raws[m], t);
    assert forall|j: int| 0 <= j < 8 implies #[trigger] bit(out[i] as u128, j) == bit(b as u128, j) by {
        law_packed_bits(codec, raws, i, j);
        assert(owns(f.start_bit as int, f.width as int, order, i, j));
        assert(value_bit(f.start_bit as int, f.width as int, order, i, j) == 8 * t + j);
        lemma_slice_bits(raws[m], 8 * t, j);
    }
    lemma_bytes_equal(out[i], b);
}

/// In a layout that covers the container, every bit position up to the end
/// of field `n - 1` lies in one of the first `n` fields.
proof fn lemma_cover_find(codec: Codec, n: int, p: int) -> (m: int)
    requires
        codec.wf(),
        codec.spec_layout().spec_covers(codec.nbytes()),
        1 <= n <= codec.fields().len(),
        0 <= p < codec.fields()[n - 1].end_bit(),
    ensures
        0 <= m < n,
        codec.fields()[m].start_bit <= p < codec.fields()[m].end_bit(),
    decreases n,
{
    let last = codec.fields()[n - 1];
    if last.start_bit <= p {
        n - 1
    } else {
        assert(n > 1);
        assert(codec.fields()[n - 2].end_bit() == codec.fields()[n - 2 + 1].start_bit);
        lemma_cover_find(codec, n - 1, p)
    }
}

/// The round-trip law for bytes: in a container whose fields leave no bit
/// unused, all of them booleans of one bit or integers no wider than their
/// type, unpacking any bytes and packing the values again gives the same
/// bytes, bit for bit.
pub proof fn law_repack_identity<T>(codec: Codec, bytes: Seq<u8>, values: Seq<FieldValue<T>>)
    requires
        codec.wf(),
        codec.spec_layout().spec_covers(codec.nbytes()),
        forall|m: int| 0 <= m < codec.fields().len() ==> natural_width((#[trigger] codec.fields()[m]).kind, codec.fields()[m].width as int),
        bytes.len() == codec.nbytes(),
        values.len() == codec.fields().len(),
        forall|m: int| 0 <= m < codec.fields().len() ==> spec_decode::<T>(codec.fields()[m].kind, codec.fields()[m].width as int, unpacked(codec.fields(), bytes, codec.order())[m]) == Some(#[trigger] values[m]),
    ensures
        packed(codec.fields(), patterns(values), codec.order(), codec.nbytes() as nat, codec.fields().len() as int) == bytes,
{
    let fields = codec.fields();
    let order = codec.order();
    let raws = patterns(values);
    let out = packed(fields, raws, order, codec.nbytes() as nat, fields.len() as int);
    lemma_packed_len(fields, raws, order, codec.nbytes() as nat, fields.len() as int);
    assert forall|i: int| 0 <= i < bytes.len() implies out[i] == bytes[i] by {
        assert forall|j: int| 0 <= j < 8 implies #[trigger] bit(out[i] as u128, j) == bit(bytes[i] as u128, j) by {
            let n = numbered_bit(order, j);
            let m = lemma_cover_find(codec, fields.len() as int, 8 * i + n);
            let f = fields[m];
            let s = f.start_bit as int;
            let w = f.width as int;
            assert(f.wf());
            lemma_range_is_owned(s, w, order, i, n);
            assert(numbered_bit(order, n) == j);
            law_packed_bits(codec, raws, i, j);
            lemma_owned(s, w, order, i, j);
            let k = value_bit(s, w, order, i, j);
            let g = field_bits(bytes, s, w, order);
            let raw = field_raw(bytes, s, w, order);
            assert(unpacked(fields, bytes, order)[m] == raw);
            lemma_from_bits_masked(w, g);
            lemma_redecode::<T>(f.kind, w, raw);
            assert(values[m] == spec_decode::<T>(f.kind, w, raw)->Some_0);
            assert(raws[m] == pattern_of(values[m]));
            lemma_masked_bit(raws[m], w, k);
            lemma_from_bits_bit(w, g, k);
        }
        lemma_bytes_equal(out[i], bytes[i]);
    }
    assert(out =~= bytes);
}

/// A container of one byte seen as an integer is that byte.
pub proof fn law_single_byte_bridge(bytes: Seq<u8>)
    requires
        bytes.len() == 1,
    ensures
        le_value(bytes) == bytes[0],
{
    let g = le_bits(bytes);
    assert forall|j: int| 0 <= j < 8 implies #[trigger] bit(bytes[0] as u128, j) == g(j) by {}
    lemma_byte_unique(bytes[0], g);
}

/// An integer written as little-endian bytes and read again is the
/// integer's low bytes: `n & ((1 << (8 * len)) - 1)`.
pub proof fn law_le_round_trip(n: u128, len: int)
    requires
        0 <= len <= 16,
    ensures
        le_value(le_bytes(n, len)) == n & low_mask(8 * len),
{
    let bytes = le_bytes(n, len);
    let a = le_bits(bytes);
    let b = bits_of(n);
    assert forall|k: int| 0 <= k < 8 * len implies #[trigger] a(k) == b(k) by {
        lemma_slice_bits(n, 8 * (k / 8), k % 8);
    }
    lemma_from_bits_congruent(8 * len, a, b);
    lemma_from_bits_of(n, 8 * len);
}

/// Bytes read as a little-endian integer and written again are the same
/// bytes.
pub proof fn law_le_bytes_of_value(bytes: Seq<u8>)
    requires
        bytes.len() <= 16,
    ensures
        le_bytes(le_value(bytes), bytes.len() as int) == bytes,
{
    let n = le_value(bytes);
    let out = le_bytes(n, bytes.len() as int);
    assert forall|t: int| 0 <= t < bytes.len() implies out[t] == bytes[t] by {
        assert forall|j: int| 0 <= j < 8 implies #[trigger] bit(out[t] as u128, j) == bit(bytes[t] as u128, j) by {
            lemma_slice_bits(n, 8 * t, j);
            lemma_from_bits_bit(8 * (bytes.len() as int), le_bits(bytes), 8 * t + j);
            assert((8 * t + j) / 8 == t);
            assert((8 * t + j) % 8 == j);
        }
        lemma_bytes_equal(out[t], bytes[t]);
    }
    assert(out =~= bytes);
}

/// The round-trip law for the integer view: in a container whose fields
/// leave no bit unused, all of them booleans of one bit or integers no
/// wider than their type, unpacking an integer and packing the values
/// again gives the integer back, as far as the container holds it.
pub proof fn law_integer_round_trip<T>(codec: Codec, n: u128, values: Seq<FieldValue<T>>)
    requires
        codec.wf(),
        codec.nbytes() <= 16,
        codec.spec_layout().spec_covers(codec.nbytes()),
        forall|m: int| 0 <= m < codec.fields().len() ==> natural_width((#[trigger] codec.fields()[m]).kind, codec.fields()[m].width as int),
        values.len() == codec.fields().len(),
        forall|m: int| 0 <= m < codec.fields().len() ==> spec_decode::<T>(codec.fields()[m].kind, codec.fields()[m].width as int, unpacked(codec.fields(), le_bytes(n, codec.nbytes() as int), codec.order())[m]) == Some(#[trigger] values[m]),
    ensures
        le_value(packed(codec.fields(), patterns(values), codec.order(), codec.nbytes() as nat, codec.fields().len() as int))
            == n & low_mask(8 * codec.nbytes()),
{
    law_repack_identity(codec, le_bytes(n, codec.nbytes() as int), values);
    law_le_round_trip(n, codec.nbytes() as int);
}

} // verus!
