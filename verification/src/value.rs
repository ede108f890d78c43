//! Field values and their raw bit patterns.
//!
//! A field stores the low `width` bits of its value's two's-complement
//! pattern. Reading gives those bits back as a number below `1 << width`;
//! what that number means depends on the field's kind.

use vstd::prelude::*;
use crate::bits::{bit, lemma_masked_bit, low_mask, width_mask};
use crate::layout::FieldKind;

verus! {

/// The value of one field. `T` is the caller's type for the fields of a
/// custom kind.
#[derive(Clone, Copy, Debug, PartialEq, Eq)]
pub enum FieldValue<T> {
    /// A boolean field.
    Bool(bool),
    /// An unsigned integer field.
    Unsigned(u128),
    /// A signed integer field.
    Signed(i128),
    /// A field of a custom kind.
    Opaque(T),
}

/// `2` to the power `m`, for `m` in `0..=128`.
pub open spec fn span(m: int) -> int {
    if m >= 128 {
        0x1_0000_0000_0000_0000_0000_0000_0000_0000int
    } else {
        (1u128 << (m as u128)) as int
    }
}

/// The number that the low `m` bits of `raw` stand for in two's
/// complement: bit `m - 1` is the sign.
pub open spec fn signed_value(raw: u128, m: int) -> int {
    let low = raw & low_mask(m);
    if bit(raw, m - 1) {
        low - span(m)
    } else {
        low as int
    }
}

proof fn lemma_sign_split(raw: u128, m: u128)
    by (bit_vector)
    requires
        1 <= m < 128,
    ensures
        ({
            let low = raw & (((1u128 << m) - 1) as u128);
            let half = 1u128 << ((m - 1) as u128);
            &&& low < (1u128 << m)
            &&& half <= 0x4000_0000_0000_0000_0000_0000_0000_0000u128
            &&& (1u128 << m) == 2 * half
            &&& ((raw >> ((m - 1) as u128)) & 1 == 1) == (low >= half)
            &&& ((raw >> ((m - 1) as u128)) & 1 == 1) == ((low >> ((m - 1) as u128)) & 1 == 1)
        }),
{
}

proof fn lemma_reinterpret(x: u128)
    by (bit_vector)
    ensures
        (x as i128) as int == (if (x >> 127) & 1 == 1 {
            x - 0x1_0000_0000_0000_0000_0000_0000_0000_0000int
        } else {
            x as int
        }),
{
}

proof fn lemma_pattern_of_signed(x: i128, m: u128)
    by (bit_vector)
    requires
        1 <= m < 128,
        -((1u128 << ((m - 1) as u128)) as int) <= x,
        x < (1u128 << ((m - 1) as u128)) as int,
    ensures
        ({
            let low = (x as u128) & (((1u128 << m) - 1) as u128);
            &&& (((x as u128) >> ((m - 1) as u128)) & 1 == 1) == (x < 0)
            &&& x < 0 ==> low - (1u128 << m) == x
            &&& x >= 0 ==> low == x
        }),
{
}

proof fn lemma_mask_ends(x: u128)
    by (bit_vector)
    ensures
        x & 0 == 0,
        x & 0xffff_ffff_ffff_ffff_ffff_ffff_ffff_ffffu128 == x,
{
}

impl<T> FieldValue<T> {
    /// The two's-complement pattern of a boolean or integer value: `0` or
    /// `1` for a boolean, the number itself for an unsigned integer, the
    /// number modulo `2^128` for a signed one. A custom value has none of
    /// its own: its owner's conversion gives it one.
    pub open spec fn pattern(self) -> Option<u128> {
        match self {
            FieldValue::Bool(b) => Some(if b { 1u128 } else { 0u128 }),
            FieldValue::Unsigned(x) => Some(x),
            FieldValue::Signed(x) => Some(x as u128),
            FieldValue::Opaque(_) => None,
        }
    }

    /// The two's-complement pattern of a boolean or integer value; `None`
    /// for a custom value.
    pub fn raw(&self) -> (r: Option<u128>)
        ensures
            r == self.pattern(),
    {
        match self {
            FieldValue::Bool(b) => Some(if *b { 1u128 } else { 0u128 }),
            FieldValue::Unsigned(x) => Some(*x),
            FieldValue::Signed(x) => Some(#[verifier::truncate] (*x as u128)),
            FieldValue::Opaque(_) => None,
        }
    }
}

/// The width in bits of the narrowest unsigned integer type that holds
/// `width` bits.
pub open spec fn spec_carrier_bits(width: int) -> int {
    if 1 <= width <= 8 {
        8
    } else if 9 <= width <= 16 {
        16
    } else if 17 <= width <= 32 {
        32
    } else if 33 <= width <= 64 {
        64
    } else {
        128
    }
}

/// The carrier of a field of `width` bits: the width in bits of the
/// narrowest unsigned integer type that holds the field, and the mask that
/// keeps the field's bits.
pub fn carriers(width: u16) -> (r: (u16, u128))
    ensures
        r.0 == spec_carrier_bits(width as int),
        r.1 == low_mask(width as int),
{
    let bits: u16 = if 1 <= width && width <= 8 {
        8
    } else if 9 <= width && width <= 16 {
        16
    } else if 17 <= width && width <= 32 {
        32
    } else if 33 <= width && width <= 64 {
        64
    } else {
        128
    };
    (bits, width_mask(width))
}

/// The number of low bits that carry a signed field's value when the
/// field is `width` bits wide and its type `target_bits`: the lesser of the
/// two, and never more than 128.
pub open spec fn spec_signed_bits(width: int, target_bits: int) -> int {
    let m = if width < target_bits { width } else { target_bits };
    if m > 128 { 128 } else { m }
}

/// Reads the low bits of `raw` as a two's-complement number: the sign is
/// the highest bit of the field, or of its type where the field is wider
/// than its type.
pub fn signed_conversion(raw: u128, width: u32, target_bits: u32) -> (v: i128)
    ensures
        v == signed_value(raw, spec_signed_bits(width as int, target_bits as int)),
{
    let m0: u32 = if width < target_bits { width } else { target_bits };
    let m: u32 = if m0 > 128 { 128 } else { m0 };
    if m == 0 {
        proof {
            lemma_mask_ends(raw);
        }
        return 0;
    }
    if m == 128 {
        proof {
            lemma_mask_ends(raw);
            lemma_reinterpret(raw);
        }
        return #[verifier::truncate] (raw as i128);
    }
    let low: u128 = raw & width_mask(m as u16);
    proof {
        lemma_sign_split(raw, m as u128);
    }
    let half: u128 = 1u128 << (m - 1);
    assert(half == 1u128 << ((m - 1) as u128));
    if low >= half {
        let mag: u128 = half - (low - half);
        -(mag as i128)
    } else {
        low as i128
    }
}

/// What the bits `raw` of a field of `width` bits mean for a boolean or
/// integer kind: a boolean is set unless all bits are clear; an unsigned
/// integer is the bits that its type holds; a signed integer is the
/// two's-complement reading of its bits. A custom kind has no meaning of
/// its own.
pub open spec fn spec_decode<T>(kind: FieldKind, width: int, raw: u128) -> Option<FieldValue<T>> {
    match kind {
        FieldKind::Bool => Some(FieldValue::Bool(raw != 0)),
        FieldKind::Int { signed: false, bytes } => Some(FieldValue::Unsigned(raw & low_mask(8 * bytes))),
        FieldKind::Int { signed: true, bytes } => Some(FieldValue::Signed(signed_value(raw, spec_signed_bits(width, 8 * bytes)) as i128)),
        FieldKind::Custom => None,
    }
}

/// Gives the bits `raw` of a field their meaning for a boolean or integer
/// kind; `None` for a custom kind.
pub fn decode<T>(kind: FieldKind, width: u16, raw: u128) -> (r: Option<FieldValue<T>>)
    ensures
        r == spec_decode::<T>(kind, width as int, raw),
{
    match kind {
        FieldKind::Bool => Some(FieldValue::Bool(raw != 0)),
        FieldKind::Int { signed: false, bytes } => Some(FieldValue::Unsigned(raw & width_mask(bytes as u16 * 8))),
        FieldKind::Int { signed: true, bytes } => Some(FieldValue::Signed(signed_conversion(raw, width as u32, bytes as u32 * 8))),
        FieldKind::Custom => None,
    }
}

proof fn lemma_unsigned_step(x: u128, w: u128, t: u128)
    by (bit_vector)
    requires
        w <= 128,
        t <= 128,
    ensures
        ({
            let mw = if w >= 128 { 0xffff_ffff_ffff_ffff_ffff_ffff_ffff_ffffu128 } else if w == 0 { 0u128 } else { ((1u128 << w) - 1) as u128 };
            let mt = if t >= 128 { 0xffff_ffff_ffff_ffff_ffff_ffff_ffff_ffffu128 } else if t == 0 { 0u128 } else { ((1u128 << t) - 1) as u128 };
            &&& x <= mt ==> (x & mw) & mt == x & mw
            &&& w <= t ==> (x & mw) & mt == x & mw
            &&& (x & mw) & mw == x & mw
            &&& w >= 1 ==> 1u128 & mw == 1
            &&& 0u128 & mw == 0
            &&& w == 1 && x & mw == x ==> x == 0 || x == 1
        }),
{
}

proof fn lemma_signed_top(x: i128)
    by (bit_vector)
    ensures
        (((x as u128) >> 127) & 1 == 1) == (x < 0),
        x < 0 ==> (x as u128) - 0x1_0000_0000_0000_0000_0000_0000_0000_0000int == x,
        x >= 0 ==> (x as u128) == x,
{
}

proof fn lemma_signed_back(raw: u128, m: u128)
    by (bit_vector)
    requires
        1 <= m < 128,
        raw & (((1u128 << m) - 1) as u128) == raw,
    ensures
        ({
            let v: int = if (raw >> ((m - 1) as u128)) & 1 == 1 { raw - (1u128 << m) } else { raw as int };
            &&& -0x4000_0000_0000_0000_0000_0000_0000_0000int <= v < 0x4000_0000_0000_0000_0000_0000_0000_0000int
            &&& ((v as i128) as u128) & (((1u128 << m) - 1) as u128) == raw
        }),
{
}

proof fn lemma_signed_back_top(raw: u128)
    by (bit_vector)
    ensures
        ({
            let v: int = if (raw >> 127) & 1 == 1 { raw - 0x1_0000_0000_0000_0000_0000_0000_0000_0000int } else { raw as int };
            &&& -0x8000_0000_0000_0000_0000_0000_0000_0000int <= v < 0x8000_0000_0000_0000_0000_0000_0000_0000int
            &&& (v as i128) as u128 == raw
        }),
{
}

/// The largest number that an unsigned integer of `bytes` bytes holds.
pub open spec fn unsigned_max(bytes: u8) -> u128 {
    low_mask(8 * bytes)
}

/// Whether `x` is a number that a signed integer of `bits` bits holds.
pub open spec fn signed_fits(x: int, bits: int) -> bool {
    -span(bits - 1) <= x < span(bits - 1)
}

/// Whether a field of `width` bits is no wider than its kind's values: one
/// bit for a boolean, at most the type's width for an integer.
pub open spec fn natural_width(kind: FieldKind, width: int) -> bool {
    match kind {
        FieldKind::Bool => width == 1,
        FieldKind::Int { bytes, .. } => 1 <= width <= 8 * bytes,
        FieldKind::Custom => false,
    }
}

/// A boolean comes back as it was packed, whatever the field's width.
pub proof fn lemma_decode_bool<T>(b: bool, width: int)
    requires
        1 <= width <= 128,
    ensures
        spec_decode::<T>(FieldKind::Bool, width, FieldValue::<T>::Bool(b).pattern()->Some_0 & low_mask(width)) == Some(FieldValue::<T>::Bool(b)),
{
    lemma_unsigned_step(0, width as u128, 0);
}

/// An unsigned integer comes back masked to the field's width:
/// `x & ((1 << width) - 1)`, for every `x` that the field's type holds.
pub proof fn lemma_decode_unsigned<T>(x: u128, width: int, bytes: u8)
    requires
        1 <= width <= 128,
        1 <= bytes <= 16,
        x <= unsigned_max(bytes),
    ensures
        spec_decode::<T>(FieldKind::Int { signed: false, bytes }, width, x & low_mask(width)) == Some(FieldValue::<T>::Unsigned(x & low_mask(width))),
{
    lemma_unsigned_step(x, width as u128, (8 * bytes) as u128);
}

/// A signed integer that fits the field's width comes back as it was
/// packed: the field keeps its low bits, and unpacking extends the sign.
pub proof fn lemma_decode_signed<T>(x: i128, width: int, bytes: u8)
    requires
        1 <= width <= 8 * bytes <= 128,
        signed_fits(x as int, width),
    ensures
        spec_decode::<T>(FieldKind::Int { signed: true, bytes }, width, (x as u128) & low_mask(width)) == Some(FieldValue::<T>::Signed(x)),
{
    let raw = (x as u128) & low_mask(width);
    lemma_unsigned_step(x as u128, width as u128, 0);
    lemma_masked_bit(x as u128, width, width - 1);
    if width < 128 {
        lemma_pattern_of_signed(x, width as u128);
    } else {
        lemma_signed_top(x);
        lemma_mask_ends(x as u128);
    }
}

/// Decoding the bits of a field of natural width and taking the pattern
/// of what comes out gives the same bits again.
pub proof fn lemma_redecode<T>(kind: FieldKind, width: int, raw: u128)
    requires
        kind.wf(),
        natural_width(kind, width),
        raw & low_mask(width) == raw,
    ensures
        spec_decode::<T>(kind, width, raw) is Some,
        spec_decode::<T>(kind, width, raw)->Some_0.pattern() is Some,
        spec_decode::<T>(kind, width, raw)->Some_0.pattern()->Some_0 & low_mask(width) == raw,
{
    match kind {
        FieldKind::Bool => {
            lemma_unsigned_step(raw, 1, 0);
        },
        FieldKind::Int { signed: false, bytes } => {
            lemma_unsigned_step(raw, width as u128, (8 * bytes) as u128);
        },
        FieldKind::Int { signed: true, bytes } => {
            if width < 128 {
                lemma_signed_back(raw, width as u128);
            } else {
                lemma_signed_back_top(raw);
                lemma_mask_ends(raw);
                let v = signed_value(raw, 128);
                lemma_mask_ends((v as i128) as u128);
            }
        },
        FieldKind::Custom => {},
    }
}

} // verus!
