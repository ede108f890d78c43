//! The codec of one container: packing field values into its bytes and
//! unpacking them again, and the view of the bytes as one integer.

use vstd::prelude::*;
use vstd::string::*;
use crate::args::{BitOrder, ContainerOpts};
use crate::codec::{field_raw, from_le_bytes, le_bytes, le_value, read_field, to_le_bytes, write_field, written};
use crate::layout::{FieldKind, FieldSpec, Layout};
use crate::value::{decode, spec_decode, FieldValue};

verus! {

/// A container of `n` clear bytes.
pub open spec fn zeros(n: nat) -> Seq<u8> {
    Seq::new(n, |i: int| 0u8)
}

/// The container after the first `n` fields have been written, in
/// declaration order, into a container of `nbytes` clear bytes.
pub open spec fn packed(fields: Seq<FieldSpec>, raws: Seq<u128>, order: BitOrder, nbytes: nat, n: int) -> Seq<u8>
    decreases n,
{
    if n <= 0 {
        zeros(nbytes)
    } else {
        written(
            packed(fields, raws, order, nbytes, n - 1),
            fields[n - 1].start_bit as int,
            fields[n - 1].width as int,
            order,
            raws[n - 1],
        )
    }
}

/// The bits of each field as they stand in `bytes`.
pub open spec fn unpacked(fields: Seq<FieldSpec>, bytes: Seq<u8>, order: BitOrder) -> Seq<u128> {
    Seq::new(fields.len(), |i: int| field_raw(bytes, fields[i].start_bit as int, fields[i].width as int, order))
}

/// A field's conversion between its custom type and its carrier integer
/// has failed.
#[derive(Clone, Debug, PartialEq, Eq)]
pub struct ConversionError {
    /// The position of the field in declaration order.
    pub field: usize,
    /// The field's name.
    pub name: String,
    /// The field's declared type.
    pub ty: String,
}

impl ConversionError {
    /// Whether the error names field `i` of `fields`.
    pub open spec fn names(self, fields: Seq<FieldSpec>, i: int) -> bool {
        &&& self.field == i
        &&& 0 <= i < fields.len()
        &&& self.name@ == fields[i].ident@
        &&& self.ty@ == fields[i].ty@
    }

    /// The error for field `i`, which is `f`.
    pub fn of_field(i: usize, f: &FieldSpec) -> (e: ConversionError)
        ensures
            e.field == i,
            e.name@ == f.ident@,
            e.ty@ == f.ty@,
    {
        ConversionError { field: i, name: f.ident.clone(), ty: f.ty.clone() }
    }

    /// The error as a sentence: that a conversion failed, and for which type.
    pub fn message(&self) -> (s: String)
        ensures
            s@ == "pack: field conversion failed: "@ + self.ty@,
    {
        let mut s = String::from_str("pack: field conversion failed: ");
        s.append(self.ty.as_str());
        s
    }
}

/// The raw pattern of a boolean or integer value; zero for a custom one.
pub open spec fn pattern_of<T>(v: FieldValue<T>) -> u128 {
    match v.pattern() {
        Some(raw) => raw,
        None => 0,
    }
}

/// The raw patterns of boolean and integer values.
pub open spec fn patterns<T>(values: Seq<FieldValue<T>>) -> Seq<u128> {
    Seq::new(values.len(), |i: int| pattern_of(values[i]))
}

/// Whether `raw` is the pattern of field `i`'s value `v`: its own pattern
/// for a boolean or an integer, and for a custom value a carrier that the
/// conversion `f` may give for it.
pub open spec fn converts<T, F: Fn(usize, &T) -> Option<u128>>(f: F, i: int, v: FieldValue<T>, raw: u128) -> bool {
    match v {
        FieldValue::Opaque(t) => call_ensures(f, (i as usize, &t), Some(raw)),
        _ => v.pattern() == Some(raw),
    }
}

/// Whether the conversion `f` may succeed on field `i`'s value `v`.
pub open spec fn convertible<T, F: Fn(usize, &T) -> Option<u128>>(f: F, i: int, v: FieldValue<T>) -> bool {
    exists|raw: u128| converts(f, i, v, raw)
}

/// Whether the conversion `f` may fail on field `i`'s value `v`.
pub open spec fn refuses<T, F: Fn(usize, &T) -> Option<u128>>(f: F, i: int, v: FieldValue<T>) -> bool {
    match v {
        FieldValue::Opaque(t) => call_ensures(f, (i as usize, &t), None::<u128>),
        _ => false,
    }
}

/// Whether `v` is what the bits `raw` of field `i` mean: the decoded
/// boolean or integer, and for a custom kind a value that the conversion
/// `f` may give for the carrier `raw`.
pub open spec fn decodes<T, F: Fn(usize, u128) -> Option<T>>(f: F, i: int, field: FieldSpec, raw: u128, v: FieldValue<T>) -> bool {
    match field.kind {
        FieldKind::Custom => v matches FieldValue::Opaque(t) && call_ensures(f, (i as usize, raw), Some(t)),
        _ => Some(v) == spec_decode::<T>(field.kind, field.width as int, raw),
    }
}

/// Whether the bits `raw` of field `i` may be given a meaning.
pub open spec fn decodable<T, F: Fn(usize, u128) -> Option<T>>(f: F, i: int, field: FieldSpec, raw: u128) -> bool {
    exists|v: FieldValue<T>| decodes(f, i, field, raw, v)
}

/// Whether the conversion `f` may fail on the carrier `raw` of field `i`.
pub open spec fn rejects<T, F: Fn(usize, u128) -> Option<T>>(f: F, i: int, field: FieldSpec, raw: u128) -> bool {
    field.kind == FieldKind::Custom && call_ensures(f, (i as usize, raw), None::<T>)
}

/// A codec: the options of a container and the layout of its fields.
pub struct Codec {
    opts: ContainerOpts,
    layout: Layout,
}

impl Codec {
    /// The options of the container.
    pub closed spec fn spec_opts(self) -> ContainerOpts {
        self.opts
    }

    /// The layout of the fields.
    pub closed spec fn spec_layout(self) -> Layout {
        self.layout
    }

    /// The placed fields.
    pub open spec fn fields(self) -> Seq<FieldSpec> {
        self.spec_layout().fields@
    }

    /// The container's size in bytes.
    pub open spec fn nbytes(self) -> usize {
        self.spec_opts().bytes_len
    }

    /// The numbering of bits within a byte.
    pub open spec fn order(self) -> BitOrder {
        self.spec_opts().bit_order
    }

    /// The layout fits the container, and an integer view has its size.
    pub open spec fn wf(self) -> bool {
        &&& self.spec_opts().wf()
        &&& self.spec_layout().wf(self.nbytes())
    }

    #[verifier::type_invariant]
    spec fn inv(self) -> bool {
        self.wf()
    }

    /// A codec for a layout that fits the container.
    pub fn new(opts: ContainerOpts, layout: Layout) -> (codec: Codec)
        requires
            opts.wf(),
            layout.wf(opts.bytes_len),
        ensures
            codec.spec_opts() == opts,
            codec.spec_layout() == layout,
            codec.wf(),
    {
        Codec { opts, layout }
    }

    /// The options of the container.
    pub fn opts(&self) -> (r: &ContainerOpts)
        ensures
            *r == self.spec_opts(),
            self.wf(),
    {
        proof {
            use_type_invariant(self);
        }
        &self.opts
    }

    /// The layout of the fields.
    pub fn layout(&self) -> (r: &Layout)
        ensures
            *r == self.spec_layout(),
            self.wf(),
    {
        proof {
            use_type_invariant(self);
        }
        &self.layout
    }

    /// Writes the low bits of each number into its field, in declaration
    /// order, starting from a container of clear bytes.
    pub fn pack_raw(&self, raws: &Vec<u128>) -> (bytes: Vec<u8>)
        requires
            raws.len() == self.fields().len(),
        ensures
            bytes@ == packed(self.fields(), raws@, self.order(), self.nbytes() as nat, self.fields().len() as int),
            bytes.len() == self.nbytes(),
    {
        proof {
            use_type_invariant(self);
        }
        let nbytes = self.opts.bytes_len;
        let order = self.opts.bit_order;
        let mut bytes: Vec<u8> = Vec::new();
        let mut b: usize = 0;
        while b < nbytes
            invariant
                b <= nbytes,
                bytes.len() == b,
                forall|i: int| 0 <= i < b ==> bytes[i] == 0u8,
            decreases nbytes - b,
        {
            bytes.push(0u8);
            b += 1;
        }
        assert(bytes@ =~= zeros(nbytes as nat));
        let mut n: usize = 0;
        while n < self.layout.fields.len()
            invariant
                n <= self.layout.fields.len(),
                self.wf(),
                nbytes == self.nbytes(),
                order == self.order(),
                self.layout == self.spec_layout(),
                raws.len() == self.fields().len(),
                bytes.len() == nbytes,
                bytes@ == packed(self.fields(), raws@, order, nbytes as nat, n as int),
            decreases self.layout.fields.len() - n,
        {
            write_field(&mut bytes, &self.layout.fields[n], order, raws[n]);
            n += 1;
        }
        bytes
    }

    /// Reads the bits of each field out of the container.
    pub fn unpack_raw(&self, bytes: &[u8]) -> (raws: Vec<u128>)
        requires
            bytes.len() == self.nbytes(),
        ensures
            raws@ == unpacked(self.fields(), bytes@, self.order()),
    {
        proof {
            use_type_invariant(self);
        }
        let order = self.opts.bit_order;
        let mut raws: Vec<u128> = Vec::new();
        let mut n: usize = 0;
        while n < self.layout.fields.len()
            invariant
                n <= self.layout.fields.len(),
                self.wf(),
                bytes.len() == self.nbytes(),
                order == self.order(),
                self.layout == self.spec_layout(),
                raws.len() == n,
                forall|i: int| 0 <= i < n ==> raws[i] == unpacked(self.fields(), bytes@, order)[i],
            decreases self.layout.fields.len() - n,
        {
            let raw = read_field(bytes, &self.layout.fields[n], order);
            raws.push(raw);
            n += 1;
        }
        assert(raws@ =~= unpacked(self.fields(), bytes@, order));
        raws
    }

    /// Whether `values` has one value for each field, a custom value
    /// exactly where the field is of a custom kind.
    pub open spec fn spec_conforms<T>(self, values: Seq<FieldValue<T>>) -> bool {
        &&& values.len() == self.fields().len()
        &&& forall|i: int| 0 <= i < values.len() ==> ((#[trigger] values[i]) is Opaque) == (self.fields()[i].kind == FieldKind::Custom)
    }

    /// Whether `values` has one value for each field, a custom value
    /// exactly where the field is of a custom kind.
    pub fn conforms<T>(&self, values: &Vec<FieldValue<T>>) -> (r: bool)
        ensures
            r == self.spec_conforms(values@),
    {
        if values.len() != self.layout.fields.len() {
            return false;
        }
        let mut i: usize = 0;
        while i < values.len()
            invariant
                i <= values.len(),
                values.len() == self.layout.fields.len(),
                self.layout == self.spec_layout(),
                forall|k: int| 0 <= k < i ==> ((#[trigger] values[k]) is Opaque) == (self.fields()[k].kind == FieldKind::Custom),
            decreases values.len() - i,
        {
            let is_opaque = match &values[i] {
                FieldValue::Opaque(_) => true,
                _ => false,
            };
            let is_custom = match self.layout.fields[i].kind {
                FieldKind::Custom => true,
                _ => false,
            };
            if is_opaque != is_custom {
                return false;
            }
            i += 1;
        }
        true
    }

    /// Whether a conversion can fail: whether a field is of a custom kind.
    pub fn fallible(&self) -> (r: bool)
        ensures
            r == self.spec_layout().fallible,
            self.wf(),
    {
        proof {
            use_type_invariant(self);
        }
        self.layout.fallible
    }

    /// The raw pattern of each value: its own for a boolean or an integer,
    /// and what `to_carrier` makes of it for a custom value. The first
    /// custom value that `to_carrier` refuses ends the work with the error
    /// of its field.
    pub fn raw_values<T, F: Fn(usize, &T) -> Option<u128>>(&self, values: &Vec<FieldValue<T>>, to_carrier: F) -> (r: Result<Vec<u128>, ConversionError>)
        requires
            self.spec_conforms(values@),
            forall|i: usize, t: &T| call_requires(to_carrier, (i, t)),
        ensures
            match r {
                Ok(raws) => {
                    &&& raws.len() == values.len()
                    &&& forall|i: int| 0 <= i < values.len() ==> converts(to_carrier, i, values[i], #[trigger] raws[i])
                },
                Err(e) => {
                    &&& e.names(self.fields(), e.field as int)
                    &&& refuses(to_carrier, e.field as int, values[e.field as int])
                    &&& forall|j: int| 0 <= j < e.field ==> convertible(to_carrier, j, #[trigger] values[j])
                },
            },
            !self.spec_layout().fallible ==> r is Ok,
    {
        proof {
            use_type_invariant(self);
        }
        let mut raws: Vec<u128> = Vec::new();
        let mut i: usize = 0;
        while i < values.len()
            invariant
                i <= values.len(),
                self.wf(),
                self.spec_conforms(values@),
                self.layout == self.spec_layout(),
                forall|i: usize, t: &T| call_requires(to_carrier, (i, t)),
                raws.len() == i,
                forall|k: int| 0 <= k < i ==> converts(to_carrier, k, values[k], #[trigger] raws[k]),
            decreases values.len() - i,
        {
            let ghost before = raws@;
            let raw: u128 = match &values[i] {
                FieldValue::Opaque(t) => {
                    match to_carrier(i, t) {
                        Some(raw) => raw,
                        None => {
                            proof {
                                assert(self.fields()[i as int].kind == FieldKind::Custom);
                                assert forall|j: int| 0 <= j < i implies convertible(to_carrier, j, #[trigger] values[j]) by {
                                    assert(converts(to_carrier, j, values[j], raws[j]));
                                }
                            }
                            return Err(ConversionError::of_field(i, &self.layout.fields[i]));
                        },
                    }
                },
                v => {
                    match v.raw() {
                        Some(raw) => raw,
                        None => 0,
                    }
                },
            };
            raws.push(raw);
            proof {
                assert forall|k: int| 0 <= k < i + 1 implies converts(to_carrier, k, values[k], #[trigger] raws[k]) by {
                    if k < i {
                        assert(raws[k] == before[k]);
                    }
                }
            }
            i += 1;
        }
        Ok(raws)
    }

    /// The values that the bits of the fields mean: the decoded boolean or
    /// integer, and for a custom kind what `from_carrier` makes of the
    /// bits. The first field whose bits `from_carrier` refuses ends the
    /// work with the error of that field.
    pub fn decode_values<T, F: Fn(usize, u128) -> Option<T>>(&self, raws: &Vec<u128>, from_carrier: F) -> (r: Result<Vec<FieldValue<T>>, ConversionError>)
        requires
            raws.len() == self.fields().len(),
            forall|i: usize, raw: u128| call_requires(from_carrier, (i, raw)),
        ensures
            match r {
                Ok(values) => {
                    &&& values.len() == raws.len()
                    &&& forall|i: int| 0 <= i < raws.len() ==> decodes(from_carrier, i, self.fields()[i], raws[i], #[trigger] values[i])
                    &&& self.spec_conforms(values@)
                },
                Err(e) => {
                    &&& e.names(self.fields(), e.field as int)
                    &&& rejects(from_carrier, e.field as int, self.fields()[e.field as int], raws[e.field as int])
                    &&& forall|j: int| 0 <= j < e.field ==> decodable(from_carrier, j, self.fields()[j], #[trigger] raws[j])
                },
            },
            !self.spec_layout().fallible ==> r is Ok,
    {
        proof {
            use_type_invariant(self);
        }
        let mut values: Vec<FieldValue<T>> = Vec::new();
        let mut i: usize = 0;
        while i < raws.len()
            invariant
                i <= raws.len(),
                self.wf(),
                raws.len() == self.fields().len(),
                self.layout == self.spec_layout(),
                forall|i: usize, raw: u128| call_requires(from_carrier, (i, raw)),
                values.len() == i,
                forall|k: int| 0 <= k < i ==> decodes(from_carrier, k, self.fields()[k], raws[k], #[trigger] values[k]),
                forall|k: int| 0 <= k < i ==> ((#[trigger] values[k]) is Opaque) == (self.fields()[k].kind == FieldKind::Custom),
            decreases raws.len() - i,
        {
            let ghost before = values@;
            let f = &self.layout.fields[i];
            let v: FieldValue<T> = match decode::<T>(f.kind, f.width, raws[i]) {
                Some(v) => v,
                None => {
                    match from_carrier(i, raws[i]) {
                        Some(t) => FieldValue::Opaque(t),
                        None => {
                            proof {
                                assert forall|j: int| 0 <= j < i implies decodable(from_carrier, j, self.fields()[j], #[trigger] raws[j]) by {
                                    assert(decodes(from_carrier, j, self.fields()[j], raws[j], values[j]));
                                }
                            }
                            return Err(ConversionError::of_field(i, f));
                        },
                    }
                },
            };
            values.push(v);
            proof {
                assert forall|k: int| 0 <= k < i + 1 implies decodes(from_carrier, k, self.fields()[k], raws[k], #[trigger] values[k]) by {
                    if k < i {
                        assert(values[k] == before[k]);
                    }
                }
                assert forall|k: int| 0 <= k < i + 1 implies ((#[trigger] values[k]) is Opaque) == (self.fields()[k].kind == FieldKind::Custom) by {
                    if k < i {
                        assert(values[k] == before[k]);
                    }
                }
            }
            i += 1;
        }
        Ok(values)
    }

    /// Whether `bytes` is what packing `values` gives when the custom
    /// values convert to the carriers in `raws`.
    pub open spec fn packs<T, F: Fn(usize, &T) -> Option<u128>>(self, to_carrier: F, values: Seq<FieldValue<T>>, raws: Seq<u128>, bytes: Seq<u8>) -> bool {
        &&& raws.len() == values.len()
        &&& forall|i: int| 0 <= i < values.len() ==> converts(to_carrier, i, values[i], #[trigger] raws[i])
        &&& bytes == packed(self.fields(), raws, self.order(), self.nbytes() as nat, self.fields().len() as int)
    }

    /// Whether packing `values` may give `bytes`.
    pub open spec fn may_pack<T, F: Fn(usize, &T) -> Option<u128>>(self, to_carrier: F, values: Seq<FieldValue<T>>, bytes: Seq<u8>) -> bool {
        exists|raws: Seq<u128>| self.packs(to_carrier, values, raws, bytes)
    }

    /// Packs `values` into the container's bytes.
    ///
    /// The container starts out clear. Each field, in declaration order,
    /// takes the low bits of its value's pattern, as many as the field is
    /// wide; bits that belong to no field stay clear. A custom value gets
    /// its pattern from `to_carrier`, which is handed the field's position
    /// and the value; the first custom value that `to_carrier` refuses ends
    /// the packing with the error of its field, and no bytes are returned.
    pub fn try_pack<T, F: Fn(usize, &T) -> Option<u128>>(&self, values: &Vec<FieldValue<T>>, to_carrier: F) -> (r: Result<Vec<u8>, ConversionError>)
        requires
            self.spec_conforms(values@),
            forall|i: usize, t: &T| call_requires(to_carrier, (i, t)),
        ensures
            match r {
                Ok(bytes) => self.may_pack(to_carrier, values@, bytes@) && bytes.len() == self.nbytes(),
                Err(e) => {
                    &&& e.names(self.fields(), e.field as int)
                    &&& refuses(to_carrier, e.field as int, values[e.field as int])
                    &&& forall|j: int| 0 <= j < e.field ==> convertible(to_carrier, j, #[trigger] values[j])
                },
            },
            !self.spec_layout().fallible ==> r is Ok,
    {
        match self.raw_values(values, to_carrier) {
            Ok(raws) => {
                let bytes = self.pack_raw(&raws);
                assert(self.packs(to_carrier, values@, raws@, bytes@));
                Ok(bytes)
            },
            Err(e) => Err(e),
        }
    }

    /// Packs the values of a container without custom fields into its bytes.
    ///
    /// The container starts out clear. Each field, in declaration order,
    /// takes the low bits of its value's pattern, as many as the field is
    /// wide; bits that belong to no field stay clear.
    pub fn pack<T>(&self, values: &Vec<FieldValue<T>>) -> (bytes: Vec<u8>)
        requires
            self.spec_conforms(values@),
            !self.spec_layout().fallible,
        ensures
            bytes@ == packed(self.fields(), patterns(values@), self.order(), self.nbytes() as nat, self.fields().len() as int),
            bytes.len() == self.nbytes(),
    {
        let mut raws: Vec<u128> = Vec::new();
        let mut i: usize = 0;
        while i < values.len()
            invariant
                i <= values.len(),
                raws.len() == i,
                forall|k: int| 0 <= k < i ==> raws[k] == pattern_of(values[k]),
            decreases values.len() - i,
        {
            let raw = match values[i].raw() {
                Some(raw) => raw,
                None => 0,
            };
            raws.push(raw);
            i += 1;
        }
        assert(raws@ =~= patterns(values@));
        self.pack_raw(&raws)
    }

    /// Unpacks the container's bytes into the values of its fields.
    ///
    /// Each field's bits are read and given their meaning: a boolean is
    /// set unless all its bits are clear, an unsigned integer is the bits
    /// themselves, a signed integer is sign-extended from the field's
    /// highest bit. The bits of a custom field go to `from_carrier`
    /// together with the field's position; the first field whose bits
    /// `from_carrier` refuses ends the unpacking with the error of that
    /// field, and no values are returned.
    pub fn try_unpack<T, F: Fn(usize, u128) -> Option<T>>(&self, bytes: &[u8], from_carrier: F) -> (r: Result<Vec<FieldValue<T>>, ConversionError>)
        requires
            bytes.len() == self.nbytes(),
            forall|i: usize, raw: u128| call_requires(from_carrier, (i, raw)),
        ensures
            match r {
                Ok(values) => {
                    &&& values.len() == self.fields().len()
                    &&& forall|i: int| 0 <= i < values.len() ==> decodes(from_carrier, i, self.fields()[i], unpacked(self.fields(), bytes@, self.order())[i], #[trigger] values[i])
                    &&& self.spec_conforms(values@)
                },
                Err(e) => {
                    &&& e.names(self.fields(), e.field as int)
                    &&& rejects(from_carrier, e.field as int, self.fields()[e.field as int], unpacked(self.fields(), bytes@, self.order())[e.field as int])
                    &&& forall|j: int| 0 <= j < e.field ==> decodable(from_carrier, j, #[trigger] self.fields()[j], unpacked(self.fields(), bytes@, self.order())[j])
                },
            },
            !self.spec_layout().fallible ==> r is Ok,
    {
        let raws = self.unpack_raw(bytes);
        self.decode_values(&raws, from_carrier)
    }

    /// Unpacks the bytes of a container without custom fields into the
    /// values of its fields: a boolean is set unless all its bits are
    /// clear, an unsigned integer is the bits themselves, a signed integer
    /// is sign-extended from the field's highest bit.
    pub fn unpack<T>(&self, bytes: &[u8]) -> (values: Vec<FieldValue<T>>)
        requires
            bytes.len() == self.nbytes(),
            !self.spec_layout().fallible,
        ensures
            values.len() == self.fields().len(),
            forall|i: int| 0 <= i < values.len() ==> spec_decode::<T>(self.fields()[i].kind, self.fields()[i].width as int, unpacked(self.fields(), bytes@, self.order())[i]) == Some(#[trigger] values[i]),
            self.spec_conforms(values@),
    {
        let never = |i: usize, raw: u128| -> (r: Option<T>) { None };
        match self.try_unpack(bytes, never) {
            Ok(values) => {
                proof {
                    use_type_invariant(self);
                    assert forall|i: int| 0 <= i < values.len() implies spec_decode::<T>(self.fields()[i].kind, self.fields()[i].width as int, unpacked(self.fields(), bytes@, self.order())[i]) == Some(#[trigger] values[i]) by {
                        assert(decodes(never, i, self.fields()[i], unpacked(self.fields(), bytes@, self.order())[i], values[i]));
                        assert(self.fields()[i].kind != FieldKind::Custom);
                    }
                }
                values
            },
            Err(_) => {
                proof {
                    assert(false);
                }
                Vec::new()
            },
        }
    }

    /// Packs `values` and reads the bytes as one little-endian integer,
    /// whatever the bit order within the bytes.
    pub fn try_to_integer<T, F: Fn(usize, &T) -> Option<u128>>(&self, values: &Vec<FieldValue<T>>, to_carrier: F) -> (r: Result<u128, ConversionError>)
        requires
            self.spec_opts().spec_has_integer(),
            self.spec_conforms(values@),
            forall|i: usize, t: &T| call_requires(to_carrier, (i, t)),
        ensures
            match r {
                Ok(n) => exists|bytes: Seq<u8>| #[trigger] self.may_pack(to_carrier, values@, bytes) && n == le_value(bytes),
                Err(e) => {
                    &&& e.names(self.fields(), e.field as int)
                    &&& refuses(to_carrier, e.field as int, values[e.field as int])
                    &&& forall|j: int| 0 <= j < e.field ==> convertible(to_carrier, j, #[trigger] values[j])
                },
            },
            !self.spec_layout().fallible ==> r is Ok,
    {
        proof {
            use_type_invariant(self);
        }
        match self.try_pack(values, to_carrier) {
            Ok(bytes) => Ok(from_le_bytes(bytes.as_slice())),
            Err(e) => Err(e),
        }
    }

    /// Packs the values of a container without custom fields and reads the
    /// bytes as one little-endian integer, whatever the bit order within
    /// the bytes.
    pub fn to_integer<T>(&self, values: &Vec<FieldValue<T>>) -> (n: u128)
        requires
            self.spec_opts().spec_has_integer(),
            self.spec_conforms(values@),
            !self.spec_layout().fallible,
        ensures
            n == le_value(packed(self.fields(), patterns(values@), self.order(), self.nbytes() as nat, self.fields().len() as int)),
    {
        proof {
            use_type_invariant(self);
        }
        let bytes = self.pack(values);
        from_le_bytes(bytes.as_slice())
    }

    /// Unpacks the little-endian bytes of `n`, as many as the container
    /// has, whatever the bit order within the bytes.
    pub fn try_from_integer<T, F: Fn(usize, u128) -> Option<T>>(&self, n: u128, from_carrier: F) -> (r: Result<Vec<FieldValue<T>>, ConversionError>)
        requires
            self.spec_opts().spec_has_integer(),
            forall|i: usize, raw: u128| call_requires(from_carrier, (i, raw)),
        ensures
            match r {
                Ok(values) => {
                    &&& values.len() == self.fields().len()
                    &&& forall|i: int| 0 <= i < values.len() ==> decodes(from_carrier, i, self.fields()[i], unpacked(self.fields(), le_bytes(n, self.nbytes() as int), self.order())[i], #[trigger] values[i])
                    &&& self.spec_conforms(values@)
                },
                Err(e) => {
                    &&& e.names(self.fields(), e.field as int)
                    &&& rejects(from_carrier, e.field as int, self.fields()[e.field as int], unpacked(self.fields(), le_bytes(n, self.nbytes() as int), self.order())[e.field as int])
                    &&& forall|j: int| 0 <= j < e.field ==> decodable(from_carrier, j, #[trigger] self.fields()[j], unpacked(self.fields(), le_bytes(n, self.nbytes() as int), self.order())[j])
                },
            },
            !self.spec_layout().fallible ==> r is Ok,
    {
        proof {
            use_type_invariant(self);
        }
        let bytes = to_le_bytes(n, self.opts.bytes_len);
        self.try_unpack(bytes.as_slice(), from_carrier)
    }

    /// Unpacks the little-endian bytes of `n`, as many as the container
    /// has, for a container without custom fields.
    pub fn from_integer<T>(&self, n: u128) -> (values: Vec<FieldValue<T>>)
        requires
            self.spec_opts().spec_has_integer(),
            !self.spec_layout().fallible,
        ensures
            values.len() == self.fields().len(),
            forall|i: int| 0 <= i < values.len() ==> spec_decode::<T>(self.fields()[i].kind, self.fields()[i].width as int, unpacked(self.fields(), le_bytes(n, self.nbytes() as int), self.order())[i]) == Some(#[trigger] values[i]),
            self.spec_conforms(values@),
    {
        proof {
            use_type_invariant(self);
        }
        let bytes = to_le_bytes(n, self.opts.bytes_len);
        self.unpack(bytes.as_slice())
    }
}

} // verus!
