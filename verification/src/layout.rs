//! Field kinds, field declarations, and the planner that places declared
//! fields on a bit cursor.

use vstd::prelude::*;
use vstd::string::*;
use crate::attrs::Attrs;
use crate::text::{decimal, decimal_digits, str_eq, string_of};

verus! {

/// What a field holds, as far as the codec needs to know.
#[derive(Copy, Clone, Debug, PartialEq, Eq, Structural)]
pub enum FieldKind {
    /// A boolean.
    Bool,
    /// A native integer of `bytes` bytes.
    Int { signed: bool, bytes: u8 },
    /// Any other type: it converts to and from a carrier integer by a
    /// conversion that its owner supplies, and that may fail.
    Custom,
}

impl FieldKind {
    /// The kind that a declared type name stands for.
    pub open spec fn spec_from_type(ty: Seq<char>) -> FieldKind {
        if ty == "bool"@ {
            FieldKind::Bool
        } else if ty == "u8"@ {
            FieldKind::Int { signed: false, bytes: 1 }
        } else if ty == "i8"@ {
            FieldKind::Int { signed: true, bytes: 1 }
        } else if ty == "u16"@ {
            FieldKind::Int { signed: false, bytes: 2 }
        } else if ty == "i16"@ {
            FieldKind::Int { signed: true, bytes: 2 }
        } else if ty == "u32"@ {
            FieldKind::Int { signed: false, bytes: 4 }
        } else if ty == "i32"@ {
            FieldKind::Int { signed: true, bytes: 4 }
        } else if ty == "u64"@ {
            FieldKind::Int { signed: false, bytes: 8 }
        } else if ty == "i64"@ {
            FieldKind::Int { signed: true, bytes: 8 }
        } else if ty == "u128"@ {
            FieldKind::Int { signed: false, bytes: 16 }
        } else if ty == "i128"@ {
            FieldKind::Int { signed: true, bytes: 16 }
        } else {
            FieldKind::Custom
        }
    }

    /// The byte length of an integer kind.
    pub open spec fn spec_byte_len(self) -> Option<usize> {
        match self {
            FieldKind::Int { bytes, .. } => Some(bytes as usize),
            _ => None,
        }
    }

    /// The full bit width of an integer kind.
    pub open spec fn spec_full_bits(self) -> Option<u16> {
        match self {
            FieldKind::Int { bytes, .. } => Some((bytes * 8) as u16),
            _ => None,
        }
    }

    /// The width a field of this kind has when none is declared.
    pub open spec fn spec_inferred_width(self) -> Option<u16> {
        match self {
            FieldKind::Bool => Some(1u16),
            FieldKind::Int { bytes, .. } => Some((bytes * 8) as u16),
            FieldKind::Custom => None,
        }
    }

    /// Whether values of this kind pack and unpack without a conversion
    /// that can fail: every kind but the custom one.
    pub open spec fn spec_is_infallible(self) -> bool {
        self != FieldKind::Custom
    }

    /// An integer kind is one of the native widths.
    pub open spec fn wf(self) -> bool {
        match self {
            FieldKind::Int { bytes, .. } => bytes == 1 || bytes == 2 || bytes == 4 || bytes == 8 || bytes == 16,
            _ => true,
        }
    }

    /// Classifies a declared type by its name: `bool`, the ten native
    /// integer types, and everything else as `Custom`.
    pub fn from_type(ty: &str) -> (kind: FieldKind)
        ensures
            kind == Self::spec_from_type(ty@),
            kind.wf(),
    {
        if str_eq(ty, "bool") {
            FieldKind::Bool
        } else if str_eq(ty, "u8") {
            FieldKind::Int { signed: false, bytes: 1 }
        } else if str_eq(ty, "i8") {
            FieldKind::Int { signed: true, bytes: 1 }
        } else if str_eq(ty, "u16") {
            FieldKind::Int { signed: false, bytes: 2 }
        } else if str_eq(ty, "i16") {
            FieldKind::Int { signed: true, bytes: 2 }
        } else if str_eq(ty, "u32") {
            FieldKind::Int { signed: false, bytes: 4 }
        } else if str_eq(ty, "i32") {
            FieldKind::Int { signed: true, bytes: 4 }
        } else if str_eq(ty, "u64") {
            FieldKind::Int { signed: false, bytes: 8 }
        } else if str_eq(ty, "i64") {
            FieldKind::Int { signed: true, bytes: 8 }
        } else if str_eq(ty, "u128") {
            FieldKind::Int { signed: false, bytes: 16 }
        } else if str_eq(ty, "i128") {
            FieldKind::Int { signed: true, bytes: 16 }
        } else {
            FieldKind::Custom
        }
    }

    /// Whether values of this kind pack and unpack without a conversion
    /// that can fail.
    pub fn is_infallible(self) -> (r: bool)
        ensures
            r == self.spec_is_infallible(),
    {
        match self {
            FieldKind::Custom => false,
            _ => true,
        }
    }

    /// The byte length of an integer kind; `None` for the others.
    pub fn byte_len(self) -> (r: Option<usize>)
        ensures
            r == self.spec_byte_len(),
    {
        match self {
            FieldKind::Int { bytes, .. } => Some(bytes as usize),
            _ => None,
        }
    }

    /// The full bit width of an integer kind; `None` for the others.
    pub fn full_bits(self) -> (r: Option<u16>)
        ensures
            r == self.spec_full_bits(),
    {
        match self.byte_len() {
            Some(b) => Some((b * 8) as u16),
            None => None,
        }
    }

    /// The width of a field whose declaration gives none: 1 for `bool`,
    /// the full width for an integer, and none for any other type.
    pub fn inferred_width(ty: &str) -> (r: Option<u16>)
        ensures
            r == Self::spec_from_type(ty@).spec_inferred_width(),
    {
        match Self::from_type(ty) {
            FieldKind::Bool => Some(1),
            kind => kind.full_bits(),
        }
    }
}

/// One declared field, in declaration order: its name, the name of its
/// declared type, an explicit width if one was given, and an explicit gap
/// before it if one was given.
#[derive(Clone, Debug)]
pub struct FieldDecl {
    /// The field's name; `None` for a positional field.
    pub name: Option<String>,
    /// The declared type, as written.
    pub ty: String,
    /// The declared width in bits.
    pub bits: Option<u32>,
    /// The declared number of unused bits before the field.
    pub skip: Option<u32>,
}

/// A placed field: where its bits start and how many they are.
#[derive(Clone, Debug)]
pub struct FieldSpec {
    /// The name the field goes by.
    pub ident: String,
    /// The declared type, as written.
    pub ty: String,
    /// Width in bits, `1..=128`.
    pub width: u16,
    /// The position of the field's lowest bit in the container.
    pub start_bit: usize,
    /// What the field holds.
    pub kind: FieldKind,
}

/// Why a schema cannot be laid out.
#[derive(Copy, Clone, Debug, PartialEq, Eq, Structural)]
pub enum LayoutError {
    /// The declared gap before field `field` is zero bits.
    ZeroGap { field: usize },
    /// The gap before field `field` runs past the end of the container.
    GapOutOfBounds { field: usize },
    /// The declared width of field `field` is not in `1..=128`.
    WidthOutOfRange { field: usize },
    /// Field `field` declares no width and its type implies none.
    MissingWidth { field: usize },
    /// Field `field` does not fit in what is left of the container.
    InsufficientSpace { field: usize },
    /// Both a byte count and an integer container were asked for.
    ConflictingContainerOptions,
    /// The container options do not read as options from item `at` on.
    InvalidArguments { at: usize },
}

/// The largest width a field can have.
pub const MAX_WIDTH: u16 = 128;

/// The number of bits in a container of `nbytes` bytes, as far as a bit
/// position can count them.
pub open spec fn spec_total_bits(nbytes: usize) -> usize {
    if nbytes * 8 > usize::MAX {
        usize::MAX
    } else {
        (nbytes * 8) as usize
    }
}

/// The number of bits in a container of `nbytes` bytes, as far as a bit
/// position can count them.
pub fn total_bits(nbytes: usize) -> (t: usize)
    ensures
        t == spec_total_bits(nbytes),
{
    if nbytes > usize::MAX / 8 {
        usize::MAX
    } else {
        nbytes * 8
    }
}

impl FieldDecl {
    /// The kind of the declared type.
    pub open spec fn kind(self) -> FieldKind {
        FieldKind::spec_from_type(self.ty@)
    }

    /// The cursor after the gap before this field, or the error the gap gives.
    pub open spec fn after_gap(self, idx: usize, cursor: int, total: int) -> Result<int, LayoutError> {
        match Attrs::spec_parse_skip(self, idx) {
            Some(Err(e)) => Err(e),
            Some(Ok(gap)) => if cursor + gap > total {
                Err(LayoutError::GapOutOfBounds { field: idx })
            } else {
                Ok(cursor + gap)
            },
            None => Ok(cursor),
        }
    }

    /// The width of this field, or the error its declaration gives: the
    /// declared width if there is one, and else the width of the type.
    pub open spec fn resolved_width(self, idx: usize) -> Result<u16, LayoutError> {
        match Attrs::spec_parse_bits(self, idx) {
            Some(Err(e)) => Err(e),
            Some(Ok(bits)) => Ok(bits.width),
            None => match self.kind().spec_inferred_width() {
                Some(w) => Ok(w),
                None => Err(LayoutError::MissingWidth { field: idx }),
            },
        }
    }

    /// Where this field lands when the cursor stands at `cursor` in a
    /// container of `total` bits: its first bit and its width. The gap is
    /// looked at first, then the width, then the room that is left.
    pub open spec fn place(self, idx: usize, cursor: int, total: int) -> Result<(int, u16), LayoutError> {
        match self.after_gap(idx, cursor, total) {
            Err(e) => Err(e),
            Ok(start) => match self.resolved_width(idx) {
                Err(e) => Err(e),
                Ok(width) => if start + width > total {
                    Err(LayoutError::InsufficientSpace { field: idx })
                } else {
                    Ok((start, width))
                },
            },
        }
    }

    /// The name a placed field goes by: its own, or `__f` and its position
    /// for a positional field.
    pub open spec fn spec_ident(self, idx: usize, is_tuple: bool) -> Seq<char> {
        if is_tuple {
            "__f"@ + decimal(idx as nat)
        } else {
            match self.name {
                Some(n) => n@,
                None => "_"@,
            }
        }
    }
}

/// The cursor after the first `n` declarations have been placed, or the
/// first error met while placing them.
pub open spec fn cursor_after(decls: Seq<FieldDecl>, total: int, n: int) -> Result<int, LayoutError>
    decreases n,
{
    if n <= 0 {
        Ok(0)
    } else {
        match cursor_after(decls, total, n - 1) {
            Err(e) => Err(e),
            Ok(cursor) => match decls[n - 1].place((n - 1) as usize, cursor, total) {
                Err(e) => Err(e),
                Ok((start, width)) => Ok(start + width),
            },
        }
    }
}

impl FieldSpec {
    /// Width in range, an integer kind of a native width.
    pub open spec fn wf(self) -> bool {
        &&& 1 <= self.width <= MAX_WIDTH
        &&& self.kind.wf()
    }

    /// One past the position of the field's highest bit.
    pub open spec fn end_bit(self) -> int {
        self.start_bit + self.width
    }

    /// Whether the field starts and ends on a byte boundary.
    pub open spec fn spec_is_byte_aligned(self) -> bool {
        self.start_bit % 8 == 0 && self.width % 8 == 0
    }

    /// The number of bytes of a field that is byte-aligned and as wide as
    /// its integer type.
    pub open spec fn spec_aligned_primitive_len(self) -> Option<usize> {
        if self.spec_is_byte_aligned() && self.kind.spec_full_bits() == Some(self.width) {
            self.kind.spec_byte_len()
        } else {
            None
        }
    }

    /// A copy of the field.
    pub fn duplicate(&self) -> (r: FieldSpec)
        ensures
            r == *self,
    {
        FieldSpec { ident: self.ident.clone(), ty: self.ty.clone(), width: self.width, start_bit: self.start_bit, kind: self.kind }
    }

    /// Whether the field starts and ends on a byte boundary.
    pub fn is_byte_aligned(&self) -> (r: bool)
        ensures
            r == self.spec_is_byte_aligned(),
    {
        self.start_bit % 8 == 0 && self.width % 8 == 0
    }

    /// The index of the byte that holds the field's lowest bit.
    pub fn start_byte(&self) -> (r: usize)
        ensures
            r == self.start_bit / 8,
    {
        self.start_bit / 8
    }

    /// For a field that is byte-aligned and exactly as wide as its integer
    /// type, the number of bytes it fills; `None` for every other field.
    pub fn aligned_primitive_len(&self) -> (r: Option<usize>)
        ensures
            r == self.spec_aligned_primitive_len(),
    {
        if self.is_byte_aligned() && self.kind.full_bits() == Some(self.width) {
            self.kind.byte_len()
        } else {
            None
        }
    }
}

/// The placed fields of a container, in declaration order.
#[derive(Clone, Debug)]
pub struct Layout {
    /// The fields, lowest bits first.
    pub fields: Vec<FieldSpec>,
    /// Whether the fields are positional.
    pub is_tuple: bool,
    /// Whether any field needs a conversion that can fail.
    pub fallible: bool,
}

/// Whether one of the first `n` fields is of a custom kind.
pub open spec fn any_custom(fields: Seq<FieldSpec>, n: int) -> bool {
    exists|i: int| 0 <= i < n && #[trigger] fields[i].kind == FieldKind::Custom
}

impl Layout {
    /// The fields lie in declaration order without overlap inside a
    /// container of `nbytes` bytes, and `fallible` says whether one of them
    /// is of a custom kind.
    pub open spec fn wf(self, nbytes: usize) -> bool {
        &&& forall|i: int| 0 <= i < self.fields.len() ==> (#[trigger] self.fields[i]).wf()
        &&& forall|i: int| 0 <= i < self.fields.len() ==> (#[trigger] self.fields[i]).end_bit() <= spec_total_bits(nbytes)
        &&& forall|i: int, j: int| 0 <= i < j < self.fields.len() ==> (#[trigger] self.fields[i]).end_bit() <= (#[trigger] self.fields[j]).start_bit
        &&& self.fallible == any_custom(self.fields@, self.fields.len() as int)
    }

    /// Whether the fields leave no bit of a container of `nbytes` bytes
    /// unused: the first starts at bit 0, each next one starts where the
    /// one before it ends, and the last ends with the container.
    pub open spec fn spec_covers(self, nbytes: usize) -> bool {
        &&& self.fields.len() > 0
        &&& self.fields[0].start_bit == 0
        &&& forall|i: int| 0 <= i < self.fields.len() - 1 ==> (#[trigger] self.fields[i]).end_bit() == self.fields[i + 1].start_bit
        &&& self.fields[self.fields.len() - 1].end_bit() == 8 * nbytes
    }

    /// Whether this layout is what the planner makes of `decls`.
    pub open spec fn plans(self, decls: Seq<FieldDecl>, nbytes: usize, is_tuple: bool) -> bool {
        let total = spec_total_bits(nbytes) as int;
        &&& self.is_tuple == is_tuple
        &&& self.fields.len() == decls.len()
        &&& forall|i: int| 0 <= i < decls.len() ==> {
            let f = #[trigger] self.fields[i];
            &&& cursor_after(decls, total, i) is Ok
            &&& decls[i].place(i as usize, cursor_after(decls, total, i)->Ok_0, total) == Ok::<(int, u16), LayoutError>((f.start_bit as int, f.width))
            &&& f.kind == decls[i].kind()
            &&& f.ty@ == decls[i].ty@
            &&& f.ident@ == decls[i].spec_ident(i as usize, is_tuple)
        }
    }

    /// Places one declared field at the cursor and moves the cursor past it.
    ///
    /// The gap before the field is looked at first, then its width, then the
    /// room left in the container. On an error the cursor stays where it was.
    pub fn process_field(
        total_bits: usize,
        cursor_bit: &mut usize,
        decl: &FieldDecl,
        idx: usize,
        is_tuple: bool,
    ) -> (r: Result<FieldSpec, LayoutError>)
        ensures
            match r {
                Ok(f) => {
                    &&& decl.place(idx, *old(cursor_bit) as int, total_bits as int) == Ok::<(int, u16), LayoutError>((f.start_bit as int, f.width))
                    &&& *final(cursor_bit) == f.start_bit + f.width
                    &&& *final(cursor_bit) <= total_bits
                    &&& f.start_bit >= *old(cursor_bit)
                    &&& f.kind == decl.kind()
                    &&& f.ty@ == decl.ty@
                    &&& f.ident@ == decl.spec_ident(idx, is_tuple)
                    &&& f.wf()
                },
                Err(e) => {
                    &&& decl.place(idx, *old(cursor_bit) as int, total_bits as int) == Err::<(int, u16), LayoutError>(e)
                    &&& *final(cursor_bit) == *old(cursor_bit)
                },
            },
    {
        let mut start = *cursor_bit;
        match Attrs::parse_skip(decl, idx) {
            Some(Err(e)) => {
                return Err(e);
            },
            Some(Ok(gap)) => {
                if start > total_bits || gap as usize > total_bits - start {
                    return Err(LayoutError::GapOutOfBounds { field: idx });
                }
                start = start + gap as usize;
            },
            None => {},
        }
        let kind = FieldKind::from_type(decl.ty.as_str());
        let width: u16 = match Attrs::parse_bits(decl, idx) {
            Some(Err(e)) => {
                return Err(e);
            },
            Some(Ok(bits)) => bits.width,
            None => match FieldKind::inferred_width(decl.ty.as_str()) {
                Some(w) => w,
                None => {
                    return Err(LayoutError::MissingWidth { field: idx });
                },
            },
        };
        if start > total_bits || width as usize > total_bits - start {
            return Err(LayoutError::InsufficientSpace { field: idx });
        }
        let ident = if is_tuple {
            let mut name: Vec<char> = Vec::new();
            name.push('_');
            name.push('_');
            name.push('f');
            let mut digits = decimal_digits(idx);
            name.append(&mut digits);
            proof {
                reveal_strlit("__f");
                assert(name@ == "__f"@ + decimal(idx as nat));
            }
            string_of(&name)
        } else {
            match &decl.name {
                Some(n) => n.clone(),
                None => String::from_str("_"),
            }
        };
        *cursor_bit = start + width as usize;
        Ok(FieldSpec { ident, ty: decl.ty.clone(), width, start_bit: start, kind })
    }

    /// Plans the layout of `decls` in a container of `nbytes` bytes.
    ///
    /// The fields are placed in declaration order on one bit cursor that
    /// starts at zero: each field's gap moves the cursor on, the field takes
    /// its width from there, and the cursor moves past it. The first
    /// declaration that cannot be placed ends the planning with its error.
    pub fn new(decls: &Vec<FieldDecl>, nbytes: usize, is_tuple: bool) -> (r: Result<Layout, LayoutError>)
        ensures
            match r {
                Ok(layout) => {
                    &&& cursor_after(decls@, spec_total_bits(nbytes) as int, decls.len() as int) is Ok
                    &&& layout.plans(decls@, nbytes, is_tuple)
                    &&& layout.wf(nbytes)
                },
                Err(e) => cursor_after(decls@, spec_total_bits(nbytes) as int, decls.len() as int) == Err::<int, LayoutError>(e),
            },
    {
        let total = total_bits(nbytes);
        let mut cursor_bit: usize = 0;
        let mut fields: Vec<FieldSpec> = Vec::new();
        let mut fallible = false;
        let mut i: usize = 0;
        while i < decls.len()
            invariant
                i <= decls.len(),
                total == spec_total_bits(nbytes),
                fields.len() == i,
                cursor_bit <= total,
                cursor_after(decls@, total as int, i as int) == Ok::<int, LayoutError>(cursor_bit as int),
                forall|k: int| 0 <= k < i ==> {
                    let f = #[trigger] fields[k];
                    &&& cursor_after(decls@, total as int, k) is Ok
                    &&& decls[k].place(k as usize, cursor_after(decls@, total as int, k)->Ok_0, total as int) == Ok::<(int, u16), LayoutError>((f.start_bit as int, f.width))
                    &&& f.kind == decls[k].kind()
                    &&& f.ty@ == decls[k].ty@
                    &&& f.ident@ == decls[k].spec_ident(k as usize, is_tuple)
                    &&& f.wf()
                    &&& f.end_bit() <= cursor_bit
                },
                forall|a: int, b: int| 0 <= a < b < i ==> (#[trigger] fields[a]).end_bit() <= (#[trigger] fields[b]).start_bit,
                fallible == any_custom(fields@, i as int),
            decreases decls.len() - i,
        {
            let ghost before = fields@;
            match Self::process_field(total, &mut cursor_bit, &decls[i], i, is_tuple) {
                Ok(spec) => {
                    let custom = !spec.kind.is_infallible();
                    fields.push(spec);
                    proof {
                        assert(forall|k: int| 0 <= k < i ==> fields[k] == before[k]);
                        if custom {
                            assert(fields[i as int].kind == FieldKind::Custom);
                        } else if any_custom(fields@, i + 1) {
                            let w = choose|w: int| 0 <= w < i + 1 && #[trigger] fields[w].kind == FieldKind::Custom;
                            assert(before[w].kind == FieldKind::Custom);
                        } else if any_custom(before, i as int) {
                            let w = choose|w: int| 0 <= w < i && #[trigger] before[w].kind == FieldKind::Custom;
                            assert(fields[w].kind == FieldKind::Custom);
                        }
                    }
                    fallible = fallible || custom;
                },
                Err(e) => {
                    proof {
                        lemma_cursor_error_stays(decls@, total as int, i + 1, decls.len() as int);
                    }
                    return Err(e);
                },
            }
            i += 1;
        }
        Ok(Layout { fields, is_tuple, fallible })
    }
}

/// Once a declaration has failed, planning any longer prefix fails alike.
pub proof fn lemma_cursor_error_stays(decls: Seq<FieldDecl>, total: int, n: int, m: int)
    requires
        0 <= n <= m,
        cursor_after(decls, total, n) is Err,
    ensures
        cursor_after(decls, total, m) == cursor_after(decls, total, n),
    decreases m - n,
{
    if n < m {
        lemma_cursor_error_stays(decls, total, n, m - 1);
    }
}

} // verus!
