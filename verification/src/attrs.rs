//! The per-field directives: a declared width and a declared gap.

use vstd::prelude::*;
use crate::layout::{FieldDecl, LayoutError, MAX_WIDTH};

verus! {

/// A declared width that is in range.
#[derive(Copy, Clone, Debug, PartialEq, Eq, Structural)]
pub struct Bits {
    /// The width in bits, `1..=128`.
    pub width: u16,
}

/// The directives of a field.
pub struct Attrs;

impl Attrs {
    /// What the declared width of a field comes to: nothing if none is
    /// declared, the width if it is in `1..=128`, and else the error.
    pub open spec fn spec_parse_bits(decl: FieldDecl, idx: usize) -> Option<Result<Bits, LayoutError>> {
        match decl.bits {
            Some(w) => if 1 <= w <= MAX_WIDTH {
                Some(Ok(Bits { width: w as u16 }))
            } else {
                Some(Err(LayoutError::WidthOutOfRange { field: idx }))
            },
            None => None,
        }
    }

    /// What the declared gap of a field comes to: nothing if none is
    /// declared, the gap if it is more than zero, and else the error.
    pub open spec fn spec_parse_skip(decl: FieldDecl, idx: usize) -> Option<Result<u32, LayoutError>> {
        match decl.skip {
            Some(gap) => if gap == 0 {
                Some(Err(LayoutError::ZeroGap { field: idx }))
            } else {
                Some(Ok(gap))
            },
            None => None,
        }
    }

    /// Reads the declared width of field `idx` and checks that it is in
    /// `1..=128`.
    pub fn parse_bits(decl: &FieldDecl, idx: usize) -> (r: Option<Result<Bits, LayoutError>>)
        ensures
            r == Self::spec_parse_bits(*decl, idx),
    {
        match decl.bits {
            Some(w) => {
                if w < 1 || w > MAX_WIDTH as u32 {
                    Some(Err(LayoutError::WidthOutOfRange { field: idx }))
                } else {
                    Some(Ok(Bits { width: w as u16 }))
                }
            },
            None => None,
        }
    }

    /// Reads the declared gap before field `idx` and checks that it is
    /// more than zero.
    pub fn parse_skip(decl: &FieldDecl, idx: usize) -> (r: Option<Result<u32, LayoutError>>)
        ensures
            r == Self::spec_parse_skip(*decl, idx),
    {
        match decl.skip {
            Some(gap) => {
                if gap == 0 {
                    Some(Err(LayoutError::ZeroGap { field: idx }))
                } else {
                    Some(Ok(gap))
                }
            },
            None => None,
        }
    }
}

} // verus!
