//! Bit-level packing of named fields into a fixed-size byte container.
//!
//! A container is declared by its options (its size in bytes or the
//! unsigned integer type it can be seen as, and the numbering of bits
//! within a byte) and by its fields in order: each with a type, an optional
//! width in bits and an optional gap before it. [`pack`] plans the layout
//! and returns the [`Codec`](packer::Codec) that packs field values into
//! the container's bytes and unpacks them again.
//!
//! - A field without a declared width takes the width of its type: 1 bit
//!   for `bool`, the full width for an integer type. Any other type needs a
//!   declared width and converts to and from its carrier integer by a
//!   conversion that the caller supplies, and that may fail.
//! - Fields occupy bit ranges in declaration order. Values are masked to
//!   the field's width on packing; signed fields are sign-extended on
//!   unpacking.
//! - The bit order decides which end of a byte is bit 0. Fields that fill
//!   whole bytes, and the container seen as one integer, are little-endian
//!   whatever the bit order.
//!
//! The modules, from the ground up: [`bits`] has the vocabulary of single
//! bits; [`chunk`] splits a field's bit range into per-byte chunks;
//! [`codec`] reads and writes one field; [`value`] gives bits their meaning;
//! [`args`], [`attrs`] and [`layout`] read a declaration and plan its
//! layout; [`packer`] packs and unpacks whole containers; [`laws`] states
//! what holds of packing and unpacking; [`diagram`] and [`legend`] draw a
//! layout as text.

use vstd::prelude::*;

pub mod args;
pub mod attrs;
pub mod bits;
pub mod chunk;
pub mod codec;
pub mod diagram;
pub mod laws;
pub mod layout;
pub mod legend;
pub mod packer;
pub mod text;
pub mod value;

use crate::args::{ArgToken, ContainerOpts};
use crate::layout::{cursor_after, spec_total_bits, FieldDecl, Layout, LayoutError};
use crate::packer::Codec;

verus! {

/// What [`pack`] makes of a declaration: the options and, for them, the
/// position of the cursor behind the last field; or the first error, which
/// is that of the options if they have one.
pub open spec fn spec_pack(args: Seq<ArgToken>, decls: Seq<FieldDecl>) -> Result<(ContainerOpts, int), LayoutError> {
    match ContainerOpts::spec_parse(args) {
        Err(e) => Err(e),
        Ok(opts) => match cursor_after(decls, spec_total_bits(opts.bytes_len) as int, decls.len() as int) {
            Err(e) => Err(e),
            Ok(end) => Ok((opts, end)),
        },
    }
}

/// Builds the codec of a declared container.
///
/// `args` are the container's options as written, `decls` its fields in
/// declaration order, and `is_tuple` says whether the fields are
/// positional. The options are read first; then the fields are placed one
/// after the other on a bit cursor. The first thing that is wrong, in that
/// order, is the error.
pub fn pack(args: &Vec<ArgToken>, decls: &Vec<FieldDecl>, is_tuple: bool) -> (r: Result<Codec, LayoutError>)
    ensures
        match r {
            Ok(codec) => {
                &&& spec_pack(args@, decls@) is Ok
                &&& codec.spec_opts() == spec_pack(args@, decls@)->Ok_0.0
                &&& codec.spec_layout().plans(decls@, codec.nbytes(), is_tuple)
                &&& codec.wf()
            },
            Err(e) => spec_pack(args@, decls@) == Err::<(ContainerOpts, int), LayoutError>(e),
        },
{
    let opts = match ContainerOpts::parse(args) {
        Ok(opts) => opts,
        Err(e) => {
            return Err(e);
        },
    };
    match Layout::new(decls, opts.bytes_len, is_tuple) {
        Ok(layout) => Ok(Codec::new(opts, layout)),
        Err(e) => Err(e),
    }
}

} // verus!
