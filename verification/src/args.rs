//! Container-wide options: the container's size, its optional view as one
//! integer, and the numbering of bits within a byte.

use vstd::prelude::*;
use vstd::string::*;
use crate::layout::LayoutError;
use crate::text::str_eq;

verus! {

/// Which end of a byte carries bit number 0.
#[derive(Copy, Clone, Debug, PartialEq, Eq, Structural)]
pub enum BitOrder {
    /// Bit 0 is the least-significant bit of the byte.
    Lsb0,
    /// Bit 0 is the most-significant bit of the byte.
    Msb0,
}

impl BitOrder {
    /// The offset, counted from the least-significant bit, at which a run
    /// of `take` bits sits in its byte when it starts at offset `off` in
    /// this order's numbering: `off` itself for `Lsb0`, the mirrored run's
    /// low end for `Msb0`.
    pub open spec fn spec_adjust_in_byte(self, off: int, take: int) -> int {
        match self {
            BitOrder::Lsb0 => off,
            BitOrder::Msb0 => 8 - off - take,
        }
    }

    /// The column, counted from the left, in which a byte's bit `bit` is
    /// drawn: the most-significant bit is drawn leftmost.
    pub open spec fn spec_display_within(self, bit: int) -> int {
        match self {
            BitOrder::Lsb0 => 7 - bit,
            BitOrder::Msb0 => bit,
        }
    }

    /// Maps the offset of a run of `take` bits in this order's numbering
    /// to its offset counted from the byte's least-significant bit.
    pub fn adjust_in_byte(self, off: u8, take: u8) -> (r: u8)
        requires
            off + take <= 8,
        ensures
            r == self.spec_adjust_in_byte(off as int, take as int),
            r + take <= 8,
    {
        match self {
            BitOrder::Lsb0 => off,
            BitOrder::Msb0 => 8 - off - take,
        }
    }

    /// Maps a bit of a byte to the column it is drawn in, leftmost first.
    pub fn display_within(self, bit: usize) -> (r: usize)
        requires
            bit < 8,
        ensures
            r == self.spec_display_within(bit as int),
            r < 8,
    {
        match self {
            BitOrder::Lsb0 => 7 - bit,
            BitOrder::Msb0 => bit,
        }
    }
}

/// An unsigned integer type that a whole container can be seen as.
#[derive(Copy, Clone, Debug, PartialEq, Eq, Structural)]
pub enum IntContainer {
    U8,
    U16,
    U32,
    U64,
    U128,
}

impl IntContainer {
    /// The size of the integer type in bytes.
    pub open spec fn spec_bytes(self) -> usize {
        match self {
            IntContainer::U8 => 1,
            IntContainer::U16 => 2,
            IntContainer::U32 => 4,
            IntContainer::U64 => 8,
            IntContainer::U128 => 16,
        }
    }

    /// The integer type that a name stands for, if it is one of the five.
    pub open spec fn spec_from_name(name: Seq<char>) -> Option<IntContainer> {
        if name == "u8"@ {
            Some(IntContainer::U8)
        } else if name == "u16"@ {
            Some(IntContainer::U16)
        } else if name == "u32"@ {
            Some(IntContainer::U32)
        } else if name == "u64"@ {
            Some(IntContainer::U64)
        } else if name == "u128"@ {
            Some(IntContainer::U128)
        } else {
            None
        }
    }

    /// The size of the integer type in bytes.
    pub fn bytes(self) -> (n: usize)
        ensures
            n == self.spec_bytes(),
            1 <= n <= 16,
    {
        match self {
            IntContainer::U8 => 1,
            IntContainer::U16 => 2,
            IntContainer::U32 => 4,
            IntContainer::U64 => 8,
            IntContainer::U128 => 16,
        }
    }

    /// The integer type named `u8`, `u16`, `u32`, `u64` or `u128`.
    pub fn from_name(name: &str) -> (r: Option<IntContainer>)
        ensures
            r == Self::spec_from_name(name@),
    {
        if str_eq(name, "u8") {
            Some(IntContainer::U8)
        } else if str_eq(name, "u16") {
            Some(IntContainer::U16)
        } else if str_eq(name, "u32") {
            Some(IntContainer::U32)
        } else if str_eq(name, "u64") {
            Some(IntContainer::U64)
        } else if str_eq(name, "u128") {
            Some(IntContainer::U128)
        } else {
            None
        }
    }
}

/// One item of the written container options.
#[derive(Clone, Debug)]
pub enum ArgToken {
    /// A bare word.
    Ident(String),
    /// The sign `=`.
    Eq,
    /// An integer.
    Int(usize),
    /// A comma.
    Comma,
    /// Anything else.
    Other,
}

/// The container options as written, before defaults are filled in.
#[derive(Copy, Clone, Debug, PartialEq, Eq, Structural)]
pub struct RawArgs {
    /// The byte count of `bytes = N`.
    pub bytes: Option<usize>,
    /// The integer container that was named.
    pub int_ident: Option<IntContainer>,
    /// The bit order that was named.
    pub bit_order: Option<BitOrder>,
}

/// The options of a container.
#[derive(Copy, Clone, Debug, PartialEq, Eq, Structural)]
pub struct ContainerOpts {
    /// The container's size in bytes.
    pub bytes_len: usize,
    /// The integer type the container can be seen as, if any.
    pub int_ident: Option<IntContainer>,
    /// The numbering of bits within a byte.
    pub bit_order: BitOrder,
}

impl RawArgs {
    /// No option written.
    pub open spec fn spec_empty() -> RawArgs {
        RawArgs { bytes: None, int_ident: None, bit_order: None }
    }

    /// The options after the one that starts at item `i`, and the item
    /// after it. An option is `bytes = N`, `msb`, `lsb`, or the name of an
    /// integer type; one written again replaces the one before.
    pub open spec fn spec_option(self, tokens: Seq<ArgToken>, i: int) -> Result<(RawArgs, int), LayoutError> {
        match tokens[i] {
            ArgToken::Ident(name) => {
                if name@ == "bytes"@ {
                    if i + 1 < tokens.len() && tokens[i + 1] is Eq {
                        if i + 2 < tokens.len() && tokens[i + 2] is Int {
                            Ok((RawArgs { bytes: Some(tokens[i + 2]->Int_0), ..self }, i + 3))
                        } else {
                            Err(LayoutError::InvalidArguments { at: (i + 2) as usize })
                        }
                    } else {
                        Err(LayoutError::InvalidArguments { at: (i + 1) as usize })
                    }
                } else if name@ == "msb"@ {
                    Ok((RawArgs { bit_order: Some(BitOrder::Msb0), ..self }, i + 1))
                } else if name@ == "lsb"@ {
                    Ok((RawArgs { bit_order: Some(BitOrder::Lsb0), ..self }, i + 1))
                } else {
                    match IntContainer::spec_from_name(name@) {
                        Some(c) => Ok((RawArgs { int_ident: Some(c), ..self }, i + 1)),
                        None => Err(LayoutError::InvalidArguments { at: i as usize }),
                    }
                }
            },
            _ => Err(LayoutError::InvalidArguments { at: i as usize }),
        }
    }

    /// The options written from item `i` on, added to `self`: options
    /// follow one another, each with an optional comma behind it.
    pub open spec fn spec_parse_from(self, tokens: Seq<ArgToken>, i: int) -> Result<RawArgs, LayoutError>
        decreases tokens.len() - i,
    {
        if i < 0 || i >= tokens.len() {
            Ok(self)
        } else {
            match self.spec_option(tokens, i) {
                Err(e) => Err(e),
                Ok((next, j)) => if j <= i {
                    Ok(next)
                } else if j < tokens.len() && tokens[j] is Comma {
                    next.spec_parse_from(tokens, j + 1)
                } else {
                    next.spec_parse_from(tokens, j)
                },
            }
        }
    }

    /// The options that `tokens` spell.
    pub open spec fn spec_parse(tokens: Seq<ArgToken>) -> Result<RawArgs, LayoutError> {
        Self::spec_empty().spec_parse_from(tokens, 0)
    }

    /// Reads one option that starts at item `i`.
    fn option(self, tokens: &Vec<ArgToken>, i: usize) -> (r: Result<(RawArgs, usize), LayoutError>)
        requires
            i < tokens.len(),
        ensures
            match r {
                Ok((next, j)) => self.spec_option(tokens@, i as int) == Ok::<(RawArgs, int), LayoutError>((next, j as int)) && i < j <= tokens.len(),
                Err(e) => self.spec_option(tokens@, i as int) == Err::<(RawArgs, int), LayoutError>(e),
            },
    {
        match &tokens[i] {
            ArgToken::Ident(name) => {
                if str_eq(name.as_str(), "bytes") {
                    if i + 1 >= tokens.len() {
                        return Err(LayoutError::InvalidArguments { at: i + 1 });
                    }
                    match &tokens[i + 1] {
                        ArgToken::Eq => {},
                        _ => {
                            return Err(LayoutError::InvalidArguments { at: i + 1 });
                        },
                    }
                    if i + 2 >= tokens.len() {
                        return Err(LayoutError::InvalidArguments { at: i + 2 });
                    }
                    match &tokens[i + 2] {
                        ArgToken::Int(n) => Ok((RawArgs { bytes: Some(*n), int_ident: self.int_ident, bit_order: self.bit_order }, i + 3)),
                        _ => Err(LayoutError::InvalidArguments { at: i + 2 }),
                    }
                } else if str_eq(name.as_str(), "msb") {
                    Ok((RawArgs { bytes: self.bytes, int_ident: self.int_ident, bit_order: Some(BitOrder::Msb0) }, i + 1))
                } else if str_eq(name.as_str(), "lsb") {
                    Ok((RawArgs { bytes: self.bytes, int_ident: self.int_ident, bit_order: Some(BitOrder::Lsb0) }, i + 1))
                } else {
                    match IntContainer::from_name(name.as_str()) {
                        Some(c) => Ok((RawArgs { bytes: self.bytes, int_ident: Some(c), bit_order: self.bit_order }, i + 1)),
                        None => Err(LayoutError::InvalidArguments { at: i }),
                    }
                }
            },
            _ => Err(LayoutError::InvalidArguments { at: i }),
        }
    }

    /// Reads the written container options: any number of `bytes = N`,
    /// `msb`, `lsb` and integer type names, each with an optional comma
    /// behind it. The first item that does not fit ends the reading with
    /// its position.
    pub fn parse(tokens: &Vec<ArgToken>) -> (r: Result<RawArgs, LayoutError>)
        ensures
            r == Self::spec_parse(tokens@),
    {
        let mut acc = RawArgs { bytes: None, int_ident: None, bit_order: None };
        let mut i: usize = 0;
        while i < tokens.len()
            invariant
                i <= tokens.len(),
                acc.spec_parse_from(tokens@, i as int) == Self::spec_parse(tokens@),
            decreases tokens.len() - i,
        {
            match acc.option(tokens, i) {
                Err(e) => {
                    return Err(e);
                },
                Ok((next, j)) => {
                    acc = next;
                    i = j;
                    if i < tokens.len() {
                        match &tokens[i] {
                            ArgToken::Comma => {
                                i += 1;
                            },
                            _ => {},
                        }
                    }
                },
            }
        }
        Ok(acc)
    }
}

impl ContainerOpts {
    /// The options that the written ones stand for: a byte count gives the
    /// size; an integer container gives the size and the integer view;
    /// neither gives one byte seen as `u8`; both together are refused. The
    /// bit order is `Lsb0` unless another was written.
    pub open spec fn spec_resolve(raw: RawArgs) -> Result<ContainerOpts, LayoutError> {
        let bit_order = match raw.bit_order {
            Some(order) => order,
            None => BitOrder::Lsb0,
        };
        match (raw.bytes, raw.int_ident) {
            (Some(_), Some(_)) => Err(LayoutError::ConflictingContainerOptions),
            (Some(n), None) => Ok(ContainerOpts { bytes_len: n, int_ident: None, bit_order }),
            (None, Some(c)) => Ok(ContainerOpts { bytes_len: c.spec_bytes(), int_ident: Some(c), bit_order }),
            (None, None) => Ok(ContainerOpts { bytes_len: 1, int_ident: Some(IntContainer::U8), bit_order }),
        }
    }

    /// The options that `tokens` spell, with the defaults filled in.
    pub open spec fn spec_parse(tokens: Seq<ArgToken>) -> Result<ContainerOpts, LayoutError> {
        match RawArgs::spec_parse(tokens) {
            Err(e) => Err(e),
            Ok(raw) => Self::spec_resolve(raw),
        }
    }

    /// An integer view has the container's size.
    pub open spec fn wf(self) -> bool {
        match self.int_ident {
            Some(c) => self.bytes_len == c.spec_bytes(),
            None => true,
        }
    }

    /// Whether the container can be seen as one integer: an integer view
    /// was asked for, or the container is a single byte.
    pub open spec fn spec_has_integer(self) -> bool {
        self.int_ident is Some || self.bytes_len == 1
    }

    /// Fills in the defaults of the written options and refuses a byte
    /// count together with an integer container.
    pub fn resolve(raw: RawArgs) -> (r: Result<ContainerOpts, LayoutError>)
        ensures
            r == Self::spec_resolve(raw),
            r is Err <==> raw.bytes is Some && raw.int_ident is Some,
            r matches Ok(opts) ==> opts.wf(),
    {
        let bit_order = match raw.bit_order {
            Some(order) => order,
            None => BitOrder::Lsb0,
        };
        match (raw.bytes, raw.int_ident) {
            (Some(_), Some(_)) => Err(LayoutError::ConflictingContainerOptions),
            (Some(n), None) => Ok(ContainerOpts { bytes_len: n, int_ident: None, bit_order }),
            (None, Some(c)) => Ok(ContainerOpts { bytes_len: c.bytes(), int_ident: Some(c), bit_order }),
            (None, None) => Ok(ContainerOpts { bytes_len: 1, int_ident: Some(IntContainer::U8), bit_order }),
        }
    }

    /// Reads the container options and fills in the defaults: one byte,
    /// seen as `u8`, with `Lsb0` numbering.
    pub fn parse(tokens: &Vec<ArgToken>) -> (r: Result<ContainerOpts, LayoutError>)
        ensures
            r == Self::spec_parse(tokens@),
            r matches Ok(opts) ==> opts.wf(),
    {
        match RawArgs::parse(tokens) {
            Err(e) => Err(e),
            Ok(raw) => Self::resolve(raw),
        }
    }

    /// Whether the container can be seen as one integer.
    pub fn has_integer(&self) -> (r: bool)
        ensures
            r == self.spec_has_integer(),
    {
        self.int_ident.is_some() || self.bytes_len == 1
    }
}

} // verus!
