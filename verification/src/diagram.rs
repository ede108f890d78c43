//! A text diagram of a container's layout.
//!
//! Bytes are drawn in rows of two, highest byte first. A row has a header
//! line with the number of each bit, the most-significant bit of a byte
//! leftmost, and below it a line of brackets that span the fields. A field
//! of at least two bits gets its width written into its bracket, in the row
//! where the bracket is longest.

use vstd::prelude::*;
use vstd::string::*;
use crate::args::BitOrder;
use crate::layout::FieldSpec;
use crate::text::{decimal, decimal_digits, pad_left, padded, push_chars, string_of};

verus! {

/// How many bytes are drawn in one row.
pub const BYTES_PER_ROW: usize = 2;

/// The narrowest field that gets its width written into its bracket.
pub const MIN_LABEL_BITS: usize = 2;

/// The number of columns between two bit cells of one byte.
pub const GAP_WITHIN_CELL: usize = 1;

/// The number of columns between the last cell of a byte and the first of
/// the next.
pub const GAP_AT_BYTE_SEAM: usize = 3;

/// The line of a bracket.
pub const CH_DASH: char = '─';

/// The left end of a bracket.
pub const CH_CORNER_LEFT: char = '╰';

/// The right end of a bracket.
pub const CH_CORNER_RIGHT: char = '╯';

/// The mark of a bit that no field uses.
pub const CH_UNUSED: char = '°';

/// The geometry of one row: the width of a bit cell in columns, the bytes
/// of the row from left to right, and the bit order.
pub struct RowCtx<'a> {
    /// The width of a bit cell in columns.
    pub w: usize,
    /// The bytes drawn in this row, leftmost first.
    pub bytes: &'a [usize],
    /// The numbering of bits within a byte.
    pub order: BitOrder,
}

/// What a row's geometry is made of.
pub struct RowShape {
    /// The width of a bit cell in columns.
    pub w: usize,
    /// The bytes drawn in the row, leftmost first.
    pub bytes: Seq<usize>,
    /// The numbering of bits within a byte.
    pub order: BitOrder,
}

/// The smallest of the numbers in `s`; zero when there is none.
pub open spec fn seq_min(s: Seq<usize>) -> usize
    decreases s.len(),
{
    if s.len() == 0 {
        0
    } else if s.len() == 1 {
        s[0]
    } else {
        let rest = seq_min(s.drop_last());
        if s.last() < rest { s.last() } else { rest }
    }
}

/// The largest of the numbers in `s`; zero when there is none.
pub open spec fn seq_max(s: Seq<usize>) -> usize
    decreases s.len(),
{
    if s.len() == 0 {
        0
    } else if s.len() == 1 {
        s[0]
    } else {
        let rest = seq_max(s.drop_last());
        if s.last() > rest { s.last() } else { rest }
    }
}

/// The first position at which `x` stands in `s`, if it stands in it.
pub open spec fn first_index(s: Seq<usize>, x: usize) -> Option<int>
    decreases s.len(),
{
    if s.len() == 0 {
        None
    } else {
        match first_index(s.drop_last(), x) {
            Some(j) => Some(j),
            None => if s.last() == x { Some(s.len() - 1) } else { None },
        }
    }
}

/// The text of the header cell of bit `g`: its number, with at least two
/// digits, set to the right in `w` columns.
pub open spec fn cell_text(g: nat, w: int) -> Seq<char> {
    pad_left(pad_left(decimal(g), 2, '0'), w, ' ')
}

/// The first `n` header cells of byte `b`, from its highest bit down, with
/// a space between two cells.
pub open spec fn byte_header(b: int, w: int, n: int) -> Seq<char>
    decreases n,
{
    if n <= 0 {
        Seq::empty()
    } else {
        byte_header(b, w, n - 1) + cell_text((b * 8 + (8 - n)) as nat, w) + (if n < 8 {
            seq![' ']
        } else {
            Seq::empty()
        })
    }
}

/// The header of the first `m` bytes of a row, with three spaces between
/// two bytes.
pub open spec fn row_header(bytes: Seq<usize>, w: int, m: int) -> Seq<char>
    decreases m,
{
    if m <= 0 {
        Seq::empty()
    } else {
        row_header(bytes, w, m - 1) + (if m > 1 {
            seq![' ', ' ', ' ']
        } else {
            Seq::empty()
        }) + byte_header(bytes[m - 1] as int, w, 8)
    }
}

impl RowShape {
    /// The columns of the row can be counted, and every bit of every byte
    /// of the row has a number.
    pub open spec fn wf(self) -> bool {
        &&& self.w + GAP_AT_BYTE_SEAM <= usize::MAX
        &&& self.row_len() * (self.w + GAP_AT_BYTE_SEAM) <= usize::MAX
        &&& forall|i: int| 0 <= i < self.bytes.len() ==> (#[trigger] self.bytes[i]) * 8 + 7 <= usize::MAX
    }

    /// The number of bit cells in the row.
    pub open spec fn row_len(self) -> int {
        (self.bytes.len() * 8) as int
    }

    /// The lowest and the highest bit number drawn in the row.
    pub open spec fn bounds(self) -> (int, int) {
        (seq_min(self.bytes) * 8, seq_max(self.bytes) * 8 + 7)
    }

    /// The column at which cell `p` starts.
    pub open spec fn col(self, p: int) -> int {
        p * (self.w + GAP_WITHIN_CELL) + (p / 8) * (GAP_AT_BYTE_SEAM - GAP_WITHIN_CELL)
    }

    /// The number of columns between cell `p` and the next one.
    pub open spec fn gap_after(self, p: int) -> int {
        if p + 1 >= self.row_len() {
            0
        } else if (p + 1) % 8 == 0 {
            GAP_AT_BYTE_SEAM as int
        } else {
            GAP_WITHIN_CELL as int
        }
    }

    /// The cell in which bit `g` of the container is drawn, if its byte is
    /// in the row.
    pub open spec fn bit_to_p(self, g: int) -> Option<int> {
        match first_index(self.bytes, (g / 8) as usize) {
            Some(j) => Some(j * 8 + self.order.spec_display_within(g % 8)),
            None => None,
        }
    }

    /// The number of columns in the row.
    pub open spec fn total_cols(self) -> int {
        if self.row_len() == 0 {
            0
        } else {
            self.row_len() * self.w + (self.row_len() - 1) * GAP_WITHIN_CELL + (GAP_AT_BYTE_SEAM - GAP_WITHIN_CELL) * (self.bytes.len() - 1)
        }
    }

    /// The header line of the row, without its line break.
    pub open spec fn header(self) -> Seq<char> {
        row_header(self.bytes, self.w as int, self.bytes.len() as int)
    }
}

impl<'a> View for RowCtx<'a> {
    type V = RowShape;

    open spec fn view(&self) -> RowShape {
        RowShape { w: self.w, bytes: self.bytes@, order: self.order }
    }
}

impl<'a> RowCtx<'a> {
    /// Writes the header line of the row: the number of each bit, the
    /// highest bit of each byte first, and a line break.
    pub fn write_header(&self, out: &mut String)
        requires
            self@.wf(),
        ensures
            final(out)@ == old(out)@ + self@.header() + seq!['\n'],
    {
        let ghost before = out@;
        let mut m: usize = 0;
        assert(out@ =~= before + row_header(self.bytes@, self.w as int, 0));
        while m < self.bytes.len()
            invariant
                m <= self.bytes.len(),
                self@.wf(),
                out@ == before + row_header(self.bytes@, self.w as int, m as int),
            decreases self.bytes.len() - m,
        {
            let b = self.bytes[m];
            if m > 0 {
                out.append("   ");
                proof {
                    reveal_strlit("   ");
                    assert("   "@ =~= seq![' ', ' ', ' ']);
                }
            }
            let ghost start = out@;
            let mut n: usize = 0;
            assert(out@ =~= start + byte_header(b as int, self.w as int, 0));
            while n < 8
                invariant
                    n <= 8,
                    self@.wf(),
                    b * 8 + 7 <= usize::MAX,
                    out@ == start + byte_header(b as int, self.w as int, n as int),
                decreases 8 - n,
            {
                let bit = 7 - n;
                let g = b * 8 + bit;
                let digits = decimal_digits(g);
                let number = padded(&digits, 2, '0');
                let cell = padded(&number, self.w, ' ');
                push_chars(out, &cell);
                if bit != 0 {
                    out.push(' ');
                }
                n += 1;
                assert(out@ =~= start + byte_header(b as int, self.w as int, n as int));
            }
            m += 1;
            assert(out@ =~= before + row_header(self.bytes@, self.w as int, m as int));
        }
        out.push('\n');
        assert(out@ =~= before + self@.header() + seq!['\n']);
    }

    /// The number of bit cells in the row: eight for each byte.
    pub fn row_len(&self) -> (n: usize)
        requires
            self@.wf(),
        ensures
            n == self@.row_len(),
    {
        proof {
            lemma_row_fits(self@, 0);
        }
        self.bytes.len() * 8
    }

    /// The lowest and the highest bit number drawn in the row; `(0, 7)`
    /// for a row without bytes.
    pub fn bounds(&self) -> (r: (usize, usize))
        requires
            self@.wf(),
        ensures
            r.0 == self@.bounds().0,
            r.1 == self@.bounds().1,
            self.bytes@.len() > 0 ==> r.0 <= r.1,
    {
        let mut lo: usize = 0;
        let mut hi: usize = 0;
        let mut i: usize = 0;
        while i < self.bytes.len()
            invariant
                i <= self.bytes.len(),
                self@.wf(),
                lo == seq_min(self.bytes@.subrange(0, i as int)),
                hi == seq_max(self.bytes@.subrange(0, i as int)),
                lo <= hi,
                i > 0 ==> exists|k: int| 0 <= k < i && self.bytes@[k] == hi,
                i > 0 ==> exists|k: int| 0 <= k < i && self.bytes@[k] == lo,
            decreases self.bytes.len() - i,
        {
            let b = self.bytes[i];
            proof {
                let next = self.bytes@.subrange(0, i + 1);
                assert(next.drop_last() =~= self.bytes@.subrange(0, i as int));
                assert(next.last() == b);
            }
            if i == 0 {
                lo = b;
                hi = b;
            } else {
                if b < lo {
                    lo = b;
                }
                if b > hi {
                    hi = b;
                }
            }
            i += 1;
        }
        proof {
            assert(self.bytes@.subrange(0, self.bytes@.len() as int) =~= self.bytes@);
            if self.bytes@.len() > 0 {
                let k = choose|k: int| 0 <= k < self.bytes@.len() && self.bytes@[k] == hi;
                assert(self@.bytes[k] * 8 + 7 <= usize::MAX);
            }
        }
        (lo * 8, hi * 8 + 7)
    }

    /// The column at which cell `p` starts: every cell before it takes its
    /// width and a gap, and every byte seam before it two columns more.
    pub fn col(&self, p: usize) -> (c: usize)
        requires
            self@.wf(),
            p <= self@.row_len(),
        ensures
            c == self@.col(p as int),
    {
        let seam_extra = GAP_AT_BYTE_SEAM - GAP_WITHIN_CELL;
        let seam_count = p / 8;
        proof {
            lemma_row_fits(self@, p as int);
        }
        p * (self.w + GAP_WITHIN_CELL) + seam_count * seam_extra
    }

    /// The number of columns between cell `p` and the next one: none behind
    /// the last cell, three at a byte seam, one elsewhere.
    pub fn gap_after(&self, p: usize) -> (g: usize)
        requires
            self@.wf(),
            p < usize::MAX,
        ensures
            g == self@.gap_after(p as int),
    {
        let row_len = self.row_len();
        if p + 1 >= row_len {
            0
        } else if (p + 1) % 8 == 0 {
            GAP_AT_BYTE_SEAM
        } else {
            GAP_WITHIN_CELL
        }
    }

    /// The cell in which bit `g` of the container is drawn: its byte's
    /// place in the row, and in the byte the most-significant bit leftmost.
    /// `None` if the byte is not in the row.
    pub fn bit_to_p(&self, g: usize) -> (r: Option<usize>)
        requires
            self@.wf(),
        ensures
            r matches Some(p) ==> self@.bit_to_p(g as int) == Some(p as int) && p < self@.row_len(),
            r is None ==> self@.bit_to_p(g as int) is None,
    {
        let byte = g / 8;
        let bit = g % 8;
        let mut j: usize = 0;
        proof {
            lemma_row_fits(self@, 0);
        }
        while j < self.bytes.len()
            invariant
                j <= self.bytes.len(),
                self@.wf(),
                self@.row_len() <= usize::MAX,
                byte == g / 8,
                bit == g % 8,
                first_index(self.bytes@.subrange(0, j as int), byte) is None,
            decreases self.bytes.len() - j,
        {
            proof {
                let next = self.bytes@.subrange(0, j + 1);
                assert(next.drop_last() =~= self.bytes@.subrange(0, j as int));
                assert(next.last() == self.bytes@[j as int]);
            }
            if self.bytes[j] == byte {
                proof {
                    lemma_first_index_prefix(self.bytes@, byte, j + 1);
                }
                return Some(j * 8 + self.order.display_within(bit));
            }
            j += 1;
        }
        assert(self.bytes@.subrange(0, self.bytes@.len() as int) =~= self.bytes@);
        None
    }

    /// The number of columns in the row: its cells, the gaps between them,
    /// and two columns more at each byte seam.
    pub fn total_cols(&self) -> (n: usize)
        requires
            self@.wf(),
        ensures
            n == self@.total_cols(),
    {
        let row_len = self.row_len();
        if row_len == 0 {
            return 0;
        }
        proof {
            lemma_row_fits(self@, row_len as int);
        }
        let within_gaps = (row_len - 1) * GAP_WITHIN_CELL;
        let seam_extra = (GAP_AT_BYTE_SEAM - GAP_WITHIN_CELL) * (self.bytes.len() - 1);
        row_len * self.w + within_gaps + seam_extra
    }
}

/// What is found in a prefix is found in the whole, at the same place.
pub proof fn lemma_first_index_prefix(s: Seq<usize>, x: usize, n: int)
    requires
        0 <= n <= s.len(),
        first_index(s.subrange(0, n), x) is Some,
    ensures
        first_index(s, x) == first_index(s.subrange(0, n), x),
    decreases s.len() - n,
{
    if n < s.len() {
        let next = s.subrange(0, n + 1);
        assert(next.drop_last() =~= s.subrange(0, n));
        lemma_first_index_prefix(s, x, n + 1);
    } else {
        assert(s.subrange(0, n) =~= s);
    }
}

/// The part of a field that is drawn in one row.
#[derive(Copy, Clone, Debug, PartialEq, Eq, Structural)]
pub struct RowSegment {
    /// The cell of the field's highest bit in the row.
    pub a: usize,
    /// The cell of the field's lowest bit in the row.
    pub b: usize,
    /// Whether the field's highest bit is in the row.
    pub left_cap: bool,
    /// Whether the field's lowest bit is in the row.
    pub right_cap: bool,
    /// The first column of the bracket that is free for a label.
    pub dash_start: usize,
    /// The last column of the bracket that is free for a label.
    pub dash_end: usize,
}

impl FieldSpec {
    /// Whether the field has a bit and its last bit has a position.
    pub open spec fn drawable(self) -> bool {
        &&& 1 <= self.width
        &&& self.start_bit + self.width <= usize::MAX
    }

    /// The part of the field that is drawn in the row: the cells of its
    /// highest and lowest bit there, whether the field ends in the row on
    /// either side, and the columns between the ends. `None` if the row is
    /// empty, the field has no bit in it, or a byte is missing from it.
    pub open spec fn spec_row_segment(self, row: RowShape) -> Option<RowSegment> {
        let (row_lo, row_hi) = row.bounds();
        let lo = self.start_bit as int;
        let hi = lo + self.width - 1;
        if row.row_len() == 0 || hi < row_lo || lo > row_hi {
            None
        } else {
            let seg_lo = if lo > row_lo { lo } else { row_lo };
            let seg_hi = if hi < row_hi { hi } else { row_hi };
            match (row.bit_to_p(seg_hi), row.bit_to_p(seg_lo)) {
                (Some(a), Some(b)) => {
                    let left_cap = row_lo <= hi <= row_hi;
                    let right_cap = row_lo <= lo <= row_hi;
                    Some(RowSegment {
                        a: a as usize,
                        b: b as usize,
                        left_cap,
                        right_cap,
                        dash_start: (row.col(a) + if left_cap { 1int } else { 0int }) as usize,
                        dash_end: (row.col(b) + row.w - 1 - if right_cap { 1int } else { 0int }) as usize,
                    })
                },
                _ => None,
            }
        }
    }

    /// The part of the field that is drawn in the row.
    pub fn row_segment(&self, ctx: &RowCtx<'_>) -> (r: Option<RowSegment>)
        requires
            self.drawable(),
            ctx@.wf(),
            ctx.w >= 2,
        ensures
            r == self.spec_row_segment(ctx@),
            r matches Some(seg) ==> {
                &&& seg.a < ctx@.row_len()
                &&& seg.b < ctx@.row_len()
                &&& seg.dash_end < ctx@.total_cols()
                &&& ctx@.total_cols() <= usize::MAX
            },
    {
        let row_len = ctx.row_len();
        if row_len == 0 {
            return None;
        }
        let (row_lo, row_hi) = ctx.bounds();
        let lo = self.start_bit;
        let hi = lo + self.width as usize - 1;
        if hi < row_lo || lo > row_hi {
            return None;
        }
        let seg_lo = if lo > row_lo { lo } else { row_lo };
        let seg_hi = if hi < row_hi { hi } else { row_hi };
        let a = match ctx.bit_to_p(seg_hi) {
            Some(a) => a,
            None => {
                return None;
            },
        };
        let b = match ctx.bit_to_p(seg_lo) {
            Some(b) => b,
            None => {
                return None;
            },
        };
        let left_cap = hi >= row_lo && hi <= row_hi;
        let right_cap = lo >= row_lo && lo <= row_hi;
        proof {
            lemma_col_bounds(ctx@, a as int);
            lemma_col_bounds(ctx@, b as int);
        }
        let dash_start = ctx.col(a) + if left_cap { 1 } else { 0 };
        let dash_end = ctx.col(b) + ctx.w - 1 - if right_cap { 1 } else { 0 };
        Some(RowSegment { a, b, left_cap, right_cap, dash_start, dash_end })
    }
}

/// The arithmetic of a row stays within the machine's numbers: the row's
/// length, the products that the columns are made of, and the number of
/// columns.
pub proof fn lemma_row_fits(row: RowShape, p: int)
    requires
        row.wf(),
        0 <= p <= row.row_len(),
    ensures
        row.row_len() <= usize::MAX,
        0 <= p * (row.w + GAP_WITHIN_CELL),
        p * (row.w + GAP_WITHIN_CELL) + (p / 8) * (GAP_AT_BYTE_SEAM - GAP_WITHIN_CELL) <= usize::MAX,
        0 <= row.row_len() * row.w,
        row.row_len() * row.w + row.row_len() + 2 * row.bytes.len() <= usize::MAX,
        0 <= row.total_cols() <= usize::MAX,
{
    let w = row.w as int;
    let len = row.row_len();
    assert(len * (w + 3) == len * w + 3 * len) by (nonlinear_arith);
    assert(0 <= len * w) by (nonlinear_arith)
        requires
            0 <= len,
            0 <= w,
    ;
    assert(0 <= p * (w + 1) <= len * (w + 1)) by (nonlinear_arith)
        requires
            0 <= p <= len,
            0 <= w,
    ;
    assert(len * (w + 1) == len * w + len) by (nonlinear_arith);
}

/// A cell lies inside the row: it starts at or after column 0 and ends at
/// or before the row's last column.
pub proof fn lemma_col_bounds(row: RowShape, p: int)
    requires
        row.wf(),
        0 <= p < row.row_len(),
    ensures
        0 <= row.col(p),
        row.col(p) + row.w <= row.total_cols(),
        row.total_cols() <= usize::MAX,
{
    let w = row.w as int;
    let len = row.row_len();
    lemma_row_fits(row, p);
    assert(p * (w + 1) <= (len - 1) * (w + 1)) by (nonlinear_arith)
        requires
            0 <= p <= len - 1,
            0 <= w,
    ;
    assert((len - 1) * (w + 1) == len * w + len - 1 - w) by (nonlinear_arith);
}

/// The next cell starts where this one and the gap behind it end.
pub proof fn lemma_col_step(row: RowShape, p: int)
    requires
        row.wf(),
        0 <= p,
        p + 1 < row.row_len(),
    ensures
        row.col(p + 1) == row.col(p) + row.w + row.gap_after(p),
{
    let w = row.w as int;
    assert((p + 1) * (w + 1) == p * (w + 1) + w + 1) by (nonlinear_arith);
}

/// Cells further right start further right, behind the cells before them.
pub proof fn lemma_col_monotonic(row: RowShape, p: int, q: int)
    requires
        row.wf(),
        0 <= p <= q,
    ensures
        row.col(p) <= row.col(q),
        p < q ==> row.col(p) + row.w < row.col(q),
{
    let w = row.w as int;
    assert(p * (w + 1) <= q * (w + 1)) by (nonlinear_arith)
        requires
            0 <= p <= q,
            0 <= w,
    ;
    if p < q {
        assert(p * (w + 1) + w + 1 <= q * (w + 1)) by (nonlinear_arith)
            requires
                0 <= p < q,
                0 <= w,
        ;
    }
}

/// `line` with `ch` in the columns `from .. to`.
pub open spec fn filled(line: Seq<char>, from: int, to: int, ch: char) -> Seq<char> {
    Seq::new(line.len(), |c: int| if from <= c < to { ch } else { line[c] })
}

/// Puts `ch` into the columns `from .. to` of `line`.
pub fn fill(line: &mut Vec<char>, from: usize, to: usize, ch: char)
    requires
        to <= old(line).len(),
    ensures
        final(line)@ == filled(old(line)@, from as int, to as int, ch),
{
    let ghost before = line@;
    let mut c: usize = from;
    while c < to
        invariant
            to <= line.len(),
            line.len() == before.len(),
            from <= c,
            c <= to || c == from,
            forall|k: int| 0 <= k < line.len() ==> #[trigger] line[k] == (if from <= k < c { ch } else { before[k] }),
        decreases to - c,
    {
        line.set(c, ch);
        c += 1;
    }
    assert(line@ =~= filled(before, from as int, to as int, ch));
}

/// `line` with the bracket of one segment drawn over it: dashes from the
/// first column of the segment's left cell to the last of its right cell,
/// and a corner at each end where the field ends in the row. A segment
/// whose left cell lies right of its right cell draws nothing.
pub open spec fn with_run(line: Seq<char>, row: RowShape, seg: RowSegment) -> Seq<char> {
    if seg.a > seg.b {
        line
    } else {
        let lo = row.col(seg.a as int);
        let hi = row.col(seg.b as int) + row.w;
        Seq::new(line.len(), |c: int| if lo <= c < hi {
            if seg.right_cap && c == hi - 1 {
                CH_CORNER_RIGHT
            } else if seg.left_cap && c == lo {
                CH_CORNER_LEFT
            } else {
                CH_DASH
            }
        } else {
            line[c]
        })
    }
}

/// `line` while a bracket is being drawn: the left corner is in place, and
/// dashes fill the columns from `lo` up to `upto`.
pub open spec fn run_so_far(line: Seq<char>, lo: int, upto: int, left_cap: bool) -> Seq<char> {
    Seq::new(line.len(), |c: int| if left_cap && c == lo {
        CH_CORNER_LEFT
    } else if lo <= c < upto {
        CH_DASH
    } else {
        line[c]
    })
}

/// Draws the bracket of one segment over `line`: the left corner, then
/// cell after cell and the gaps between them, then the right corner.
pub fn draw_run(line: &mut Vec<char>, ctx: &RowCtx<'_>, seg: RowSegment)
    requires
        ctx@.wf(),
        ctx.w >= 2,
        old(line).len() == ctx@.total_cols(),
        seg.a < ctx@.row_len(),
        seg.b < ctx@.row_len(),
    ensures
        final(line)@ == with_run(old(line)@, ctx@, seg),
{
    if seg.a > seg.b {
        return;
    }
    let ghost before = line@;
    let ghost row = ctx@;
    proof {
        lemma_col_bounds(row, seg.a as int);
        lemma_col_bounds(row, seg.b as int);
        lemma_col_monotonic(row, seg.a as int, seg.b as int);
    }
    let lo = ctx.col(seg.a);
    if seg.left_cap {
        line.set(lo, CH_CORNER_LEFT);
    }
    assert(line@ =~= run_so_far(before, lo as int, lo as int, seg.left_cap));
    let mut p: usize = seg.a;
    while p <= seg.b
        invariant
            seg.a <= p <= seg.b + 1,
            seg.b < row.row_len(),
            row == ctx@,
            row.wf(),
            row.w >= 2,
            lo == row.col(seg.a as int),
            line.len() == row.total_cols(),
            before.len() == line.len(),
            p <= seg.b ==> line@ == run_so_far(before, lo as int, row.col(p as int), seg.left_cap),
            p > seg.b ==> line@ == run_so_far(before, lo as int, row.col(seg.b as int) + row.w - if seg.right_cap { 1int } else { 0int }, seg.left_cap),
        decreases seg.b + 1 - p,
    {
        proof {
            lemma_col_bounds(row, p as int);
            lemma_col_monotonic(row, seg.a as int, p as int);
            if p < seg.b {
                lemma_col_step(row, p as int);
                lemma_col_bounds(row, p + 1);
            }
        }
        let start = ctx.col(p);
        let end = start + ctx.w;
        let from = if p == seg.a && seg.left_cap { start + 1 } else { start };
        let to = if p == seg.b && seg.right_cap { end - 1 } else { end };
        fill(line, from, to, CH_DASH);
        assert(line@ =~= run_so_far(before, lo as int, to as int, seg.left_cap));
        if p < seg.b {
            let g = ctx.gap_after(p);
            fill(line, end, end + g, CH_DASH);
            assert(line@ =~= run_so_far(before, lo as int, end + g, seg.left_cap));
        }
        p += 1;
    }
    if seg.right_cap {
        line.set(ctx.col(seg.b) + ctx.w - 1, CH_CORNER_RIGHT);
    }
    assert(line@ =~= with_run(before, row, seg));
}

/// `line` with the brackets of the first `n` fields drawn over it, in
/// order.
pub open spec fn with_runs(line: Seq<char>, row: RowShape, fields: Seq<FieldSpec>, n: int) -> Seq<char>
    decreases n,
{
    if n <= 0 {
        line
    } else {
        let prev = with_runs(line, row, fields, n - 1);
        match fields[n - 1].spec_row_segment(row) {
            Some(seg) => with_run(prev, row, seg),
            None => prev,
        }
    }
}

/// Where a field's width is written.
pub struct Label {
    /// The row.
    pub row: int,
    /// The column of the first character.
    pub col: int,
    /// The characters.
    pub text: Seq<char>,
}

/// Where a field's width is written.
#[derive(Clone, Debug)]
pub struct LabelPlacement {
    /// The row.
    pub row_idx: usize,
    /// The column of the first character.
    pub col: usize,
    /// The characters.
    pub text: String,
}

impl View for LabelPlacement {
    type V = Label;

    open spec fn view(&self) -> Label {
        Label { row: self.row_idx as int, col: self.col as int, text: self.text@ }
    }
}

/// The labels as placed, those that there are.
pub open spec fn label_views(labels: Seq<Option<LabelPlacement>>) -> Seq<Option<Label>> {
    Seq::new(labels.len(), |i: int| match labels[i] {
        Some(l) => Some(l@),
        None => None,
    })
}

/// `line` with `text` written over it from column `col` on, as far as the
/// line goes.
pub open spec fn with_label(line: Seq<char>, col: int, text: Seq<char>) -> Seq<char> {
    Seq::new(line.len(), |c: int| if col <= c < col + text.len() { text[c - col] } else { line[c] })
}

/// `line` with those of the first `n` labels that belong to row `row`
/// written over it, in order.
pub open spec fn with_labels(line: Seq<char>, labels: Seq<Option<Label>>, row: int, n: int) -> Seq<char>
    decreases n,
{
    if n <= 0 {
        line
    } else {
        let prev = with_labels(line, labels, row, n - 1);
        match labels[n - 1] {
            Some(l) => if l.row == row { with_label(prev, l.col, l.text) } else { prev },
            None => prev,
        }
    }
}

/// Whether the `w` columns from `start` on hold only spaces.
pub open spec fn cell_blank(line: Seq<char>, start: int, w: int) -> bool {
    forall|c: int| start <= c < start + w ==> #[trigger] line[c] == ' '
}

/// `line` with a mark in the last column of each of the first `n` cells
/// that hold only spaces.
pub open spec fn with_bullets(line: Seq<char>, row: RowShape, n: int) -> Seq<char>
    decreases n,
{
    if n <= 0 {
        line
    } else {
        let prev = with_bullets(line, row, n - 1);
        if cell_blank(prev, row.col(n - 1), row.w as int) {
            prev.update(row.col(n - 1) + row.w - 1, CH_UNUSED)
        } else {
            prev
        }
    }
}

/// The bracket line of a row: the fields' brackets, the labels of the
/// row written over them, and a mark in each cell that stayed empty.
pub open spec fn bracket_line(row: RowShape, fields: Seq<FieldSpec>, labels: Seq<Option<Label>>, row_idx: int) -> Seq<char> {
    let blank = Seq::new(row.total_cols() as nat, |c: int| ' ');
    let runs = with_runs(blank, row, fields, fields.len() as int);
    let labelled = with_labels(runs, labels, row_idx, labels.len() as int);
    with_bullets(labelled, row, row.row_len())
}

/// The two lines of a row: the header and the bracket line, each with its
/// line break. A row without bytes has an empty bracket line.
pub open spec fn row_text(row: RowShape, fields: Seq<FieldSpec>, labels: Seq<Option<Label>>, row_idx: int) -> Seq<char> {
    row.header() + seq!['\n'] + (if row.total_cols() == 0 {
        Seq::empty()
    } else {
        bracket_line(row, fields, labels, row_idx)
    }) + seq!['\n']
}

/// Writes `text` over `line` from column `col` on, as far as the line goes.
pub fn overlay(line: &mut Vec<char>, col: usize, text: &str)
    ensures
        final(line)@ == with_label(old(line)@, col as int, text@),
{
    let ghost before = line@;
    let n = text.unicode_len();
    let mut i: usize = 0;
    while i < n
        invariant
            i <= n,
            n == text@.len(),
            line.len() == before.len(),
            forall|k: int| 0 <= k < line.len() ==> #[trigger] line[k] == (if col <= k < col + i { text@[k - col] } else { before[k] }),
        decreases n - i,
    {
        let ch = text.get_char(i);
        if col < line.len() && i < line.len() - col {
            line.set(col + i, ch);
        }
        i += 1;
    }
    assert(line@ =~= with_label(before, col as int, text@));
}

/// Marks each cell of the row that holds only spaces.
pub fn mark_unused(line: &mut Vec<char>, ctx: &RowCtx<'_>)
    requires
        ctx@.wf(),
        ctx.w >= 1,
        old(line).len() == ctx@.total_cols(),
    ensures
        final(line)@ == with_bullets(old(line)@, ctx@, ctx@.row_len()),
{
    let ghost before = line@;
    let row_len = ctx.row_len();
    let mut p: usize = 0;
    while p < row_len
        invariant
            p <= row_len,
            row_len == ctx@.row_len(),
            ctx@.wf(),
            ctx.w >= 1,
            line.len() == ctx@.total_cols(),
            line@ == with_bullets(before, ctx@, p as int),
        decreases row_len - p,
    {
        proof {
            lemma_col_bounds(ctx@, p as int);
        }
        let cs = ctx.col(p);
        let mut blank = true;
        let mut c: usize = cs;
        while c < cs + ctx.w
            invariant
                cs <= c <= cs + ctx.w,
                cs + ctx.w <= line.len(),
                blank == cell_blank(line@, cs as int, c - cs),
            decreases cs + ctx.w - c,
        {
            if line[c] != ' ' {
                blank = false;
            }
            c += 1;
        }
        if blank {
            line.set(cs + ctx.w - 1, CH_UNUSED);
        }
        p += 1;
    }
}

/// The width of a bit cell in the diagram of a container of `nbytes`
/// bytes: as many columns as the highest bit number has digits, and at
/// least two.
pub open spec fn cell_width(nbytes: int) -> int {
    let highest = if nbytes * 8 == 0 { 0 } else { nbytes * 8 - 1 };
    let digits = decimal(highest as nat).len() as int;
    if digits < 2 { 2 } else { digits }
}

/// The number of rows that `nbytes` bytes are drawn in.
pub open spec fn row_count(nbytes: int) -> int {
    (nbytes + BYTES_PER_ROW - 1) / (BYTES_PER_ROW as int)
}

/// The bytes of row `r`, leftmost first: the highest bytes come first.
pub open spec fn row_bytes(nbytes: int, r: int) -> Seq<usize> {
    let left = nbytes - r * BYTES_PER_ROW;
    let len = if left < BYTES_PER_ROW { left } else { BYTES_PER_ROW as int };
    Seq::new(len as nat, |j: int| (left - 1 - j) as usize)
}

/// The text that a field's width is written as: the number between two
/// spaces.
pub open spec fn label_text(width: int) -> Seq<char> {
    seq![' '] + decimal(width as nat) + seq![' ']
}

/// The number of columns of a segment that are free for a label.
pub open spec fn dash_len(seg: Option<RowSegment>) -> int {
    match seg {
        Some(s) => if s.dash_end >= s.dash_start { s.dash_end + 1 - s.dash_start } else { 0 },
        None => 0,
    }
}

/// The diagram of a layout: the rows of bytes and the fields to draw.
pub struct Diagram {
    order: BitOrder,
    w: usize,
    rows: Vec<Vec<usize>>,
    fields: Vec<FieldSpec>,
}

impl Diagram {
    /// The numbering of bits within a byte.
    pub closed spec fn spec_order(self) -> BitOrder {
        self.order
    }

    /// The width of a bit cell in columns.
    pub closed spec fn spec_w(self) -> usize {
        self.w
    }

    /// The bytes of each row.
    pub closed spec fn spec_rows(self) -> Seq<Seq<usize>> {
        Seq::new(self.rows.len() as nat, |r: int| self.rows[r]@)
    }

    /// The fields that are drawn.
    pub closed spec fn spec_fields(self) -> Seq<FieldSpec> {
        self.fields@
    }

    /// The geometry of row `r`.
    pub open spec fn row(self, r: int) -> RowShape {
        RowShape { w: self.spec_w(), bytes: self.spec_rows()[r], order: self.spec_order() }
    }

    /// Every row can be drawn and every field has a bit.
    pub open spec fn wf(self) -> bool {
        &&& self.spec_w() >= 2
        &&& forall|r: int| 0 <= r < self.spec_rows().len() ==> (#[trigger] self.row(r)).wf()
        &&& forall|i: int| 0 <= i < self.spec_fields().len() ==> (#[trigger] self.spec_fields()[i]).drawable()
    }

    #[verifier::type_invariant]
    spec fn inv(self) -> bool {
        self.wf()
    }

    /// The row where the bracket of `f` is longest among the first `n`
    /// rows, the first such row, with the first and last free column of
    /// the bracket there. `None` if the field has no free column in them.
    pub open spec fn best_row(self, f: FieldSpec, n: int) -> Option<(int, int, int)>
        decreases n,
    {
        if n <= 0 {
            None
        } else {
            let prev = self.best_row(f, n - 1);
            let prev_len = match prev {
                Some((_, s, e)) => e + 1 - s,
                None => 0,
            };
            let seg = f.spec_row_segment(self.row(n - 1));
            if prev_len < dash_len(seg) {
                Some((n - 1, seg->Some_0.dash_start as int, seg->Some_0.dash_end as int))
            } else {
                prev
            }
        }
    }

    /// Where the width of `f` is written, if it is written: in the middle
    /// of the longest part of its bracket. A field of less than
    /// `MIN_LABEL_BITS` bits, or of fewer bits than its label has
    /// characters, or whose bracket is nowhere long enough, has no label.
    pub open spec fn spec_label(self, f: FieldSpec) -> Option<Label> {
        let text = label_text(f.width as int);
        if f.width < MIN_LABEL_BITS || f.width < text.len() {
            None
        } else {
            match self.best_row(f, self.spec_rows().len() as int) {
                Some((row, s, e)) => if e + 1 - s >= text.len() {
                    Some(Label { row, col: s + (e + 1 - s - text.len()) / 2, text })
                } else {
                    None
                },
                None => None,
            }
        }
    }

    /// The label of each field.
    pub open spec fn spec_plan(self) -> Seq<Option<Label>> {
        Seq::new(self.spec_fields().len(), |i: int| self.spec_label(self.spec_fields()[i]))
    }

    /// The text of the first `n` rows.
    pub open spec fn rows_text(self, labels: Seq<Option<Label>>, n: int) -> Seq<char>
        decreases n,
    {
        if n <= 0 {
            Seq::empty()
        } else {
            self.rows_text(labels, n - 1) + row_text(self.row(n - 1), self.spec_fields(), labels, n - 1)
        }
    }

    /// The diagram of `fields` in a container of `nbytes` bytes: rows of
    /// `BYTES_PER_ROW` bytes, the highest bytes first.
    pub fn new(nbytes: usize, order: BitOrder, fields: &[FieldSpec]) -> (d: Diagram)
        requires
            nbytes * 8 <= usize::MAX,
            forall|i: int| 0 <= i < fields@.len() ==> (#[trigger] fields@[i]).drawable(),
        ensures
            d.wf(),
            d.spec_order() == order,
            d.spec_w() == cell_width(nbytes as int),
            d.spec_fields() == fields@,
            d.spec_rows().len() == row_count(nbytes as int),
            forall|r: int| 0 <= r < d.spec_rows().len() ==> #[trigger] d.spec_rows()[r] == row_bytes(nbytes as int, r),
    {
        let tb = nbytes * 8;
        let highest = if tb == 0 { 0 } else { tb - 1 };
        let digits = decimal_digits(highest).len();
        let w = if digits < 2 { 2 } else { digits };
        let mut rows: Vec<Vec<usize>> = Vec::new();
        let mut left: usize = nbytes;
        while left > 0
            invariant
                left <= nbytes,
                nbytes * 8 <= usize::MAX,
                left > 0 ==> rows.len() * BYTES_PER_ROW == nbytes - left,
                left == 0 ==> rows.len() == row_count(nbytes as int),
                rows.len() <= row_count(nbytes as int),
                forall|r: int| 0 <= r < rows.len() ==> (#[trigger] rows[r])@ == row_bytes(nbytes as int, r),
            decreases left,
        {
            let len = if left < BYTES_PER_ROW { left } else { BYTES_PER_ROW };
            let ghost r = rows.len() as int;
            let mut row: Vec<usize> = Vec::new();
            let mut j: usize = 0;
            while j < len
                invariant
                    j <= len <= left,
                    row.len() == j,
                    forall|k: int| 0 <= k < j ==> #[trigger] row[k] == left - 1 - k,
                decreases len - j,
            {
                row.push(left - 1 - j);
                j += 1;
            }
            assert(row@ =~= row_bytes(nbytes as int, r));
            let ghost before = rows@;
            rows.push(row);
            assert(forall|k: int| 0 <= k < r ==> rows[k] == before[k]);
            left -= len;
        }
        let mut copies: Vec<FieldSpec> = Vec::new();
        let mut i: usize = 0;
        while i < fields.len()
            invariant
                i <= fields.len(),
                copies.len() == i,
                forall|k: int| 0 <= k < i ==> #[trigger] copies[k] == fields@[k],
            decreases fields.len() - i,
        {
            copies.push(fields[i].duplicate());
            i += 1;
        }
        assert(copies@ =~= fields@);
        proof {
            let shapes = Seq::new(rows.len() as nat, |r: int| rows[r]@);
            assert forall|r: int| 0 <= r < rows.len() implies (RowShape { w, bytes: #[trigger] shapes[r], order }).wf() by {
                assert(shapes[r] == row_bytes(nbytes as int, r));
                let len = shapes[r].len() * 8;
                assert(len * (w + 3) <= 16 * 23) by (nonlinear_arith)
                    requires
                        0 <= len <= 16,
                        0 <= w <= 20,
                ;
            }
        }
        Diagram { order, w, rows, fields: copies }
    }
}

impl Diagram {
    /// Chooses for each field the place of its width: the row where its
    /// bracket has the most free columns, the first of them if there are
    /// several, and there the middle of the bracket. A field whose label
    /// does not fit gets none.
    pub fn plan_labels(&self) -> (plan: Vec<Option<LabelPlacement>>)
        ensures
            label_views(plan@) == self.spec_plan(),
    {
        proof {
            use_type_invariant(self);
        }
        let mut plan: Vec<Option<LabelPlacement>> = Vec::new();
        let mut fi: usize = 0;
        while fi < self.fields.len()
            invariant
                fi <= self.fields.len(),
                self.wf(),
                plan.len() == fi,
                forall|k: int| 0 <= k < fi ==> #[trigger] label_views(plan@)[k] == self.spec_label(self.spec_fields()[k]),
            decreases self.fields.len() - fi,
        {
            let f = &self.fields[fi];
            assert(f.drawable());
            let mut text: Vec<char> = Vec::new();
            text.push(' ');
            let mut digits = decimal_digits(f.width as usize);
            text.append(&mut digits);
            text.push(' ');
            assert(text@ =~= label_text(f.width as int));
            let lw = text.len();
            let width = f.width as usize;
            let mut best: Option<(usize, usize, usize)> = None;
            let mut ri: usize = 0;
            while ri < self.rows.len()
                invariant
                    ri <= self.rows.len(),
                    self.wf(),
                    f.drawable(),
                    *f == self.spec_fields()[fi as int],
                    match best {
                        Some((r, s, e)) => self.best_row(*f, ri as int) == Some((r as int, s as int, e as int)) && s <= e < usize::MAX,
                        None => self.best_row(*f, ri as int) is None,
                    },
                decreases self.rows.len() - ri,
            {
                let ctx = RowCtx { w: self.w, bytes: self.rows[ri].as_slice(), order: self.order };
                assert(ctx@ == self.row(ri as int));
                match f.row_segment(&ctx) {
                    Some(seg) => {
                        if seg.dash_end >= seg.dash_start {
                            let len = seg.dash_end + 1 - seg.dash_start;
                            let best_len = match best {
                                Some((_, s, e)) => e + 1 - s,
                                None => 0,
                            };
                            if best_len < len {
                                best = Some((ri, seg.dash_start, seg.dash_end));
                            }
                        }
                    },
                    None => {},
                }
                ri += 1;
            }
            let ghost before = plan@;
            let placed: Option<LabelPlacement> = if width < MIN_LABEL_BITS || width < lw {
                None
            } else {
                match best {
                    Some((r, s, e)) => {
                        if e + 1 - s >= lw {
                            let place = s + ((e + 1 - s) - lw) / 2;
                            Some(LabelPlacement { row_idx: r, col: place, text: string_of(&text) })
                        } else {
                            None
                        }
                    },
                    None => None,
                }
            };
            plan.push(placed);
            proof {
                assert forall|k: int| 0 <= k < fi + 1 implies #[trigger] label_views(plan@)[k] == self.spec_label(self.spec_fields()[k]) by {
                    if k < fi {
                        assert(plan@[k] == before[k]);
                        assert(label_views(before)[k] == self.spec_label(self.spec_fields()[k]));
                    }
                }
            }
            fi += 1;
        }
        assert(label_views(plan@) =~= self.spec_plan());
        plan
    }

    /// Writes the two lines of row `row_idx`: the header with the number of
    /// each bit, and below it the brackets of the fields, the labels that
    /// belong to the row, and a mark in each cell that no bracket covers.
    pub fn render_row(&self, out: &mut String, row_idx: usize, labels: &[Option<LabelPlacement>])
        requires
            row_idx < self.spec_rows().len(),
        ensures
            final(out)@ == old(out)@ + row_text(self.row(row_idx as int), self.spec_fields(), label_views(labels@), row_idx as int),
    {
        proof {
            use_type_invariant(self);
        }
        let ghost before = out@;
        let ghost row = self.row(row_idx as int);
        let ghost views = label_views(labels@);
        let ctx = RowCtx { w: self.w, bytes: self.rows[row_idx].as_slice(), order: self.order };
        assert(ctx@ == row);
        ctx.write_header(out);
        let total_cols = ctx.total_cols();
        if total_cols == 0 {
            out.push('\n');
            assert(out@ =~= before + row_text(row, self.spec_fields(), views, row_idx as int));
            return;
        }
        let mut line: Vec<char> = Vec::new();
        let mut c: usize = 0;
        while c < total_cols
            invariant
                c <= total_cols,
                line.len() == c,
                forall|k: int| 0 <= k < c ==> #[trigger] line[k] == ' ',
            decreases total_cols - c,
        {
            line.push(' ');
            c += 1;
        }
        let ghost blank = Seq::new(row.total_cols() as nat, |c: int| ' ');
        assert(line@ =~= blank);
        let mut i: usize = 0;
        while i < self.fields.len()
            invariant
                i <= self.fields.len(),
                self.wf(),
                ctx@ == row,
                row.wf(),
                ctx.w >= 2,
                line.len() == row.total_cols(),
                line@ == with_runs(blank, row, self.spec_fields(), i as int),
            decreases self.fields.len() - i,
        {
            let f = &self.fields[i];
            assert(f.drawable());
            match f.row_segment(&ctx) {
                Some(seg) => {
                    draw_run(&mut line, &ctx, seg);
                },
                None => {},
            }
            i += 1;
        }
        let ghost runs = line@;
        let mut n: usize = 0;
        while n < labels.len()
            invariant
                n <= labels.len(),
                views == label_views(labels@),
                line.len() == row.total_cols(),
                line@ == with_labels(runs, views, row_idx as int, n as int),
            decreases labels.len() - n,
        {
            match &labels[n] {
                Some(lp) => {
                    assert(views[n as int] == Some(lp@));
                    if lp.row_idx == row_idx {
                        overlay(&mut line, lp.col, lp.text.as_str());
                    }
                },
                None => {
                    assert(views[n as int] is None);
                },
            }
            n += 1;
        }
        mark_unused(&mut line, &ctx);
        push_chars(out, &line);
        out.push('\n');
        assert(out@ =~= before + row_text(row, self.spec_fields(), views, row_idx as int));
    }

    /// Draws the diagram: a code fence, the rows from the highest bytes
    /// down, and the closing fence.
    pub fn render(&self) -> (s: String)
        ensures
            s@ == "```"@ + "no_run\n"@ + self.rows_text(self.spec_plan(), self.spec_rows().len() as int) + "```"@,
    {
        let mut out = String::new();
        out.append("```");
        out.append("no_run\n");
        let labels = self.plan_labels();
        let ghost head = out@;
        assert(head =~= "```"@ + "no_run\n"@);
        let mut row_idx: usize = 0;
        assert(out@ =~= head + self.rows_text(self.spec_plan(), 0));
        while row_idx < self.rows.len()
            invariant
                row_idx <= self.rows.len(),
                self.rows.len() == self.spec_rows().len(),
                label_views(labels@) == self.spec_plan(),
                out@ == head + self.rows_text(self.spec_plan(), row_idx as int),
            decreases self.rows.len() - row_idx,
        {
            self.render_row(&mut out, row_idx, labels.as_slice());
            row_idx += 1;
            assert(out@ =~= head + self.rows_text(self.spec_plan(), row_idx as int));
        }
        out.append("```");
        out
    }
}

} // verus!
