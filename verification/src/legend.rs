//! A letter map of a container's layout.
//!
//! Every bit of the container is drawn as one cell that holds the letter
//! of the field that uses it. A field takes its letter from its name where
//! it can, and from a palette where its name has none left. Bytes are
//! drawn in rows of two, highest byte first, each row with the numbers of
//! its bits above it.

use vstd::prelude::*;
use vstd::string::*;
use crate::diagram::{fill, filled, row_bytes, row_count, BYTES_PER_ROW};
use crate::layout::FieldSpec;
use crate::text::{decimal, decimal_digits, pad_left, padded, push_chars};

verus! {

/// The cell of a bit that no field uses.
pub const CH_EMPTY: char = '◦';

/// The cell of a bit that is set aside and that no field uses.
pub const CH_RESERVED: char = '•';

/// The letter of a field when no letter is left.
pub const CH_NONE_LEFT: char = '?';

/// The number of characters that can be marked as used.
pub const USED_LEN: usize = 128;

/// The letters that fields take when their names have none left: the
/// capitals and then the small letters, without those that look like
/// digits.
pub open spec fn spec_palette() -> Seq<char> {
    seq![
        'A', 'B', 'C', 'D', 'E', 'F', 'G', 'H', 'J', 'K', 'M', 'N', 'P', 'Q', 'R', 'S', 'T', 'U', 'V', 'W', 'X', 'Y', 'Z',
        'a', 'b', 'c', 'd', 'e', 'f', 'g', 'h', 'j', 'k', 'm', 'n', 'p', 'q', 'r', 's', 't', 'u', 'v', 'w', 'x', 'y', 'z',
    ]
}

/// The palette.
pub fn palette() -> (p: Vec<char>)
    ensures
        p@ == spec_palette(),
{
    let p = vec![
        'A', 'B', 'C', 'D', 'E', 'F', 'G', 'H', 'J', 'K', 'M', 'N', 'P', 'Q', 'R', 'S', 'T', 'U', 'V', 'W', 'X', 'Y', 'Z',
        'a', 'b', 'c', 'd', 'e', 'f', 'g', 'h', 'j', 'k', 'm', 'n', 'p', 'q', 'r', 's', 't', 'u', 'v', 'w', 'x', 'y', 'z',
    ];
    assert(p@ =~= spec_palette());
    p
}

/// Whether `c` is one of the 52 letters `a..=z` and `A..=Z`.
pub open spec fn is_letter(c: char) -> bool {
    ('a' as u32 <= c as u32 && c as u32 <= 'z' as u32) || ('A' as u32 <= c as u32 && c as u32 <= 'Z' as u32)
}

/// The capital of a small letter; any other character as it is.
pub open spec fn capital(c: char) -> char {
    if 'a' as u32 <= c as u32 && c as u32 <= 'z' as u32 {
        ((c as u32 - 32) as u8) as char
    } else {
        c
    }
}

/// Whether `c` is a capital that looks like a digit.
pub open spec fn looks_like_digit(c: char) -> bool {
    c == 'I' || c == 'L' || c == 'O'
}

/// Whether `c` can be marked and is not marked in `used`.
pub open spec fn is_free(used: Seq<bool>, c: char) -> bool {
    (c as int) < used.len() && !used[c as int]
}

/// `used` with `c` marked, if `c` can be marked.
pub open spec fn marked(used: Seq<bool>, c: char) -> Seq<bool> {
    if (c as int) < used.len() {
        used.update(c as int, true)
    } else {
        used
    }
}

/// Marks `c` as used and says whether it was free before.
pub fn take(used: &mut Vec<bool>, c: char) -> (r: bool)
    ensures
        r == is_free(old(used)@, c),
        final(used)@ == marked(old(used)@, c),
{
    let i = c as u32 as usize;
    if i < used.len() {
        let was = used[i];
        used.set(i, true);
        !was
    } else {
        false
    }
}

/// The letter that a character of a name offers: its capital, if the
/// character is a letter and the capital does not look like a digit.
pub open spec fn offered(c: char) -> Option<char> {
    if is_letter(c) && !looks_like_digit(capital(c)) {
        Some(capital(c))
    } else {
        None
    }
}

/// The first free letter that the name offers from position `i` on.
pub open spec fn name_pick(name: Seq<char>, used: Seq<bool>, i: int) -> Option<char>
    decreases name.len() - i,
{
    if i < 0 || i >= name.len() {
        None
    } else {
        match offered(name[i]) {
            Some(c) => if is_free(used, c) { Some(c) } else { name_pick(name, used, i + 1) },
            None => name_pick(name, used, i + 1),
        }
    }
}

/// The first free letter of the palette from position `i` on.
pub open spec fn palette_pick(used: Seq<bool>, i: int) -> Option<char>
    decreases spec_palette().len() - i,
{
    if i < 0 || i >= spec_palette().len() {
        None
    } else if is_free(used, spec_palette()[i]) {
        Some(spec_palette()[i])
    } else {
        palette_pick(used, i + 1)
    }
}

/// The letter that a field of this name gets: the first free letter that
/// its name offers, else the first free letter of the palette.
pub open spec fn spec_pick(name: Seq<char>, used: Seq<bool>) -> Option<char> {
    match name_pick(name, used, 0) {
        Some(c) => Some(c),
        None => palette_pick(used, 0),
    }
}

/// The capital that a character of a name offers.
pub fn offer(c: char) -> (r: Option<char>)
    ensures
        r == offered(c),
{
    let n = c as u32;
    let small = 'a' as u32 <= n && n <= 'z' as u32;
    let big = 'A' as u32 <= n && n <= 'Z' as u32;
    if !small && !big {
        return None;
    }
    let up: char = if small { ((n - 32) as u8) as char } else { c };
    if up == 'I' || up == 'L' || up == 'O' {
        None
    } else {
        Some(up)
    }
}

/// Picks the letter of a field and marks it as used: the first letter of
/// the name that is free, as a capital and not one that looks like a
/// digit; else the first free letter of the palette; else `?`.
pub fn pick(name: &str, used: &mut Vec<bool>) -> (tag: char)
    ensures
        tag == match spec_pick(name@, old(used)@) {
            Some(c) => c,
            None => CH_NONE_LEFT,
        },
        final(used)@ == match spec_pick(name@, old(used)@) {
            Some(c) => marked(old(used)@, c),
            None => old(used)@,
        },
{
    let ghost before = used@;
    let n = name.unicode_len();
    let mut i: usize = 0;
    while i < n
        invariant
            i <= n,
            n == name@.len(),
            used@ == before,
            before == old(used)@,
            name_pick(name@, before, i as int) == name_pick(name@, before, 0),
        decreases n - i,
    {
        match offer(name.get_char(i)) {
            Some(c) => {
                if take(used, c) {
                    return c;
                }
                assert(used@ =~= before);
            },
            None => {},
        }
        i += 1;
    }
    let pal = palette();
    let mut k: usize = 0;
    while k < pal.len()
        invariant
            k <= pal.len(),
            pal@ == spec_palette(),
            used@ == before,
            before == old(used)@,
            name_pick(name@, before, 0) is None,
            palette_pick(before, k as int) == palette_pick(before, 0),
        decreases pal.len() - k,
    {
        if take(used, pal[k]) {
            return pal[k];
        }
        assert(used@ =~= before);
        k += 1;
    }
    CH_NONE_LEFT
}

/// The characters that are marked as used once the first `n` fields have
/// their letters.
pub open spec fn used_after(fields: Seq<FieldSpec>, n: int) -> Seq<bool>
    decreases n,
{
    if n <= 0 {
        Seq::new(USED_LEN as nat, |i: int| false)
    } else {
        let before = used_after(fields, n - 1);
        match spec_pick(fields[n - 1].ident@, before) {
            Some(c) => marked(before, c),
            None => before,
        }
    }
}

/// The letter of field `n`: fields get their letters in order.
pub open spec fn tag_of(fields: Seq<FieldSpec>, n: int) -> char {
    match spec_pick(fields[n].ident@, used_after(fields, n)) {
        Some(c) => c,
        None => CH_NONE_LEFT,
    }
}

/// The cells of a container of `tb` bits once the first `n` fields are
/// drawn: a bit holds the letter of the last field that uses it.
pub open spec fn tagged_cells(fields: Seq<FieldSpec>, tb: int, n: int) -> Seq<char>
    decreases n,
{
    if n <= 0 {
        Seq::new(tb as nat, |i: int| CH_EMPTY)
    } else {
        filled(
            tagged_cells(fields, tb, n - 1),
            fields[n - 1].start_bit as int,
            fields[n - 1].start_bit + fields[n - 1].width,
            tag_of(fields, n - 1),
        )
    }
}

/// `cells` with the mark of a reserved bit in each empty cell that is
/// set aside.
pub open spec fn with_reserved(cells: Seq<char>, reserved: Seq<bool>) -> Seq<char> {
    Seq::new(cells.len(), |i: int| if i < reserved.len() && reserved[i] && cells[i] == CH_EMPTY {
        CH_RESERVED
    } else {
        cells[i]
    })
}

/// The cells of the letter map: the fields' letters, the mark of a
/// reserved bit, and the mark of an empty one.
pub open spec fn legend_cells(fields: Seq<FieldSpec>, reserved: Seq<bool>, tb: int) -> Seq<char> {
    with_reserved(tagged_cells(fields, tb, fields.len() as int), reserved)
}

/// The width of a cell of the letter map: as many columns as the highest
/// bit number has digits, and at least two.
pub open spec fn legend_cell_width(nbytes: int) -> int {
    let highest = if nbytes * 8 == 0 { 0 } else { nbytes * 8 - 1 };
    let digits = decimal(highest as nat).len() as int;
    if digits < 2 { 2 } else { digits }
}

/// The number of bit `g` with at least two digits.
pub open spec fn number_text(g: int) -> Seq<char> {
    pad_left(decimal(g as nat), 2, '0')
}

/// What the cell of bit `g` shows: the number of the bit where there are
/// no cells to show, and else the bit's cell.
pub open spec fn shown(cells: Option<Seq<char>>, g: int) -> Seq<char> {
    match cells {
        Some(c) => seq![c[g]],
        None => number_text(g),
    }
}

/// The first `n` cells of byte `b`, from its highest bit down, each set
/// to the right in `w` columns, with a space between two cells.
pub open spec fn byte_cells(b: int, w: int, n: int, cells: Option<Seq<char>>) -> Seq<char>
    decreases n,
{
    if n <= 0 {
        Seq::empty()
    } else {
        byte_cells(b, w, n - 1, cells) + pad_left(shown(cells, b * 8 + (8 - n)), w, ' ') + (if n < 8 {
            seq![' ']
        } else {
            Seq::empty()
        })
    }
}

/// The cells of the first `m` bytes of a row, with two spaces between two
/// bytes.
pub open spec fn line_cells(bytes: Seq<usize>, w: int, m: int, cells: Option<Seq<char>>) -> Seq<char>
    decreases m,
{
    if m <= 0 {
        Seq::empty()
    } else {
        line_cells(bytes, w, m - 1, cells) + (if m > 1 {
            seq![' ', ' ']
        } else {
            Seq::empty()
        }) + byte_cells(bytes[m - 1] as int, w, 8, cells)
    }
}

/// The two lines of a row of the letter map: the numbers of the bits and,
/// below them, their cells, each line with its line break.
pub open spec fn legend_row(bytes: Seq<usize>, w: int, cells: Seq<char>) -> Seq<char> {
    line_cells(bytes, w, bytes.len() as int, None) + seq!['\n'] + line_cells(bytes, w, bytes.len() as int, Some(cells)) + seq!['\n']
}

/// The first `n` rows of the letter map of a container of `nbytes` bytes.
pub open spec fn legend_rows(nbytes: int, w: int, cells: Seq<char>, n: int) -> Seq<char>
    decreases n,
{
    if n <= 0 {
        Seq::empty()
    } else {
        legend_rows(nbytes, w, cells, n - 1) + legend_row(row_bytes(nbytes, n - 1), w, cells)
    }
}

/// Writes one line of a row: the number of each bit, or its cell where
/// cells are given.
pub fn write_cells(out: &mut String, bytes: &Vec<usize>, w: usize, cells: Option<&Vec<char>>)
    requires
        forall|i: int| 0 <= i < bytes.len() ==> (#[trigger] bytes[i]) * 8 + 7 <= usize::MAX,
        cells matches Some(c) ==> forall|i: int| 0 <= i < bytes.len() ==> (#[trigger] bytes[i]) * 8 + 7 < c.len(),
    ensures
        final(out)@ == old(out)@ + line_cells(
            bytes@,
            w as int,
            bytes.len() as int,
            match cells {
                Some(c) => Some(c@),
                None => None,
            },
        ),
{
    let ghost before = out@;
    let ghost view: Option<Seq<char>> = match cells {
        Some(c) => Some(c@),
        None => None,
    };
    let mut m: usize = 0;
    assert(out@ =~= before + line_cells(bytes@, w as int, 0, view));
    while m < bytes.len()
        invariant
            m <= bytes.len(),
            forall|i: int| 0 <= i < bytes.len() ==> (#[trigger] bytes[i]) * 8 + 7 <= usize::MAX,
            cells matches Some(c) ==> forall|i: int| 0 <= i < bytes.len() ==> (#[trigger] bytes[i]) * 8 + 7 < c.len(),
            view == match cells {
                Some(c) => Some(c@),
                None => None::<Seq<char>>,
            },
            out@ == before + line_cells(bytes@, w as int, m as int, view),
        decreases bytes.len() - m,
    {
        let b = bytes[m];
        if m > 0 {
            out.append("  ");
            proof {
                reveal_strlit("  ");
                assert("  "@ =~= seq![' ', ' ']);
            }
        }
        let ghost start = out@;
        let mut n: usize = 0;
        assert(out@ =~= start + byte_cells(b as int, w as int, 0, view));
        while n < 8
            invariant
                n <= 8,
                b * 8 + 7 <= usize::MAX,
                cells matches Some(c) ==> b * 8 + 7 < c.len(),
                view == match cells {
                    Some(c) => Some(c@),
                    None => None::<Seq<char>>,
                },
                out@ == start + byte_cells(b as int, w as int, n as int, view),
            decreases 8 - n,
        {
            let bit = 7 - n;
            let g = b * 8 + bit;
            let text: Vec<char> = match cells {
                Some(c) => {
                    let mut one: Vec<char> = Vec::new();
                    one.push(c[g]);
                    assert(one@ =~= seq![c@[g as int]]);
                    one
                },
                None => {
                    let digits = decimal_digits(g);
                    padded(&digits, 2, '0')
                },
            };
            assert(text@ == shown(view, g as int));
            let cell = padded(&text, w, ' ');
            push_chars(out, &cell);
            if bit != 0 {
                out.push(' ');
            }
            n += 1;
            assert(out@ =~= start + byte_cells(b as int, w as int, n as int, view));
        }
        m += 1;
        assert(out@ =~= before + line_cells(bytes@, w as int, m as int, view));
    }
}

/// Draws the letter map of `fields` in a container of `nbytes` bytes.
///
/// Each field gets a letter, in order: the first free letter of its name,
/// else the first free letter of the palette. The bits of a field show its
/// letter; an unused bit shows the mark of a reserved bit where `reserved`
/// sets it aside, and the mark of an empty bit elsewhere. The rows hold
/// two bytes each, the highest bytes first, between two code fences.
pub fn render_layout(nbytes: usize, fields: &[FieldSpec], reserved: &[bool]) -> (s: String)
    requires
        nbytes * 8 <= usize::MAX,
        forall|i: int| 0 <= i < fields@.len() ==> (#[trigger] fields@[i]).start_bit + fields@[i].width <= nbytes * 8,
    ensures
        s@ == "```\n"@ + legend_rows(
            nbytes as int,
            legend_cell_width(nbytes as int),
            legend_cells(fields@, reserved@, nbytes * 8),
            row_count(nbytes as int),
        ) + "```"@,
{
    let tb = nbytes * 8;
    let mut cell: Vec<char> = Vec::new();
    let mut i: usize = 0;
    while i < tb
        invariant
            i <= tb,
            cell.len() == i,
            forall|k: int| 0 <= k < i ==> #[trigger] cell[k] == CH_EMPTY,
        decreases tb - i,
    {
        cell.push(CH_EMPTY);
        i += 1;
    }
    let mut used: Vec<bool> = Vec::new();
    let mut u: usize = 0;
    while u < USED_LEN
        invariant
            u <= USED_LEN,
            used.len() == u,
            forall|k: int| 0 <= k < u ==> #[trigger] used[k] == false,
        decreases USED_LEN - u,
    {
        used.push(false);
        u += 1;
    }
    assert(cell@ =~= tagged_cells(fields@, tb as int, 0));
    assert(used@ =~= used_after(fields@, 0));
    let mut n: usize = 0;
    while n < fields.len()
        invariant
            n <= fields.len(),
            tb == nbytes * 8,
            forall|i: int| 0 <= i < fields@.len() ==> (#[trigger] fields@[i]).start_bit + fields@[i].width <= nbytes * 8,
            cell.len() == tb,
            used@ == used_after(fields@, n as int),
            cell@ == tagged_cells(fields@, tb as int, n as int),
        decreases fields.len() - n,
    {
        let f = &fields[n];
        let tag = pick(f.ident.as_str(), &mut used);
        assert(tag == tag_of(fields@, n as int));
        fill(&mut cell, f.start_bit, f.start_bit + f.width as usize, tag);
        n += 1;
    }
    let ghost tagged = cell@;
    let mut r: usize = 0;
    while r < reserved.len() && r < tb
        invariant
            cell.len() == tb,
            tagged.len() == tb,
            r <= tb,
            r <= reserved.len(),
            forall|k: int| 0 <= k < tb ==> #[trigger] cell[k] == (if k < r { with_reserved(tagged, reserved@)[k] } else { tagged[k] }),
        decreases reserved.len() - r,
    {
        if reserved[r] && cell[r] == CH_EMPTY {
            cell.set(r, CH_RESERVED);
        }
        r += 1;
    }
    assert(cell@ =~= legend_cells(fields@, reserved@, tb as int));
    let highest = if tb == 0 { 0 } else { tb - 1 };
    let digits = decimal_digits(highest).len();
    let w = if digits < 2 { 2 } else { digits };
    let mut out = String::new();
    out.append("```\n");
    let ghost head = out@;
    let ghost cells = cell@;
    let mut left: usize = nbytes;
    let mut rows: usize = 0;
    assert(out@ =~= head + legend_rows(nbytes as int, w as int, cells, 0));
    while left > 0
        invariant
            left <= nbytes,
            nbytes * 8 <= usize::MAX,
            cell@ == cells,
            cells.len() == nbytes * 8,
            left > 0 ==> rows * BYTES_PER_ROW == nbytes - left,
            left == 0 ==> rows == row_count(nbytes as int),
            rows <= row_count(nbytes as int),
            out@ == head + legend_rows(nbytes as int, w as int, cells, rows as int),
        decreases left,
    {
        let len = if left < BYTES_PER_ROW { left } else { BYTES_PER_ROW };
        let mut bytes: Vec<usize> = Vec::new();
        let mut j: usize = 0;
        while j < len
            invariant
                j <= len <= left,
                bytes.len() == j,
                forall|k: int| 0 <= k < j ==> #[trigger] bytes[k] == left - 1 - k,
            decreases len - j,
        {
            bytes.push(left - 1 - j);
            j += 1;
        }
        assert(bytes@ =~= row_bytes(nbytes as int, rows as int));
        write_cells(&mut out, &bytes, w, None);
        out.push('\n');
        write_cells(&mut out, &bytes, w, Some(&cell));
        out.push('\n');
        left -= len;
        rows += 1;
        assert(out@ =~= head + legend_rows(nbytes as int, w as int, cells, rows as int));
    }
    out.append("```");
    out
}

} // verus!
