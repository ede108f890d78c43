use packbits::args::BitOrder;
use packbits::diagram::{draw_run, fill, mark_unused, overlay, Diagram, RowCtx, RowSegment};
use packbits::layout::{FieldKind, FieldSpec};

fn fs(ty: &str, width: u16, start_bit: usize) -> FieldSpec {
    FieldSpec { ident: "f".to_string(), ty: ty.to_string(), width, start_bit, kind: FieldKind::from_type(ty) }
}

const TWO: [usize; 2] = [1, 0];

fn two_bytes(order: BitOrder) -> RowCtx<'static> {
    RowCtx { w: 2, bytes: &TWO, order }
}

#[test]
fn a_row_has_eight_cells_for_each_byte() {
    assert_eq!(two_bytes(BitOrder::Lsb0).row_len(), 16);
    assert_eq!(RowCtx { w: 2, bytes: &[5], order: BitOrder::Lsb0 }.row_len(), 8);
    assert_eq!(RowCtx { w: 2, bytes: &[], order: BitOrder::Lsb0 }.row_len(), 0);
}

#[test]
fn the_bounds_are_the_lowest_and_highest_bit_of_the_row() {
    assert_eq!(two_bytes(BitOrder::Lsb0).bounds(), (0, 15));
    assert_eq!(RowCtx { w: 2, bytes: &[7, 6], order: BitOrder::Lsb0 }.bounds(), (48, 63));
    assert_eq!(RowCtx { w: 2, bytes: &[4], order: BitOrder::Msb0 }.bounds(), (32, 39));
    assert_eq!(RowCtx { w: 2, bytes: &[2, 9, 5], order: BitOrder::Lsb0 }.bounds(), (16, 79));
    assert_eq!(RowCtx { w: 2, bytes: &[], order: BitOrder::Lsb0 }.bounds(), (0, 7));
}

#[test]
fn cells_are_a_gap_apart_and_bytes_a_seam() {
    let ctx = two_bytes(BitOrder::Lsb0);
    assert_eq!(ctx.col(0), 0);
    assert_eq!(ctx.col(1), 3);
    assert_eq!(ctx.col(7), 21);
    assert_eq!(ctx.col(8), 26);
    assert_eq!(ctx.col(15), 47);
    assert_eq!(ctx.total_cols(), 49);
    assert_eq!(ctx.gap_after(0), 1);
    assert_eq!(ctx.gap_after(6), 1);
    assert_eq!(ctx.gap_after(7), 3);
    assert_eq!(ctx.gap_after(8), 1);
    assert_eq!(ctx.gap_after(15), 0);
    assert_eq!(ctx.gap_after(40), 0);
    for p in 0..15 {
        assert_eq!(ctx.col(p + 1), ctx.col(p) + ctx.w + ctx.gap_after(p));
    }
    let wide = RowCtx { w: 3, bytes: &[2, 1, 0], order: BitOrder::Lsb0 };
    assert_eq!(wide.col(9), 9 * 4 + 2);
    assert_eq!(wide.total_cols(), 24 * 3 + 23 + 4);
    assert_eq!(RowCtx { w: 2, bytes: &[], order: BitOrder::Lsb0 }.total_cols(), 0);
    assert_eq!(RowCtx { w: 2, bytes: &[0], order: BitOrder::Lsb0 }.total_cols(), 23);
}

#[test]
fn a_bit_is_drawn_in_the_cell_of_its_byte() {
    let lsb = two_bytes(BitOrder::Lsb0);
    assert_eq!(lsb.bit_to_p(15), Some(0));
    assert_eq!(lsb.bit_to_p(8), Some(7));
    assert_eq!(lsb.bit_to_p(7), Some(8));
    assert_eq!(lsb.bit_to_p(0), Some(15));
    assert_eq!(lsb.bit_to_p(16), None);
    let msb = two_bytes(BitOrder::Msb0);
    assert_eq!(msb.bit_to_p(15), Some(7));
    assert_eq!(msb.bit_to_p(8), Some(0));
    assert_eq!(msb.bit_to_p(0), Some(8));
    assert_eq!(msb.bit_to_p(99), None);
    let twice = RowCtx { w: 2, bytes: &[3, 3], order: BitOrder::Lsb0 };
    assert_eq!(twice.bit_to_p(24), Some(7));
}

#[test]
fn the_header_numbers_every_bit() {
    let mut out = String::from(">");
    two_bytes(BitOrder::Lsb0).write_header(&mut out);
    assert_eq!(out, ">15 14 13 12 11 10 09 08   07 06 05 04 03 02 01 00\n");
    let mut wide = String::new();
    RowCtx { w: 3, bytes: &[12], order: BitOrder::Lsb0 }.write_header(&mut wide);
    assert_eq!(wide, "103 102 101 100  99  98  97  96\n");
    let mut empty = String::new();
    RowCtx { w: 2, bytes: &[], order: BitOrder::Lsb0 }.write_header(&mut empty);
    assert_eq!(empty, "\n");
}

#[test]
fn a_segment_is_the_part_of_a_field_in_the_row() {
    let ctx = two_bytes(BitOrder::Lsb0);
    assert_eq!(
        fs("u8", 8, 4).row_segment(&ctx),
        Some(RowSegment { a: 4, b: 11, left_cap: true, right_cap: true, dash_start: 13, dash_end: 35 })
    );
    assert_eq!(
        fs("u32", 24, 8).row_segment(&ctx),
        Some(RowSegment { a: 0, b: 7, left_cap: false, right_cap: true, dash_start: 0, dash_end: 21 })
    );
    assert_eq!(
        fs("u32", 32, 0).row_segment(&ctx),
        Some(RowSegment { a: 0, b: 15, left_cap: false, right_cap: true, dash_start: 0, dash_end: 47 })
    );
    assert_eq!(
        fs("u32", 32, 0).row_segment(&RowCtx { w: 2, bytes: &[2, 1], order: BitOrder::Lsb0 }),
        Some(RowSegment { a: 0, b: 15, left_cap: false, right_cap: false, dash_start: 0, dash_end: 48 })
    );
    assert_eq!(
        fs("bool", 1, 0).row_segment(&ctx),
        Some(RowSegment { a: 15, b: 15, left_cap: true, right_cap: true, dash_start: 48, dash_end: 47 })
    );
    assert_eq!(fs("u8", 8, 16).row_segment(&ctx), None);
    assert_eq!(fs("u8", 8, 0).row_segment(&RowCtx { w: 2, bytes: &[3, 2], order: BitOrder::Lsb0 }), None);
    assert_eq!(fs("u8", 8, 0).row_segment(&RowCtx { w: 2, bytes: &[], order: BitOrder::Lsb0 }), None);
    assert_eq!(fs("u32", 24, 0).row_segment(&RowCtx { w: 2, bytes: &[2, 0], order: BitOrder::Lsb0 }).map(|s| (s.a, s.b)), Some((0, 15)));
    assert_eq!(fs("u16", 6, 9).row_segment(&RowCtx { w: 2, bytes: &[2, 0], order: BitOrder::Lsb0 }), None);
}

#[test]
fn columns_are_filled_and_written_over() {
    let mut line: Vec<char> = "abcdef".chars().collect();
    fill(&mut line, 1, 4, '-');
    assert_eq!(line.iter().collect::<String>(), "a---ef");
    fill(&mut line, 4, 4, '!');
    fill(&mut line, 5, 2, '!');
    assert_eq!(line.iter().collect::<String>(), "a---ef");
    overlay(&mut line, 2, " 9 ");
    assert_eq!(line.iter().collect::<String>(), "a- 9 f");
    overlay(&mut line, 4, "xyz");
    assert_eq!(line.iter().collect::<String>(), "a- 9xy");
    overlay(&mut line, 6, "q");
    overlay(&mut line, usize::MAX, "q");
    assert_eq!(line.iter().collect::<String>(), "a- 9xy");
}

#[test]
fn a_bracket_is_drawn_from_corner_to_corner() {
    let ctx = RowCtx { w: 2, bytes: &[0], order: BitOrder::Lsb0 };
    let blank = || vec![' '; 23];
    let text = |line: &Vec<char>| line.iter().collect::<String>();

    let mut both = blank();
    draw_run(&mut both, &ctx, RowSegment { a: 1, b: 3, left_cap: true, right_cap: true, dash_start: 4, dash_end: 9 });
    assert_eq!(text(&both), "   ╰──────╯            ");

    let mut open = blank();
    draw_run(&mut open, &ctx, RowSegment { a: 0, b: 7, left_cap: false, right_cap: false, dash_start: 0, dash_end: 22 });
    assert_eq!(text(&open), "───────────────────────");

    let mut one = blank();
    draw_run(&mut one, &ctx, RowSegment { a: 7, b: 7, left_cap: true, right_cap: true, dash_start: 22, dash_end: 21 });
    assert_eq!(text(&one), "                     ╰╯");

    let mut none = blank();
    draw_run(&mut none, &ctx, RowSegment { a: 5, b: 2, left_cap: true, right_cap: true, dash_start: 16, dash_end: 6 });
    assert_eq!(text(&none), " ".repeat(23));

    let mut marked = both.clone();
    mark_unused(&mut marked, &ctx);
    assert_eq!(text(&marked), " ° ╰──────╯  °  °  °  °");

    let seam = RowCtx { w: 2, bytes: &[1, 0], order: BitOrder::Lsb0 };
    let mut across: Vec<char> = vec![' '; 49];
    draw_run(&mut across, &seam, RowSegment { a: 6, b: 9, left_cap: true, right_cap: false, dash_start: 19, dash_end: 30 });
    assert_eq!(text(&across), "                  ╰────────────                  ");
}

#[test]
fn a_label_goes_to_the_longest_part_of_the_bracket() {
    let d = Diagram::new(4, BitOrder::Lsb0, &[fs("u32", 12, 12), fs("bool", 1, 0), fs("u8", 2, 1), fs("u8", 3, 4)]);
    let plan = d.plan_labels();
    assert_eq!(plan.len(), 4);
    let first = plan[0].as_ref().unwrap();
    assert_eq!((first.row_idx, first.col, first.text.as_str()), (0, 36, " 12 "));
    assert!(plan[1].is_none());
    assert!(plan[2].is_none());
    let last = plan[3].as_ref().unwrap();
    assert_eq!((last.row_idx, last.col, last.text.as_str()), (1, 31, " 3 "));
}

#[test]
fn rows_are_drawn_from_the_highest_bytes_down() {
    let md = Diagram::new(3, BitOrder::Lsb0, &[fs("u16", 12, 2), fs("u8", 4, 20)]).render();
    let lines: Vec<&str> = md.lines().collect();
    assert_eq!(
        lines,
        vec![
            "```no_run",
            "23 22 21 20 19 18 17 16   15 14 13 12 11 10 09 08",
            "╰─── 4 ───╯  °  °  °  °    °  ° ╰────── 12 ──────",
            "07 06 05 04 03 02 01 00",
            "────────────────╯  °  °",
            "```",
        ]
    );
}

#[test]
fn a_diagram_without_bytes_has_no_rows() {
    assert_eq!(Diagram::new(0, BitOrder::Lsb0, &[]).render(), "```no_run\n```");
}

#[test]
fn a_row_is_drawn_with_the_labels_it_is_given() {
    let d = Diagram::new(1, BitOrder::Msb0, &[]);
    let mut out = String::new();
    d.render_row(&mut out, 0, &[]);
    assert_eq!(out, "07 06 05 04 03 02 01 00\n °  °  °  °  °  °  °  °\n");
}

#[test]
fn wide_containers_have_wide_cells() {
    let md = Diagram::new(13, BitOrder::Lsb0, &[]).render();
    let lines: Vec<&str> = md.lines().collect();
    assert_eq!(lines.len(), 2 + 2 * 7);
    assert_eq!(lines[1], "103 102 101 100  99  98  97  96    95  94  93  92  91  90  89  88");
    assert_eq!(lines[2], "  °   °   °   °   °   °   °   °     °   °   °   °   °   °   °   °");
    assert_eq!(lines[13], " 07  06  05  04  03  02  01  00");
    assert_eq!(lines[14], "  °   °   °   °   °   °   °   °");
}
