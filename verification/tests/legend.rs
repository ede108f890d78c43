use packbits::layout::{FieldKind, FieldSpec};
use packbits::legend::{offer, palette, pick, render_layout, take};

fn fs(name: &str, width: u16, start_bit: usize) -> FieldSpec {
    FieldSpec { ident: name.to_string(), ty: "u8".to_string(), width, start_bit, kind: FieldKind::from_type("u8") }
}

#[test]
fn a_character_is_taken_once() {
    let mut used = vec![false; 128];
    assert!(take(&mut used, 'A'));
    assert!(!take(&mut used, 'A'));
    assert!(take(&mut used, 'a'));
    assert!(used['A' as usize] && used['a' as usize]);
    assert_eq!(used.iter().filter(|&&u| u).count(), 2);
    assert!(!take(&mut used, '°'));
    assert!(!take(&mut used, '\u{80}'));
    assert!(take(&mut used, '\u{7f}'));
    assert_eq!(used.len(), 128);
}

#[test]
fn a_name_offers_its_letters_as_capitals() {
    assert_eq!(offer('a'), Some('A'));
    assert_eq!(offer('z'), Some('Z'));
    assert_eq!(offer('Q'), Some('Q'));
    for c in ['i', 'I', 'l', 'L', 'o', 'O', '_', '0', '9', ' ', '@', '[', '`', '{', 'é', '°'] {
        assert_eq!(offer(c), None, "{c:?}");
    }
}

#[test]
fn the_palette_has_no_letter_that_looks_like_a_digit() {
    let p = palette();
    assert_eq!(p.len(), 46);
    assert_eq!(p.iter().collect::<String>(), "ABCDEFGHJKMNPQRSTUVWXYZabcdefghjkmnpqrstuvwxyz");
}

#[test]
fn a_field_takes_the_first_free_letter_of_its_name() {
    let mut used = vec![false; 128];
    assert_eq!(pick("mode", &mut used), 'M');
    assert_eq!(pick("mode", &mut used), 'D');
    assert_eq!(pick("mode", &mut used), 'E');
    assert_eq!(pick("mode", &mut used), 'A');
    assert_eq!(pick("__f0", &mut used), 'F');
    assert_eq!(pick("lo", &mut used), 'B');
    assert_eq!(pick("", &mut used), 'C');
    assert_eq!(pick("Zebra", &mut used), 'Z');
    assert_eq!(pick("_7", &mut used), 'G');
}

#[test]
fn a_field_gets_a_question_mark_when_no_letter_is_left() {
    let mut used = vec![false; 128];
    let mut tags = String::new();
    for _ in 0..46 {
        tags.push(pick("", &mut used));
    }
    assert_eq!(tags, "ABCDEFGHJKMNPQRSTUVWXYZabcdefghjkmnpqrstuvwxyz");
    assert_eq!(pick("", &mut used), '?');
    assert_eq!(pick("abc", &mut used), '?');
    assert_eq!(pick("oil", &mut used), '?');
}

#[test]
fn the_letter_map_shows_each_bit() {
    let fields = vec![fs("lo", 3, 0), fs("hi", 4, 4)];
    let reserved = vec![false, true, false, true];
    let md = render_layout(1, &fields, &reserved);
    assert_eq!(md, "```\n07 06 05 04 03 02 01 00\n H  H  H  H  •  A  A  A\n```");
}

#[test]
fn the_letter_map_draws_two_bytes_in_a_row() {
    let fields = vec![fs("head", 5, 0), fs("hull", 9, 7), fs("tail", 4, 20)];
    let reserved = vec![false; 24];
    let md = render_layout(3, &fields, &reserved);
    let lines: Vec<&str> = md.lines().collect();
    assert_eq!(
        lines,
        vec![
            "```",
            "23 22 21 20 19 18 17 16  15 14 13 12 11 10 09 08",
            " T  T  T  T  ◦  ◦  ◦  ◦   U  U  U  U  U  U  U  U",
            "07 06 05 04 03 02 01 00",
            " U  ◦  ◦  H  H  H  H  H",
            "```",
        ]
    );
}

#[test]
fn the_letter_map_of_a_wide_container_has_wide_cells() {
    let md = render_layout(13, &[fs("x", 2, 98)], &[]);
    let lines: Vec<&str> = md.lines().collect();
    assert_eq!(lines.len(), 2 + 2 * 7);
    assert_eq!(lines[1], "103 102 101 100  99  98  97  96   95  94  93  92  91  90  89  88");
    assert_eq!(lines[2], "  ◦   ◦   ◦   ◦   X   X   ◦   ◦    ◦   ◦   ◦   ◦   ◦   ◦   ◦   ◦");
    assert_eq!(lines[13], " 07  06  05  04  03  02  01  00");
}

#[test]
fn a_later_field_is_drawn_over_an_earlier_one() {
    let md = render_layout(1, &[fs("a", 8, 0), fs("b", 2, 3)], &[true; 8]);
    assert_eq!(md, "```\n07 06 05 04 03 02 01 00\n A  A  A  B  B  A  A  A\n```");
}

#[test]
fn the_letter_map_without_bytes_has_no_rows() {
    assert_eq!(render_layout(0, &[], &[true]), "```\n```");
}
