use packbits::args::BitOrder;
use packbits::chunk::{chunks, Chunk};
use packbits::codec::{from_le_bytes, read_chunk, read_field, to_le_bytes, write_chunk, write_field};
use packbits::layout::{FieldKind, FieldSpec};

fn chunk(byte_idx: usize, bit_off: u8, take: u8, src_shift: u16) -> Chunk {
    Chunk { byte_idx, bit_off, take, src_shift }
}

fn field(ty: &str, width: u16, start_bit: usize) -> FieldSpec {
    FieldSpec { ident: "f".to_string(), ty: ty.to_string(), width, start_bit, kind: FieldKind::from_type(ty) }
}

#[test]
fn a_field_inside_one_byte_is_one_chunk() {
    assert_eq!(Chunk::for_field(3, 0), vec![chunk(0, 0, 3, 0)]);
    assert_eq!(Chunk::for_field(3, 5), vec![chunk(0, 5, 3, 0)]);
    assert_eq!(Chunk::for_field(8, 16), vec![chunk(2, 0, 8, 0)]);
    assert_eq!(Chunk::for_field(1, 23), vec![chunk(2, 7, 1, 0)]);
}

#[test]
fn a_field_across_bytes_is_split_at_the_byte_boundaries() {
    assert_eq!(Chunk::for_field(10, 3), vec![chunk(0, 3, 5, 0), chunk(1, 0, 5, 5)]);
    assert_eq!(Chunk::for_field(16, 4), vec![chunk(0, 4, 4, 0), chunk(1, 0, 8, 4), chunk(2, 0, 4, 12)]);
    assert_eq!(Chunk::for_field(2, 7), vec![chunk(0, 7, 1, 0), chunk(1, 0, 1, 1)]);
    assert_eq!(Chunk::for_field(24, 8), vec![chunk(1, 0, 8, 0), chunk(2, 0, 8, 8), chunk(3, 0, 8, 16)]);
}

#[test]
fn a_field_without_bits_has_no_chunk() {
    assert_eq!(Chunk::for_field(0, 0), vec![]);
    assert_eq!(Chunk::for_field(0, 13), vec![]);
}

#[test]
fn chunks_cover_the_field_once_and_in_order() {
    for start in 0usize..20 {
        for width in 1u16..=128 {
            let cs = chunks(width, start);
            assert_eq!(cs, Chunk::for_field(width, start));
            let mut shift = 0u16;
            let mut pos = start;
            for (n, c) in cs.iter().enumerate() {
                assert_eq!(c.src_shift, shift);
                assert_eq!(c.byte_idx * 8 + c.bit_off as usize, pos);
                assert!(1 <= c.take && c.bit_off + c.take <= 8);
                assert_eq!(c.byte_idx, start / 8 + n);
                shift += c.take as u16;
                pos += c.take as usize;
            }
            assert_eq!(shift, width);
            assert_eq!(cs.len(), (start + width as usize - 1) / 8 - start / 8 + 1);
        }
    }
}

#[test]
fn wide_fields_are_split_too() {
    let cs = Chunk::for_field(300, 6);
    assert_eq!(cs.len(), 39);
    assert_eq!(cs[0], chunk(0, 6, 2, 0));
    assert_eq!(cs[1], chunk(1, 0, 8, 2));
    assert_eq!(cs[38], chunk(38, 0, 2, 298));
}

#[test]
fn the_bit_order_mirrors_a_run_within_its_byte() {
    assert_eq!(BitOrder::Lsb0.adjust_in_byte(0, 1), 0);
    assert_eq!(BitOrder::Lsb0.adjust_in_byte(3, 5), 3);
    assert_eq!(BitOrder::Lsb0.adjust_in_byte(0, 8), 0);
    assert_eq!(BitOrder::Msb0.adjust_in_byte(0, 1), 7);
    assert_eq!(BitOrder::Msb0.adjust_in_byte(3, 5), 0);
    assert_eq!(BitOrder::Msb0.adjust_in_byte(2, 3), 3);
    assert_eq!(BitOrder::Msb0.adjust_in_byte(0, 8), 0);
    for bit in 0usize..8 {
        assert_eq!(BitOrder::Lsb0.display_within(bit), 7 - bit);
        assert_eq!(BitOrder::Msb0.display_within(bit), bit);
    }
}

#[test]
fn a_chunk_is_merged_into_its_byte() {
    let mut bytes = vec![0b1111_1111u8, 0b0000_0000];
    write_chunk(&mut bytes, 0, 0b010, 3, 2);
    assert_eq!(bytes, vec![0b1110_1011, 0]);
    write_chunk(&mut bytes, 1, 0b1111_0101, 4, 4);
    assert_eq!(bytes, vec![0b1110_1011, 0b0101_0000]);
    write_chunk(&mut bytes, 0, 0x3C, 8, 0);
    assert_eq!(bytes, vec![0x3C, 0b0101_0000]);
    assert_eq!(read_chunk(0b1110_1011, 3, 2), 0b010);
    assert_eq!(read_chunk(0b0101_0000, 4, 4), 0b0101);
    assert_eq!(read_chunk(0xA7, 8, 0), 0xA7);
    assert_eq!(read_chunk(0xFF, 1, 7), 1);
}

#[test]
fn a_field_is_written_and_read_where_it_lies() {
    let f = field("u16", 10, 3);
    let mut bytes = vec![0xFFu8, 0xFF];
    write_field(&mut bytes, &f, BitOrder::Lsb0, 0b10_0000_0001);
    assert_eq!(bytes, vec![0b0000_1111, 0b1111_0000]);
    assert_eq!(read_field(&bytes, &f, BitOrder::Lsb0), 0b10_0000_0001);

    let mut mirrored = vec![0xFFu8, 0xFF];
    write_field(&mut mirrored, &f, BitOrder::Msb0, 0b10_0000_0001);
    assert_eq!(mirrored, vec![0b1110_0001, 0b1000_0111]);
    assert_eq!(read_field(&mirrored, &f, BitOrder::Msb0), 0b10_0000_0001);
}

#[test]
fn writing_masks_the_value_to_the_field() {
    let f = field("u8", 3, 2);
    let mut bytes = vec![0u8];
    write_field(&mut bytes, &f, BitOrder::Lsb0, 0xFFFF_FFFF);
    assert_eq!(bytes, vec![0b0001_1100]);
    assert_eq!(read_field(&[0xFF], &f, BitOrder::Lsb0), 0b111);
}

#[test]
fn aligned_fields_hold_little_endian_bytes_in_either_order() {
    let f = field("u32", 32, 8);
    for order in [BitOrder::Lsb0, BitOrder::Msb0] {
        let mut bytes = vec![0x11u8; 6];
        write_field(&mut bytes, &f, order, 0xDEAD_BEEF);
        assert_eq!(bytes, vec![0x11, 0xEF, 0xBE, 0xAD, 0xDE, 0x11]);
        assert_eq!(read_field(&bytes, &f, order), 0xDEAD_BEEF);
    }
    let narrower = field("u32", 16, 8);
    for order in [BitOrder::Lsb0, BitOrder::Msb0] {
        let mut bytes = vec![0u8; 4];
        write_field(&mut bytes, &narrower, order, 0xDEAD_BEEF);
        assert_eq!(bytes, vec![0, 0xEF, 0xBE, 0]);
    }
}

#[test]
fn integers_and_little_endian_bytes_convert_both_ways() {
    assert_eq!(to_le_bytes(0x0102_0304, 4), vec![4, 3, 2, 1]);
    assert_eq!(to_le_bytes(0x0102_0304, 2), vec![4, 3]);
    assert_eq!(to_le_bytes(0x0102_0304, 6), vec![4, 3, 2, 1, 0, 0]);
    assert_eq!(to_le_bytes(7, 0), Vec::<u8>::new());
    assert_eq!(to_le_bytes(u128::MAX, 16), vec![0xFF; 16]);
    assert_eq!(from_le_bytes(&[4, 3, 2, 1]), 0x0102_0304);
    assert_eq!(from_le_bytes(&[0xAB]), 0xAB);
    assert_eq!(from_le_bytes(&[]), 0);
    assert_eq!(from_le_bytes(&[0xFF; 16]), u128::MAX);
}
