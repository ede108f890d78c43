use packbits::args::ArgToken;
use packbits::layout::FieldDecl;
use packbits::packer::{Codec, ConversionError};
use packbits::value::FieldValue;

fn field(name: &str, ty: &str, bits: Option<u32>, skip: Option<u32>) -> FieldDecl {
    FieldDecl { name: Some(name.to_string()), ty: ty.to_string(), bits, skip }
}

fn options(nbytes: usize, order: &str) -> Vec<ArgToken> {
    vec![
        ArgToken::Ident("bytes".to_string()),
        ArgToken::Eq,
        ArgToken::Int(nbytes),
        ArgToken::Comma,
        ArgToken::Ident(order.to_string()),
    ]
}

fn codec(nbytes: usize, order: &str, decls: Vec<FieldDecl>) -> Codec {
    packbits::pack(&options(nbytes, order), &decls, false).unwrap()
}

fn plain(values: Vec<FieldValue<()>>) -> Vec<FieldValue<()>> {
    values
}

#[test]
fn every_byte_comes_back_from_a_layout_that_uses_every_bit() {
    for order in ["lsb", "msb"] {
        let layouts = vec![
            vec![field("a", "bool", None, None), field("b", "u8", Some(3), None), field("c", "i8", Some(4), None)],
            vec![field("x", "u8", None, None)],
            vec![field("s", "i8", None, None)],
            vec![field("lo", "i16", Some(5), None), field("hi", "u32", Some(3), None)],
            (0..8).map(|_| field("b", "bool", None, None)).collect(),
        ];
        for decls in layouts {
            let c = codec(1, order, decls);
            for v in 0u16..=255 {
                let values: Vec<FieldValue<()>> = c.unpack(&[v as u8]);
                assert_eq!(c.pack(&values), vec![v as u8], "{order}, byte {v:#04x}");
                let by_integer: Vec<FieldValue<()>> = c.from_integer(v as u128);
                assert_eq!(by_integer, values);
                assert_eq!(c.to_integer(&by_integer), v as u128);
            }
        }
    }
}

#[test]
fn bytes_come_back_from_a_wider_layout_that_uses_every_bit() {
    for order in ["lsb", "msb"] {
        let c = codec(
            5,
            order,
            vec![
                field("a", "u16", Some(9), None),
                field("b", "i32", Some(20), None),
                field("c", "bool", None, None),
                field("d", "i8", Some(2), None),
                field("e", "u8", None, None),
            ],
        );
        let samples: [[u8; 5]; 5] = [
            [0, 0, 0, 0, 0],
            [0xFF, 0xFF, 0xFF, 0xFF, 0xFF],
            [0x12, 0x34, 0x56, 0x78, 0x9A],
            [0x80, 0x01, 0x7F, 0xFE, 0x55],
            [0xAA, 0x55, 0xAA, 0x55, 0xAA],
        ];
        for bytes in samples {
            let values: Vec<FieldValue<()>> = c.unpack(&bytes);
            assert_eq!(c.pack(&values), bytes.to_vec(), "{order}");
        }
    }
}

#[test]
fn unused_bits_do_not_come_back() {
    let c = codec(1, "lsb", vec![field("a", "u8", Some(4), None)]);
    let values: Vec<FieldValue<()>> = c.unpack(&[0xFF]);
    assert_eq!(values, vec![FieldValue::Unsigned(0x0F)]);
    assert_eq!(c.pack(&values), vec![0x0F]);
}

#[test]
fn unsigned_values_are_masked_to_the_width() {
    for order in ["lsb", "msb"] {
        for w in [1u32, 2, 3, 7, 8, 9, 15, 16, 17, 31, 32] {
            let c = codec(8, order, vec![field("pad", "bool", None, None), field("v", "u32", Some(w), Some(2))]);
            let mask: u32 = if w == 32 { u32::MAX } else { (1u32 << w) - 1 };
            let over: u32 = if w == 32 { u32::MAX } else { 1u32 << w };
            for x in [0u32, 1, mask, over, over | 1, u32::MAX] {
                for pad in [false, true] {
                    let values = plain(vec![FieldValue::Bool(pad), FieldValue::Unsigned(x as u128)]);
                    let back: Vec<FieldValue<()>> = c.unpack(&c.pack(&values));
                    assert_eq!(back[1], FieldValue::Unsigned((x & mask) as u128), "{order}, width {w}, value {x:#x}");
                    assert_eq!(back[0], FieldValue::Bool(pad));
                }
            }
        }
    }
}

#[test]
fn signed_values_that_fit_come_back() {
    for order in ["lsb", "msb"] {
        let c = codec(2, order, vec![field("v", "i16", Some(10), Some(3))]);
        for x in [-512i128, -1, 0, 1, 511] {
            let values = plain(vec![FieldValue::Signed(x)]);
            let back: Vec<FieldValue<()>> = c.unpack(&c.pack(&values));
            assert_eq!(back, values, "{order}, value {x}");
        }
        for w in 1u32..=16 {
            let c = codec(3, order, vec![field("v", "i16", Some(w), Some(5))]);
            let half = 1i128 << (w - 1);
            for x in -half..half {
                let values = plain(vec![FieldValue::Signed(x)]);
                let back: Vec<FieldValue<()>> = c.unpack(&c.pack(&values));
                assert_eq!(back, values, "{order}, width {w}, value {x}");
            }
        }
    }
}

#[test]
fn signed_values_that_do_not_fit_wrap_into_the_width() {
    let c = codec(2, "lsb", vec![field("v", "i16", Some(10), None)]);
    let cases = [(512i128, -512i128), (-513, 511), (1023, -1), (1024, 0), (i16::MAX as i128, -1), (i16::MIN as i128, 0)];
    for (x, expected) in cases {
        let back: Vec<FieldValue<()>> = c.unpack(&c.pack(&plain(vec![FieldValue::Signed(x)])));
        assert_eq!(back, vec![FieldValue::Signed(expected)], "value {x}");
    }
}

#[test]
fn booleans_come_back_from_fields_of_any_width() {
    for w in [1u32, 2, 5, 8, 9] {
        let c = codec(2, "msb", vec![field("b", "bool", Some(w), Some(3))]);
        for b in [false, true] {
            let back: Vec<FieldValue<()>> = c.unpack(&c.pack(&plain(vec![FieldValue::Bool(b)])));
            assert_eq!(back, vec![FieldValue::Bool(b)]);
        }
    }
    let wide = codec(1, "lsb", vec![field("b", "bool", Some(3), None)]);
    let read: Vec<FieldValue<()>> = wide.unpack(&[0b100]);
    assert_eq!(read, vec![FieldValue::Bool(true)]);
}

#[test]
fn aligned_fields_are_little_endian() {
    for order in ["lsb", "msb"] {
        let c = codec(4, order, vec![field("x", "u32", None, None)]);
        assert_eq!(c.pack(&plain(vec![FieldValue::Unsigned(0xDEAD_BEEF)])), vec![0xEF, 0xBE, 0xAD, 0xDE]);
        let both = codec(6, order, vec![field("a", "i16", None, None), field("b", "u32", None, None)]);
        let bytes = both.pack(&plain(vec![FieldValue::Signed(-2), FieldValue::Unsigned(0x0102_0304)]));
        assert_eq!(bytes, vec![0xFE, 0xFF, 0x04, 0x03, 0x02, 0x01]);
    }
}

#[test]
fn bits_are_numbered_from_either_end_of_the_byte() {
    let bits = || (0..4).map(|_| field("b", "u8", Some(1), None)).collect::<Vec<_>>();
    let values = plain(vec![FieldValue::Unsigned(1), FieldValue::Unsigned(0), FieldValue::Unsigned(1), FieldValue::Unsigned(0)]);
    assert_eq!(codec(1, "lsb", bits()).pack(&values), vec![0x05]);
    assert_eq!(codec(1, "msb", bits()).pack(&values), vec![0xA0]);
    let nibbles = || vec![field("lo", "u8", Some(3), None), field("hi", "u8", Some(5), None)];
    let two = plain(vec![FieldValue::Unsigned(0b110), FieldValue::Unsigned(0b1_0001)]);
    assert_eq!(codec(1, "lsb", nibbles()).pack(&two), vec![0b1000_1110]);
    assert_eq!(codec(1, "msb", nibbles()).pack(&two), vec![0b1101_0001]);
}

#[test]
fn the_integer_is_little_endian_in_either_bit_order() {
    for order in ["lsb", "msb"] {
        let args = vec![ArgToken::Ident("u32".to_string()), ArgToken::Ident(order.to_string())];
        let decls = vec![field("a", "u8", Some(5), None), field("b", "u16", Some(11), None), field("c", "u16", None, None)];
        let c = packbits::pack(&args, &decls, false).unwrap();
        let values = plain(vec![FieldValue::Unsigned(0x15), FieldValue::Unsigned(0x5A5), FieldValue::Unsigned(0xBEEF)]);
        let bytes = c.pack(&values);
        let n = c.to_integer(&values);
        assert_eq!(n as u32, u32::from_le_bytes([bytes[0], bytes[1], bytes[2], bytes[3]]));
        assert_eq!(n >> 32, 0);
        assert_eq!(n >> 16, 0xBEEF);
        let back: Vec<FieldValue<()>> = c.from_integer(n);
        assert_eq!(back, values);
        let from_bytes: Vec<FieldValue<()>> = c.unpack(&bytes);
        assert_eq!(from_bytes, values);
    }
}

#[test]
fn an_integer_wider_than_the_container_is_cut_to_it() {
    let args = vec![ArgToken::Ident("u16".to_string())];
    let c = packbits::pack(&args, &vec![field("v", "u16", None, None)], false).unwrap();
    let values: Vec<FieldValue<()>> = c.from_integer(0xABCD_1234);
    assert_eq!(values, vec![FieldValue::Unsigned(0x1234)]);
}

#[test]
fn a_gap_stays_clear_whatever_is_packed() {
    for order in ["lsb", "msb"] {
        let c = codec(
            3,
            order,
            vec![field("a", "u8", Some(3), None), field("b", "u16", Some(9), Some(4)), field("c", "bool", None, None)],
        );
        let gap = codec(
            3,
            order,
            vec![field("gap", "u8", Some(4), Some(3)), field("rest", "u8", Some(7), Some(10))],
        );
        for a in [0u128, 0b101, 0xFF] {
            for b in [0u128, 1, 0x1FF, 0xFFFF] {
                for flag in [false, true] {
                    let bytes = c.pack(&plain(vec![FieldValue::Unsigned(a), FieldValue::Unsigned(b), FieldValue::Bool(flag)]));
                    let holes: Vec<FieldValue<()>> = gap.unpack(&bytes);
                    assert_eq!(holes, vec![FieldValue::Unsigned(0), FieldValue::Unsigned(0)], "{order}");
                    let back: Vec<FieldValue<()>> = c.unpack(&bytes);
                    assert_eq!(back[1], FieldValue::Unsigned(b & 0x1FF));
                }
            }
        }
    }
}

#[test]
fn a_field_does_not_depend_on_the_fields_before_it() {
    let c = codec(2, "lsb", vec![field("a", "u8", Some(3), None), field("b", "u8", Some(5), Some(4))]);
    let with = |a: u128| c.pack(&plain(vec![FieldValue::Unsigned(a), FieldValue::Unsigned(0b1_0110)]));
    assert_eq!(with(0), vec![0b0000_0000, 0b0000_1011]);
    assert_eq!(with(0xFF), vec![0b0000_0111, 0b0000_1011]);
    assert_eq!(with(0)[1], with(0xFF)[1]);
    assert_eq!(with(0)[0] & 0b1000_0000, with(0xFF)[0] & 0b1000_0000);
}

#[derive(Clone, Copy, Debug, PartialEq, Eq)]
struct UpToSix(u8);

fn up_to_six(raw: u128) -> Option<UpToSix> {
    if raw <= 6 {
        Some(UpToSix(raw as u8))
    } else {
        None
    }
}

#[test]
fn a_carrier_that_does_not_convert_fails_the_unpacking() {
    let c = codec(1, "lsb", vec![field("level", "UpToSix", Some(3), None), field("rest", "u8", Some(5), None)]);
    assert!(c.fallible());
    for byte in 0u16..=255 {
        let byte = byte as u8;
        let got = c.try_unpack(&[byte], |_, raw| up_to_six(raw));
        if byte & 0b111 == 7 {
            let err = got.unwrap_err();
            assert_eq!(err, ConversionError { field: 0, name: "level".to_string(), ty: "UpToSix".to_string() });
            assert_eq!(err.message(), "pack: field conversion failed: UpToSix");
        } else {
            assert_eq!(
                got.unwrap(),
                vec![FieldValue::Opaque(UpToSix(byte & 0b111)), FieldValue::Unsigned((byte >> 3) as u128)]
            );
        }
        let by_integer = c.try_from_integer(byte as u128, |_, raw| up_to_six(raw));
        assert_eq!(by_integer.is_err(), byte & 0b111 == 7);
    }
}

#[test]
fn a_value_that_does_not_convert_fails_the_packing() {
    let c = codec(
        2,
        "lsb",
        vec![field("a", "UpToSix", Some(3), None), field("n", "u8", Some(4), None), field("b", "UpToSix", Some(3), None)],
    );
    let to_carrier = |_: usize, v: &UpToSix| if v.0 <= 6 { Some(v.0 as u128) } else { None };
    let good = vec![FieldValue::Opaque(UpToSix(5)), FieldValue::Unsigned(9), FieldValue::Opaque(UpToSix(6))];
    assert!(c.conforms(&good));
    assert_eq!(c.try_pack(&good, to_carrier).unwrap(), vec![0b0100_1101, 0b0000_0011]);
    assert_eq!(c.try_to_integer(&good, to_carrier), Ok(0b0000_0011_0100_1101));

    let second = vec![FieldValue::Opaque(UpToSix(5)), FieldValue::Unsigned(9), FieldValue::Opaque(UpToSix(7))];
    let err = c.try_pack(&second, to_carrier).unwrap_err();
    assert_eq!(err, ConversionError { field: 2, name: "b".to_string(), ty: "UpToSix".to_string() });

    let both = vec![FieldValue::Opaque(UpToSix(9)), FieldValue::Unsigned(9), FieldValue::Opaque(UpToSix(7))];
    let err = c.try_pack(&both, to_carrier).unwrap_err();
    assert_eq!(err.field, 0);
    assert_eq!(err.name, "a");
    assert_eq!(c.try_to_integer(&both, to_carrier).unwrap_err().field, 0);
}

#[test]
fn the_conversion_is_asked_for_custom_fields_only() {
    let c = codec(2, "lsb", vec![field("n", "u8", None, None), field("m", "Mode", Some(2), None)]);
    let values = vec![FieldValue::Unsigned(3), FieldValue::Opaque(2u8)];
    let bytes = c
        .try_pack(&values, |i, v: &u8| {
            assert_eq!(i, 1);
            Some(*v as u128)
        })
        .unwrap();
    assert_eq!(bytes, vec![3, 2]);
    let back = c
        .try_unpack(&bytes, |i, raw| {
            assert_eq!(i, 1);
            Some(raw as u8)
        })
        .unwrap();
    assert_eq!(back, values);
}

#[test]
fn a_carrier_is_masked_to_the_field() {
    let c = codec(1, "lsb", vec![field("m", "Mode", Some(3), None), field("n", "u8", Some(5), None)]);
    let values = vec![FieldValue::Opaque(0xFFu8), FieldValue::Unsigned(0)];
    let bytes = c.try_pack(&values, |_, v: &u8| Some(*v as u128)).unwrap();
    assert_eq!(bytes, vec![0b0000_0111]);
}

#[test]
fn the_fallible_conversions_serve_layouts_that_cannot_fail() {
    let c = codec(1, "lsb", vec![field("a", "u8", Some(3), None), field("b", "i8", Some(5), None)]);
    assert!(!c.fallible());
    let values: Vec<FieldValue<u8>> = vec![FieldValue::Unsigned(5), FieldValue::Signed(-3)];
    let bytes = c.try_pack(&values, |_, _| None).unwrap();
    assert_eq!(bytes, c.pack(&values));
    let back: Vec<FieldValue<u8>> = c.try_unpack(&bytes, |_, _| None).unwrap();
    assert_eq!(back, values);
}

#[test]
fn values_conform_when_they_match_the_fields() {
    let c = codec(2, "lsb", vec![field("n", "u8", None, None), field("m", "Mode", Some(2), None)]);
    assert!(c.conforms(&vec![FieldValue::Unsigned(1), FieldValue::Opaque(0u8)]));
    assert!(c.conforms(&vec![FieldValue::Bool(true), FieldValue::Opaque(0u8)]));
    assert!(!c.conforms(&vec![FieldValue::<u8>::Unsigned(1)]));
    assert!(!c.conforms(&vec![FieldValue::<u8>::Unsigned(1), FieldValue::Unsigned(0)]));
    assert!(!c.conforms(&vec![FieldValue::Opaque(1u8), FieldValue::Opaque(0u8)]));
    assert!(!c.conforms(&vec![FieldValue::Unsigned(1), FieldValue::Opaque(0u8), FieldValue::Unsigned(2)]));
    let none = codec(1, "lsb", vec![]);
    assert!(none.conforms(&plain(vec![])));
    assert_eq!(none.pack(&plain(vec![])), vec![0]);
}

#[test]
fn raw_numbers_pack_and_unpack_without_their_meaning() {
    let c = codec(2, "msb", vec![field("a", "i8", Some(5), None), field("m", "Mode", Some(6), Some(1))]);
    let bytes = c.pack_raw(&vec![0xFFFF_FFFF, 0b10_1101]);
    assert_eq!(c.unpack_raw(&bytes), vec![0b1_1111, 0b10_1101]);
    assert_eq!(bytes, vec![0b1111_1001, 0b1011_0000]);
    let raws = c.raw_values(&vec![FieldValue::Signed(-1), FieldValue::Opaque(45u8)], |_, v: &u8| Some(*v as u128)).unwrap();
    assert_eq!(raws, vec![u128::MAX, 45]);
    let values = c.decode_values(&vec![0b1_1111, 45], |_, raw| Some(raw as u8)).unwrap();
    assert_eq!(values, vec![FieldValue::Signed(-1), FieldValue::Opaque(45u8)]);
}
