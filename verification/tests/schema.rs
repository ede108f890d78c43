use packbits::args::{ArgToken, BitOrder, ContainerOpts, IntContainer, RawArgs};
use packbits::attrs::{Attrs, Bits};
use packbits::layout::{FieldDecl, FieldKind, FieldSpec, Layout, LayoutError};

fn word(s: &str) -> ArgToken {
    ArgToken::Ident(s.to_string())
}

fn decl(name: &str, ty: &str, bits: Option<u32>, skip: Option<u32>) -> FieldDecl {
    FieldDecl { name: Some(name.to_string()), ty: ty.to_string(), bits, skip }
}

#[test]
fn no_options_mean_one_byte_seen_as_u8() {
    let opts = ContainerOpts::parse(&vec![]).unwrap();
    assert_eq!(opts, ContainerOpts { bytes_len: 1, int_ident: Some(IntContainer::U8), bit_order: BitOrder::Lsb0 });
    assert!(opts.has_integer());
}

#[test]
fn byte_count_gives_no_integer_view() {
    let opts = ContainerOpts::parse(&vec![word("bytes"), ArgToken::Eq, ArgToken::Int(6)]).unwrap();
    assert_eq!(opts, ContainerOpts { bytes_len: 6, int_ident: None, bit_order: BitOrder::Lsb0 });
    assert!(!opts.has_integer());
}

#[test]
fn single_byte_count_has_the_byte_as_integer() {
    let opts = ContainerOpts::parse(&vec![word("bytes"), ArgToken::Eq, ArgToken::Int(1)]).unwrap();
    assert_eq!(opts.int_ident, None);
    assert!(opts.has_integer());
}

#[test]
fn integer_containers_give_their_size() {
    let cases = [
        ("u8", IntContainer::U8, 1usize),
        ("u16", IntContainer::U16, 2),
        ("u32", IntContainer::U32, 4),
        ("u64", IntContainer::U64, 8),
        ("u128", IntContainer::U128, 16),
    ];
    for (name, container, size) in cases {
        let opts = ContainerOpts::parse(&vec![word(name)]).unwrap();
        assert_eq!(opts, ContainerOpts { bytes_len: size, int_ident: Some(container), bit_order: BitOrder::Lsb0 });
        assert_eq!(container.bytes(), size);
        assert_eq!(IntContainer::from_name(name), Some(container));
    }
    assert_eq!(IntContainer::from_name("i8"), None);
}

#[test]
fn bit_order_is_read_with_or_without_commas() {
    let with_comma = vec![word("u16"), ArgToken::Comma, word("msb")];
    let without = vec![word("u16"), word("msb")];
    let trailing = vec![word("msb"), ArgToken::Comma, word("u16"), ArgToken::Comma];
    for args in [with_comma, without, trailing] {
        let opts = ContainerOpts::parse(&args).unwrap();
        assert_eq!(opts, ContainerOpts { bytes_len: 2, int_ident: Some(IntContainer::U16), bit_order: BitOrder::Msb0 });
    }
    let lsb = ContainerOpts::parse(&vec![word("lsb")]).unwrap();
    assert_eq!(lsb.bit_order, BitOrder::Lsb0);
}

#[test]
fn an_option_written_again_replaces_the_one_before() {
    let raw = RawArgs::parse(&vec![
        word("bytes"),
        ArgToken::Eq,
        ArgToken::Int(2),
        ArgToken::Comma,
        word("msb"),
        ArgToken::Comma,
        word("bytes"),
        ArgToken::Eq,
        ArgToken::Int(3),
        ArgToken::Comma,
        word("lsb"),
    ])
    .unwrap();
    assert_eq!(raw, RawArgs { bytes: Some(3), int_ident: None, bit_order: Some(BitOrder::Lsb0) });
}

#[test]
fn byte_count_and_integer_container_conflict() {
    let both = vec![word("bytes"), ArgToken::Eq, ArgToken::Int(2), ArgToken::Comma, word("u16")];
    assert_eq!(ContainerOpts::parse(&both), Err(LayoutError::ConflictingContainerOptions));
    let other_way = vec![word("u32"), ArgToken::Comma, word("bytes"), ArgToken::Eq, ArgToken::Int(4)];
    assert_eq!(ContainerOpts::parse(&other_way), Err(LayoutError::ConflictingContainerOptions));
    let raw = RawArgs { bytes: Some(1), int_ident: Some(IntContainer::U8), bit_order: None };
    assert_eq!(ContainerOpts::resolve(raw), Err(LayoutError::ConflictingContainerOptions));
    let decls = vec![decl("a", "u8", None, None)];
    assert!(matches!(packbits::pack(&both, &decls, false), Err(LayoutError::ConflictingContainerOptions)));
}

#[test]
fn options_that_do_not_read_are_refused_where_they_stand() {
    let at = |args: Vec<ArgToken>| RawArgs::parse(&args).unwrap_err();
    assert_eq!(at(vec![word("bits")]), LayoutError::InvalidArguments { at: 0 });
    assert_eq!(at(vec![ArgToken::Int(3)]), LayoutError::InvalidArguments { at: 0 });
    assert_eq!(at(vec![ArgToken::Comma]), LayoutError::InvalidArguments { at: 0 });
    assert_eq!(at(vec![word("bytes")]), LayoutError::InvalidArguments { at: 1 });
    assert_eq!(at(vec![word("bytes"), ArgToken::Int(2)]), LayoutError::InvalidArguments { at: 1 });
    assert_eq!(at(vec![word("bytes"), ArgToken::Eq]), LayoutError::InvalidArguments { at: 2 });
    assert_eq!(at(vec![word("bytes"), ArgToken::Eq, word("two")]), LayoutError::InvalidArguments { at: 2 });
    assert_eq!(at(vec![word("msb"), ArgToken::Comma, ArgToken::Comma]), LayoutError::InvalidArguments { at: 2 });
    assert_eq!(at(vec![word("u16"), ArgToken::Other]), LayoutError::InvalidArguments { at: 1 });
}

#[test]
fn declared_types_are_classified_by_name() {
    assert_eq!(FieldKind::from_type("bool"), FieldKind::Bool);
    let ints = [
        ("u8", false, 1u8),
        ("i8", true, 1),
        ("u16", false, 2),
        ("i16", true, 2),
        ("u32", false, 4),
        ("i32", true, 4),
        ("u64", false, 8),
        ("i64", true, 8),
        ("u128", false, 16),
        ("i128", true, 16),
    ];
    for (name, signed, bytes) in ints {
        let kind = FieldKind::from_type(name);
        assert_eq!(kind, FieldKind::Int { signed, bytes });
        assert_eq!(kind.byte_len(), Some(bytes as usize));
        assert_eq!(kind.full_bits(), Some(bytes as u16 * 8));
        assert_eq!(FieldKind::inferred_width(name), Some(bytes as u16 * 8));
        assert!(kind.is_infallible());
    }
    for name in ["Mode", "usize", "Bool", "u 8", "core :: primitive :: u8", ""] {
        assert_eq!(FieldKind::from_type(name), FieldKind::Custom);
        assert_eq!(FieldKind::inferred_width(name), None);
    }
    assert_eq!(FieldKind::inferred_width("bool"), Some(1));
    assert_eq!(FieldKind::Bool.byte_len(), None);
    assert_eq!(FieldKind::Bool.full_bits(), None);
    assert_eq!(FieldKind::Custom.byte_len(), None);
    assert!(FieldKind::Bool.is_infallible());
    assert!(!FieldKind::Custom.is_infallible());
}

#[test]
fn directives_are_checked_for_their_range() {
    let with = |bits, skip| FieldDecl { name: None, ty: "u8".to_string(), bits, skip };
    assert_eq!(Attrs::parse_bits(&with(None, None), 4), None);
    assert_eq!(Attrs::parse_bits(&with(Some(1), None), 4), Some(Ok(Bits { width: 1 })));
    assert_eq!(Attrs::parse_bits(&with(Some(128), None), 4), Some(Ok(Bits { width: 128 })));
    assert_eq!(Attrs::parse_bits(&with(Some(0), None), 4), Some(Err(LayoutError::WidthOutOfRange { field: 4 })));
    assert_eq!(Attrs::parse_bits(&with(Some(129), None), 4), Some(Err(LayoutError::WidthOutOfRange { field: 4 })));
    assert_eq!(Attrs::parse_bits(&with(Some(65537), None), 4), Some(Err(LayoutError::WidthOutOfRange { field: 4 })));
    assert_eq!(Attrs::parse_skip(&with(None, None), 2), None);
    assert_eq!(Attrs::parse_skip(&with(None, Some(0)), 2), Some(Err(LayoutError::ZeroGap { field: 2 })));
    assert_eq!(Attrs::parse_skip(&with(None, Some(7)), 2), Some(Ok(7)));
}

#[test]
fn fields_are_placed_in_declaration_order() {
    let decls = vec![
        decl("flag", "bool", None, None),
        decl("mode", "Mode", Some(3), Some(2)),
        decl("count", "u16", None, Some(2)),
        decl("tail", "i32", Some(7), None),
    ];
    let layout = Layout::new(&decls, 4, false).unwrap();
    let placed: Vec<(usize, u16, FieldKind)> = layout.fields.iter().map(|f| (f.start_bit, f.width, f.kind)).collect();
    assert_eq!(
        placed,
        vec![
            (0, 1, FieldKind::Bool),
            (3, 3, FieldKind::Custom),
            (8, 16, FieldKind::Int { signed: false, bytes: 2 }),
            (24, 7, FieldKind::Int { signed: true, bytes: 4 }),
        ]
    );
    assert!(layout.fallible);
    assert!(!layout.is_tuple);
    let names: Vec<&str> = layout.fields.iter().map(|f| f.ident.as_str()).collect();
    assert_eq!(names, vec!["flag", "mode", "count", "tail"]);
    let types: Vec<&str> = layout.fields.iter().map(|f| f.ty.as_str()).collect();
    assert_eq!(types, vec!["bool", "Mode", "u16", "i32"]);
}

#[test]
fn a_layout_without_custom_fields_cannot_fail() {
    let decls = vec![decl("a", "u8", None, None), decl("b", "bool", None, None)];
    let layout = Layout::new(&decls, 2, false).unwrap();
    assert!(!layout.fallible);
    let empty = Layout::new(&vec![], 0, false).unwrap();
    assert!(empty.fields.is_empty());
    assert!(!empty.fallible);
}

#[test]
fn positional_fields_are_named_by_their_position() {
    let decls: Vec<FieldDecl> =
        (0..12).map(|_| FieldDecl { name: None, ty: "bool".to_string(), bits: None, skip: None }).collect();
    let layout = Layout::new(&decls, 2, true).unwrap();
    assert!(layout.is_tuple);
    assert_eq!(layout.fields[0].ident, "__f0");
    assert_eq!(layout.fields[9].ident, "__f9");
    assert_eq!(layout.fields[10].ident, "__f10");
    assert_eq!(layout.fields[11].ident, "__f11");
    let unnamed = Layout::new(&decls[..1].to_vec(), 1, false).unwrap();
    assert_eq!(unnamed.fields[0].ident, "_");
}

#[test]
fn each_layout_error_names_its_field() {
    let plan = |decls: Vec<FieldDecl>, nbytes: usize| Layout::new(&decls, nbytes, false).unwrap_err();
    let ok = || decl("ok", "u8", None, None);
    assert_eq!(plan(vec![ok(), decl("g", "u8", None, Some(0))], 4), LayoutError::ZeroGap { field: 1 });
    assert_eq!(plan(vec![ok(), decl("g", "u8", Some(1), Some(25))], 4), LayoutError::GapOutOfBounds { field: 1 });
    assert_eq!(plan(vec![decl("w", "u8", Some(0), None)], 4), LayoutError::WidthOutOfRange { field: 0 });
    assert_eq!(plan(vec![ok(), ok(), decl("w", "u128", Some(129), None)], 40), LayoutError::WidthOutOfRange { field: 2 });
    assert_eq!(plan(vec![ok(), decl("m", "Mode", None, None)], 4), LayoutError::MissingWidth { field: 1 });
    assert_eq!(plan(vec![ok(), decl("s", "u32", None, None)], 4), LayoutError::InsufficientSpace { field: 1 });
    assert_eq!(plan(vec![ok()], 0), LayoutError::InsufficientSpace { field: 0 });
}

#[test]
fn the_gap_is_looked_at_before_the_width() {
    let both_wrong = vec![decl("x", "Mode", None, Some(0))];
    assert_eq!(Layout::new(&both_wrong, 1, false).unwrap_err(), LayoutError::ZeroGap { field: 0 });
    let gap_too_long = vec![decl("x", "u8", Some(200), Some(9))];
    assert_eq!(Layout::new(&gap_too_long, 1, false).unwrap_err(), LayoutError::GapOutOfBounds { field: 0 });
    let first_error_wins = vec![decl("a", "u64", None, None), decl("b", "Mode", None, None)];
    assert_eq!(Layout::new(&first_error_wins, 4, false).unwrap_err(), LayoutError::InsufficientSpace { field: 0 });
}

#[test]
fn a_gap_and_a_field_may_end_with_the_container() {
    let decls = vec![decl("a", "u8", Some(4), Some(4))];
    let layout = Layout::new(&decls, 1, false).unwrap();
    assert_eq!((layout.fields[0].start_bit, layout.fields[0].width), (4, 4));
    let too_wide = vec![decl("a", "u8", Some(5), Some(4))];
    assert_eq!(Layout::new(&too_wide, 1, false).unwrap_err(), LayoutError::InsufficientSpace { field: 0 });
    let gap_to_the_end = vec![decl("a", "u8", Some(1), Some(8))];
    assert_eq!(Layout::new(&gap_to_the_end, 1, false).unwrap_err(), LayoutError::InsufficientSpace { field: 0 });
    let gap_past_the_end = vec![decl("a", "u8", Some(1), Some(9))];
    assert_eq!(Layout::new(&gap_past_the_end, 1, false).unwrap_err(), LayoutError::GapOutOfBounds { field: 0 });
}

#[test]
fn process_field_moves_the_cursor_past_the_field() {
    let mut cursor = 5usize;
    let spec = Layout::process_field(32, &mut cursor, &decl("v", "i16", Some(10), Some(3)), 0, false).unwrap();
    assert_eq!((spec.start_bit, spec.width, cursor), (8, 10, 18));
    let refused = Layout::process_field(32, &mut cursor, &decl("w", "u16", None, None), 1, false).unwrap_err();
    assert_eq!(refused, LayoutError::InsufficientSpace { field: 1 });
    assert_eq!(cursor, 18);
}

#[test]
fn aligned_full_width_fields_are_recognised() {
    let f = |ty: &str, width: u16, start_bit: usize| FieldSpec {
        ident: "f".to_string(),
        ty: ty.to_string(),
        width,
        start_bit,
        kind: FieldKind::from_type(ty),
    };
    assert_eq!(f("u32", 32, 8).aligned_primitive_len(), Some(4));
    assert_eq!(f("i64", 64, 0).aligned_primitive_len(), Some(8));
    assert_eq!(f("u32", 32, 4).aligned_primitive_len(), None);
    assert_eq!(f("u32", 24, 8).aligned_primitive_len(), None);
    assert_eq!(f("u32", 16, 8).aligned_primitive_len(), None);
    assert_eq!(f("Mode", 8, 8).aligned_primitive_len(), None);
    assert_eq!(f("bool", 8, 0).aligned_primitive_len(), None);
    assert!(f("u32", 24, 8).is_byte_aligned());
    assert!(!f("u32", 24, 9).is_byte_aligned());
    assert!(!f("u32", 23, 8).is_byte_aligned());
    assert_eq!(f("u8", 3, 21).start_byte(), 2);
    assert_eq!(f("u8", 3, 24).start_byte(), 3);
    let copy = f("u8", 3, 21).duplicate();
    assert_eq!((copy.ident.as_str(), copy.ty.as_str(), copy.width, copy.start_bit, copy.kind), ("f", "u8", 3, 21, FieldKind::Int { signed: false, bytes: 1 }));
}

#[test]
fn the_codec_is_built_from_options_and_declarations() {
    let args = vec![word("u32"), ArgToken::Comma, word("msb")];
    let decls = vec![decl("id", "u16", Some(12), None), decl("payload", "u32", Some(20), None)];
    let codec = packbits::pack(&args, &decls, false).unwrap();
    assert_eq!(*codec.opts(), ContainerOpts { bytes_len: 4, int_ident: Some(IntContainer::U32), bit_order: BitOrder::Msb0 });
    assert_eq!(codec.layout().fields.len(), 2);
    assert_eq!(codec.layout().fields[1].start_bit, 12);
    assert!(!codec.fallible());
    let too_small = packbits::pack(&vec![word("u16")], &decls, false);
    assert!(matches!(too_small, Err(LayoutError::InsufficientSpace { field: 1 })));
    let bad_args = packbits::pack(&vec![word("u24")], &decls, false);
    assert!(matches!(bad_args, Err(LayoutError::InvalidArguments { at: 0 })));
}
