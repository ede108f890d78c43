use packbits::args::ArgToken;
use packbits::layout::FieldDecl;
use packbits::packer::Codec;
use packbits::value::FieldValue;

fn aligned_u64() -> Codec {
    let args = vec![ArgToken::Ident("bytes".to_string()), ArgToken::Eq, ArgToken::Int(8)];
    let decls = vec![FieldDecl { name: Some("x".to_string()), ty: "u64".to_string(), bits: Some(64), skip: None }];
    packbits::pack(&args, &decls, false).unwrap()
}

#[test]
fn aligned_u64_endianness() {
    let codec = aligned_u64();
    let cases = [0u64, 1, 0x00FF_0000_0000_0000, 0xDEAD_BEEF_F00D_BAAD, u64::MAX];
    for &x in &cases {
        let s: Vec<FieldValue<()>> = vec![FieldValue::Unsigned(x as u128)];
        let arr: Vec<u8> = codec.pack(&s);
        assert_eq!(arr, x.to_le_bytes());
        let back: Vec<FieldValue<()>> = codec.unpack(&arr);
        assert_eq!(back[0], FieldValue::Unsigned(x as u128));
    }
}
