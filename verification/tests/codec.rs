use afptool_rs::{chip_code_to_name, chip_digits, chip_name_to_code, checksum_trailer,
    decode_fixed_string, encode_fixed_string, format_hex_u32, get_u32_le, parse_code_hex_field,
    parse_dec, parse_machine_id, parse_metadata_hex_field, parse_package_file,
    parse_partition_metadata, put_u32_le, rkcrc32, Error};

#[test]
fn crc_single_byte_matches_table() {
    // Feeding one byte selects one table entry directly: index 1 holds the
    // polynomial itself.
    assert_eq!(rkcrc32(0, &[1u8]), 0x04c10db7);
}

#[test]
fn crc_empty_is_identity() {
    assert_eq!(rkcrc32(0, &[]), 0);
    assert_eq!(rkcrc32(0xdeadbeef, &[]), 0xdeadbeef);
}

#[test]
fn crc_concat_folds() {
    let a = b"hello ";
    let b = b"world";
    let mut ab = Vec::new();
    ab.extend_from_slice(a);
    ab.extend_from_slice(b);
    assert_eq!(rkcrc32(0, &ab), rkcrc32(rkcrc32(0, a), b));
}

#[test]
fn crc_trailer_is_little_endian() {
    let content = b"some container bytes".to_vec();
    let c = rkcrc32(0, &content);
    let t = checksum_trailer(&content);
    assert_eq!(t, c.to_le_bytes().to_vec());
}

#[test]
fn le32_roundtrip() {
    let mut buf = vec![0u8; 8];
    put_u32_le(&mut buf, 2, 0x11223344);
    assert_eq!(&buf, &[0, 0, 0x44, 0x33, 0x22, 0x11, 0, 0]);
    assert_eq!(get_u32_le(&buf, 2), 0x11223344);
}

#[test]
fn fixed_string_gets_leading_space() {
    let enc = encode_fixed_string(&b"Model".to_vec(), 34);
    assert_eq!(enc.len(), 34);
    assert_eq!(&enc[..7], b" Model\0");
    let dec = decode_fixed_string(&enc).unwrap();
    assert_eq!(dec, b" Model".to_vec());
}

#[test]
fn fixed_string_existing_space_kept() {
    let enc = encode_fixed_string(&b" already".to_vec(), 34);
    let dec = decode_fixed_string(&enc).unwrap();
    assert_eq!(dec, b" already".to_vec());
}

#[test]
fn fixed_string_width_minus_two_fits() {
    // 32 bytes of text in a 34-byte buffer: room for the space and the
    // terminator, so the round trip is exact.
    let text = vec![b'a'; 32];
    let enc = encode_fixed_string(&text, 34);
    let dec = decode_fixed_string(&enc).unwrap();
    let mut want = vec![b' '];
    want.extend_from_slice(&text);
    assert_eq!(dec, want);
}

#[test]
fn fixed_string_overlong_is_truncated() {
    // 33 bytes of text cannot keep both the space and the terminator: the
    // encoder clips to the buffer width rather than failing.
    let text = vec![b'b'; 33];
    let enc = encode_fixed_string(&text, 34);
    assert_eq!(enc.len(), 34);
    let dec = decode_fixed_string(&enc);
    // No terminator survives inside the 33 kept bytes plus zero fill: the
    // last byte is the single zero.
    let mut want = vec![b' '];
    want.extend_from_slice(&vec![b'b'; 32]);
    assert_eq!(dec.unwrap(), want);
}

#[test]
fn fixed_string_without_terminator() {
    let enc = vec![b'x'; 34];
    assert!(decode_fixed_string(&enc).is_none());
}

#[test]
fn hex_format_exact() {
    assert_eq!(format_hex_u32(0x1234abcd), b"0x1234abcd".to_vec());
    assert_eq!(format_hex_u32(0), b"0x00000000".to_vec());
    assert_eq!(format_hex_u32(0xffffffff), b"0xffffffff".to_vec());
}

#[test]
fn hex_parse_roundtrip() {
    for v in [0u32, 1, 0x800, 0xdeadbeef, u32::MAX] {
        let r = format_hex_u32(v);
        assert_eq!(parse_metadata_hex_field(&r), Some(v));
    }
}

#[test]
fn hex_parse_strips_every_prefix() {
    // The field reader drops every leading 0x pair before reading digits.
    assert_eq!(parse_metadata_hex_field(&b"0x0x10".to_vec()), Some(0x10));
    assert_eq!(parse_metadata_hex_field(&b"ff".to_vec()), Some(0xff));
    assert_eq!(parse_metadata_hex_field(&b"FF".to_vec()), Some(0xff));
    assert_eq!(parse_metadata_hex_field(&b"".to_vec()), None);
    assert_eq!(parse_metadata_hex_field(&b"0xzz".to_vec()), None);
    assert_eq!(parse_metadata_hex_field(&b"0x100000000".to_vec()), None);
}

#[test]
fn code_field_accepts_upper_prefix() {
    assert_eq!(parse_code_hex_field(&b"0x02000000".to_vec()), Some(0x02000000));
    assert_eq!(parse_code_hex_field(&b"0X0200".to_vec()), Some(0x0200));
    assert_eq!(parse_code_hex_field(&b"junk".to_vec()), None);
}

#[test]
fn dec_parse_bounds() {
    assert_eq!(parse_dec(&b"8".to_vec(), 255), Some(8));
    assert_eq!(parse_dec(&b"255".to_vec(), 255), Some(255));
    assert_eq!(parse_dec(&b"256".to_vec(), 255), None);
    assert_eq!(parse_dec(&b"+7".to_vec(), 255), Some(7));
    assert_eq!(parse_dec(&b"".to_vec(), 255), None);
    assert_eq!(parse_dec(&b"1a".to_vec(), 255), None);
}

#[test]
fn chip_table_both_directions() {
    assert_eq!(chip_name_to_code(&b"RK3566".to_vec()), Ok(0x38));
    assert_eq!(chip_name_to_code(&b"rk3566".to_vec()), Ok(0x38));
    assert_eq!(chip_name_to_code(&b"rk29".to_vec()), Ok(0x50));
    assert_eq!(chip_name_to_code(&b"RK29XX".to_vec()), Ok(0x50));
    assert_eq!(chip_name_to_code(&b"px30".to_vec()), Ok(0x30));
    assert_eq!(chip_name_to_code(&b"Z80".to_vec()), Err(Error::UnsupportedChipFamily));
    assert_eq!(chip_code_to_name(0x38), Some(b"RK3566".to_vec()));
    assert_eq!(chip_code_to_name(0x50), Some(b"RK29xx".to_vec()));
    assert_eq!(chip_code_to_name(0x99), None);
}

#[test]
fn chip_digits_in_order() {
    assert_eq!(chip_digits(&b"RK3566".to_vec()), b"3566".to_vec());
    assert_eq!(chip_digits(&b"PX30".to_vec()), b"30".to_vec());
    assert_eq!(chip_digits(&b"RKXX".to_vec()), b"".to_vec());
}

#[test]
fn metadata_parse_and_lookup() {
    let text = b"boot,boot.img,0x00000010,0x00000020,0x00000800,0x00000800,0x0000000a\n\
        \n\
        short,line\n\
        sys,sys.img,0x30,0x40,0x1000,0x1000,0x3\n"
        .to_vec();
    let entries = parse_partition_metadata(&text).unwrap();
    assert_eq!(entries.len(), 2);
    let m = afptool_rs::meta_lookup(&entries, &b"boot".to_vec()).unwrap();
    assert_eq!(m.flash_size, 0x10);
    assert_eq!(m.flash_offset, 0x20);
    assert_eq!(m.padded_size, 0x800);
    let m2 = afptool_rs::meta_lookup(&entries, &b"sys".to_vec()).unwrap();
    assert_eq!(m2.flash_size, 0x30);
    assert!(afptool_rs::meta_lookup(&entries, &b"nope".to_vec()).is_none());
}

#[test]
fn metadata_bad_hex_fails_whole_parse() {
    let text = b"boot,boot.img,0xzz,0x20,0x800,0x800,0xa\n".to_vec();
    assert_eq!(parse_partition_metadata(&text), Err(Error::MalformedManifestLine));
}

#[test]
fn metadata_later_line_overrides() {
    let text = b"a,p,0x1,0x2,0x3,0x4,0x5\na,p,0x6,0x7,0x8,0x9,0xa\n".to_vec();
    let entries = parse_partition_metadata(&text).unwrap();
    let m = afptool_rs::meta_lookup(&entries, &b"a".to_vec()).unwrap();
    assert_eq!(m.flash_size, 0x6);
}

#[test]
fn package_file_comments_and_tokens() {
    let text = b"# a comment\n\nboot boot.img extra\n  sys   sys.img\n".to_vec();
    let entries = parse_package_file(&text);
    assert_eq!(entries.len(), 2);
    assert_eq!(entries[0].0, b"boot".to_vec());
    assert_eq!(entries[0].1, b"boot.img".to_vec());
    assert_eq!(entries[1].0, b"sys".to_vec());
    assert_eq!(entries[1].1, b"sys.img".to_vec());
}

#[test]
fn machine_id_first_line_wins() {
    let text = b"OTHER: x\nMACHINE_ID: abc123\nMACHINE_ID: later\n".to_vec();
    assert_eq!(parse_machine_id(&text), b"abc123".to_vec());
}

#[test]
fn machine_id_value_ends_at_second_colon() {
    let text = b"MACHINE_ID: left:right\n".to_vec();
    assert_eq!(parse_machine_id(&text), b"left".to_vec());
    assert_eq!(parse_machine_id(&b"no key here\n".to_vec()), b"".to_vec());
}
