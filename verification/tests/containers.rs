use afptool_rs::{checksum_trailer, classify_container, extract_part, get_u32_le, pack_rkaf,
    pack_rkfw, unpack_rkafp, unpack_rkfw, ContainerKind, Error, UpdateHeader, UpdatePart};
use chrono::{Datelike, Timelike};

fn fixed(s: &[u8], w: usize) -> Vec<u8> {
    let mut v = s.to_vec();
    v.resize(w, 0);
    v
}

fn simple_inputs() -> (Vec<u8>, Vec<u8>, Vec<u8>, Vec<(Vec<u8>, Vec<u8>)>) {
    let package = b"boot boot.img\nsys sys.img\n".to_vec();
    let metadata = b"boot,boot.img,0x00000010,0x00000020,0x00000800,0x00000800,0x0000000a\n\
        sys,sys.img,0x00000030,0x00000040,0x00001000,0x00001000,0x00000003\n"
        .to_vec();
    let parameter = b"MACHINE_ID: unit42\n".to_vec();
    let files = vec![
        (b"boot.img".to_vec(), vec![7u8; 10]),
        (b"sys.img".to_vec(), vec![9u8; 3]),
    ];
    (package, metadata, parameter, files)
}

#[test]
fn pack_rkaf_layout_and_fields() {
    let (package, metadata, parameter, files) = simple_inputs();
    let out = pack_rkaf(
        &package,
        &metadata,
        &parameter,
        &b"Model".to_vec(),
        &b"Maker".to_vec(),
        &files,
    )
    .unwrap();
    // Header sector plus one padded sector per distinct file.
    assert_eq!(out.len(), 2048 + 2048 + 2048);
    assert_eq!(&out[0..4], b"RKAF");
    assert_eq!(get_u32_le(&out, 4), 6144);
    // Strings at their fixed offsets, space-prefixed and zero-filled.
    assert_eq!(&out[8..15], b" Model\0");
    assert_eq!(&out[42..50], b" unit42\0");
    assert_eq!(&out[72..79], b" Maker\0");
    assert_eq!(get_u32_le(&out, 132), 0x01000000);
    assert_eq!(get_u32_le(&out, 136), 2);
    // First entry: name, path, geometry from metadata, placement from the
    // layout.
    assert_eq!(&out[140..145], b"boot\0");
    assert_eq!(&out[172..181], b"boot.img\0");
    assert_eq!(get_u32_le(&out, 140 + 92), 0x10);
    assert_eq!(get_u32_le(&out, 140 + 96), 2048);
    assert_eq!(get_u32_le(&out, 140 + 100), 0x20);
    assert_eq!(get_u32_le(&out, 140 + 104), 0x800);
    assert_eq!(get_u32_le(&out, 140 + 108), 10);
    // Second entry follows at the next sector.
    assert_eq!(get_u32_le(&out, 252 + 96), 4096);
    assert_eq!(get_u32_le(&out, 252 + 108), 3);
    // Data blocks: content then zero fill.
    assert_eq!(&out[2048..2058], &[7u8; 10]);
    assert!(out[2058..4096].iter().all(|&b| b == 0));
    assert_eq!(&out[4096..4099], &[9u8; 3]);
    assert!(out[4099..6144].iter().all(|&b| b == 0));
}

#[test]
fn pack_aliasing_shares_one_block() {
    // Two names over the same path: distinct entries, one offset, one copy
    // of the bytes.
    let package = b"a data.img\nb data.img\n".to_vec();
    let metadata = b"a,data.img,0x1,0x2,0x3,0x800,0x4\nb,data.img,0x5,0x6,0x7,0x800,0x8\n"
        .to_vec();
    let files = vec![(b"data.img".to_vec(), vec![5u8; 100])];
    let out = pack_rkaf(
        &package,
        &metadata,
        &Vec::new(),
        &b"M".to_vec(),
        &b"F".to_vec(),
        &files,
    )
    .unwrap();
    assert_eq!(out.len(), 2048 + 2048);
    assert_eq!(get_u32_le(&out, 140 + 96), 2048);
    assert_eq!(get_u32_le(&out, 252 + 96), 2048);
    assert_eq!(&out[140..142], b"a\0");
    assert_eq!(&out[252..254], b"b\0");
}

#[test]
fn rkaf_full_roundtrip() {
    // Pack, finalize with the checksum trailer, unpack, then re-pack from
    // the exported metadata and the extracted files: byte-identical.
    let (package, metadata, parameter, files) = simple_inputs();
    let model = b"Model".to_vec();
    let manufacturer = b"Maker".to_vec();
    let body = pack_rkaf(&package, &metadata, &parameter, &model, &manufacturer, &files).unwrap();
    let mut image = body.clone();
    image.extend_from_slice(&checksum_trailer(&body));

    assert_eq!(classify_container(&image), Ok(ContainerKind::Rkaf));
    let u = unpack_rkafp(&image).unwrap();
    assert!(u.length_ok);
    assert_eq!(u.model, b" Model".to_vec());
    assert_eq!(u.manufacturer, b" Maker".to_vec());
    assert_eq!(u.entries.len(), 2);

    let mut extracted: Vec<(Vec<u8>, Vec<u8>)> = Vec::new();
    for e in &u.entries {
        let data = extract_part(&image, e.part_offset, e.part_byte_count).unwrap();
        extracted.push((e.full_path.clone(), data));
    }
    assert_eq!(extracted[0].1, vec![7u8; 10]);
    assert_eq!(extracted[1].1, vec![9u8; 3]);

    let body2 = pack_rkaf(
        &package,
        &u.metadata_text,
        &parameter,
        &model,
        &manufacturer,
        &extracted,
    )
    .unwrap();
    let mut image2 = body2.clone();
    image2.extend_from_slice(&checksum_trailer(&body2));
    assert_eq!(image, image2);
}

#[test]
fn unpack_skips_self_and_reserved() {
    let mut h = UpdateHeader::default();
    h.magic = fixed(b"RKAF", 4);
    h.model = fixed(b" M", 34);
    h.manufacturer = fixed(b" F", 56);
    h.num_parts = 3;
    h.length = 4096;
    let mut p0 = UpdatePart::default();
    p0.name = fixed(b"loader", 32);
    p0.full_path = fixed(b"SELF", 60);
    let mut p1 = UpdatePart::default();
    p1.name = fixed(b"gap", 32);
    p1.full_path = fixed(b"RESERVED", 60);
    let mut p2 = UpdatePart::default();
    p2.name = fixed(b"boot", 32);
    p2.full_path = fixed(b"boot.img", 60);
    p2.part_offset = 2048;
    p2.part_byte_count = 4;
    p2.flash_size = 0x10;
    p2.flash_offset = 0x20;
    p2.padded_size = 0x800;
    h.parts[0] = p0;
    h.parts[1] = p1;
    h.parts[2] = p2;
    let mut image = h.to_bytes();
    let mut data = vec![1u8, 2, 3, 4];
    data.resize(2048, 0);
    image.extend_from_slice(&data);
    image.extend_from_slice(&checksum_trailer(&image.clone()));

    let u = unpack_rkafp(&image).unwrap();
    assert!(u.length_ok);
    assert_eq!(u.entries.len(), 1);
    assert_eq!(u.entries[0].name, b"boot".to_vec());
    assert_eq!(u.entries[0].full_path, b"boot.img".to_vec());
    assert_eq!(
        u.metadata_text,
        b"boot,boot.img,0x00000010,0x00000020,0x00000800,0x00000800,0x00000004\n".to_vec()
    );
}

#[test]
fn unpack_truncated_container() {
    let mut h = UpdateHeader::default();
    h.magic = fixed(b"RKAF", 4);
    h.num_parts = 1;
    let mut p = UpdatePart::default();
    p.full_path = fixed(b"big.img", 60);
    p.part_offset = 2048;
    p.part_byte_count = 100000;
    h.parts[0] = p;
    let image = h.to_bytes();
    assert!(matches!(unpack_rkafp(&image), Err(Error::TruncatedContainer)));
}

#[test]
fn unpack_rejects_bad_magic_and_short_input() {
    assert_eq!(classify_container(&b"XYZW----".to_vec()), Err(Error::UnrecognizedFormat));
    assert_eq!(classify_container(&b"RK".to_vec()), Err(Error::UnrecognizedFormat));
    assert!(matches!(unpack_rkafp(&vec![0u8; 100]), Err(Error::InvalidHeader)));
    let mut h = UpdateHeader::default();
    h.magic = fixed(b"WRNG", 4);
    assert!(matches!(unpack_rkafp(&h.to_bytes()), Err(Error::InvalidHeader)));
}

#[test]
fn unpack_too_many_parts_is_invalid() {
    let mut h = UpdateHeader::default();
    h.magic = fixed(b"RKAF", 4);
    h.num_parts = 17;
    assert!(matches!(unpack_rkafp(&h.to_bytes()), Err(Error::InvalidHeader)));
}

#[test]
fn pack_rkaf_error_cases() {
    let (package, metadata, parameter, files) = simple_inputs();
    // Empty package manifest.
    assert_eq!(
        pack_rkaf(&b"# only a comment\n".to_vec(), &metadata, &parameter, &b"M".to_vec(),
            &b"F".to_vec(), &files),
        Err(Error::MalformedManifestLine)
    );
    // Missing geometry file.
    assert_eq!(
        pack_rkaf(&package, &Vec::new(), &parameter, &b"M".to_vec(), &b"F".to_vec(), &files),
        Err(Error::MissingPartitionGeometry)
    );
    // Geometry present but not for every name.
    let partial = b"boot,boot.img,0x1,0x2,0x3,0x800,0x4\n".to_vec();
    assert_eq!(
        pack_rkaf(&package, &partial, &parameter, &b"M".to_vec(), &b"F".to_vec(), &files),
        Err(Error::MissingPartitionGeometry)
    );
    // A file content that was not supplied.
    let missing = vec![(b"boot.img".to_vec(), vec![1u8])];
    assert_eq!(
        pack_rkaf(&package, &metadata, &parameter, &b"M".to_vec(), &b"F".to_vec(), &missing),
        Err(Error::Io)
    );
}

fn rkfw_inputs() -> (Vec<u8>, Vec<u8>) {
    let boot = vec![0xAAu8; 100];
    let mut update = b"RKAF".to_vec();
    update.extend_from_slice(&[0u8; 60]);
    (boot, update)
}

#[test]
fn pack_rkfw_end_to_end() {
    let (boot, update) = rkfw_inputs();
    let out = pack_rkfw(
        &boot,
        &update,
        &b"RK3566".to_vec(),
        &b"8.1.0".to_vec(),
        1731031994,
        &b"0x02000000".to_vec(),
    )
    .unwrap();
    assert_eq!(&out[0..4], b"RKFW");
    assert_eq!(out[4], 0x66);
    // Version 8.1.0: build 0 little-endian, minor 1, major 8.
    assert_eq!(&out[6..10], &[0, 0, 1, 8]);
    assert_eq!(get_u32_le(&out, 0x0a), 0x02000000);
    // The build date is the calendar form of the timestamp.
    let dt = chrono::DateTime::from_timestamp(1731031994, 0).unwrap().naive_utc();
    let year = (out[0x0e] as u16) | ((out[0x0f] as u16) << 8);
    assert_eq!(year as i32, dt.year());
    assert_eq!(out[0x10] as u32, dt.month());
    assert_eq!(out[0x11] as u32, dt.day());
    assert_eq!(out[0x12] as u32, dt.hour());
    assert_eq!(out[0x13] as u32, dt.minute());
    assert_eq!(out[0x14] as u32, dt.second());
    // Chip code and the reversed digit bytes.
    assert_eq!(out[0x15], 0x38);
    assert_eq!(&out[0x16..0x19], b"653");
    // Region table: a 100-byte blob at 0x66, the embedded container right
    // after it.
    assert_eq!(get_u32_le(&out, 0x19), 0x66);
    assert_eq!(get_u32_le(&out, 0x1d), 100);
    assert_eq!(get_u32_le(&out, 0x21), 0x66 + 100);
    assert_eq!(get_u32_le(&out, 0x25), update.len() as u32);
    assert_eq!(out[0x2d], 1);
    assert_eq!(&out[0x66..0x66 + 100], boot.as_slice());
    assert_eq!(&out[0x66 + 100..0x66 + 100 + update.len()], update.as_slice());
    // The trailer is the 32-character lowercase hex text of the MD5 digest
    // of everything before it.
    let body_len = 0x66 + 100 + update.len();
    assert_eq!(out.len(), body_len + 32);
    let trailer = &out[body_len..];
    assert!(trailer.iter().all(|c| c.is_ascii_hexdigit() && !c.is_ascii_uppercase()));
    let expect = format!("{:x}", md5::compute(&out[..body_len]));
    assert_eq!(trailer, expect.as_bytes());
}

#[test]
fn unpack_rkfw_reports_header() {
    let (boot, update) = rkfw_inputs();
    let out = pack_rkfw(
        &boot,
        &update,
        &b"RK3566".to_vec(),
        &b"8.1.0".to_vec(),
        1731031994,
        &b"0x02000000".to_vec(),
    )
    .unwrap();
    assert_eq!(classify_container(&out), Ok(ContainerKind::Rkfw));
    let info = unpack_rkfw(&out).unwrap();
    assert_eq!((info.major, info.minor, info.build), (8, 1, 0));
    assert_eq!(info.code, 0x02000000);
    assert_eq!(info.unix_timestamp, 1731031994);
    assert_eq!(info.chip_code, 0x38);
    assert_eq!(info.chip_name, Some(b"RK3566".to_vec()));
    assert_eq!((info.boot_offset, info.boot_size), (0x66, 100));
    let blob = extract_part(&out, info.boot_offset, info.boot_size).unwrap();
    assert_eq!(blob, boot);
    let embedded = extract_part(&out, info.update_offset, info.update_size).unwrap();
    assert_eq!(embedded, update);
}

#[test]
fn pack_rkfw_error_cases() {
    let (boot, update) = rkfw_inputs();
    let chip = b"RK3566".to_vec();
    let version = b"8.1.0".to_vec();
    let code = b"0x02000000".to_vec();
    assert_eq!(
        pack_rkfw(&boot, &update, &chip, &version, 0, &b"nothex".to_vec()),
        Err(Error::MalformedCodeField)
    );
    assert_eq!(
        pack_rkfw(&boot, &update, &chip, &b"8.1".to_vec(), 0, &code),
        Err(Error::MalformedVersionString)
    );
    assert_eq!(
        pack_rkfw(&boot, &update, &chip, &b"8.one.0".to_vec(), 0, &code),
        Err(Error::MalformedVersionString)
    );
    assert_eq!(
        pack_rkfw(&boot, &update, &b"Z80".to_vec(), &version, 0, &code),
        Err(Error::UnsupportedChipFamily)
    );
    assert_eq!(
        pack_rkfw(&boot, &b"JUNK".to_vec(), &chip, &version, 0, &code),
        Err(Error::InvalidEmbeddedContainer)
    );
    assert_eq!(
        pack_rkfw(&boot, &update, &chip, &version, i64::MAX, &code),
        Err(Error::InvalidTimestamp)
    );
}
