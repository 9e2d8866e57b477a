use vstd::prelude::*;

use crate::bytes::{le32, push_bytes, push_u32_le, push_zeros, zeros};
use crate::chip::{digit_seq, spec_chip_code};
use crate::digest::md5_hex_of;
use crate::errors::Error;
use crate::text::{spec_dec, spec_radix16, split_on, strip_hex_prefix_lower, strip_hex_prefix_upper};
use crate::time::civil_of;
use crate::unpack::rkaf_magic;

verus! {

/// The two bytes of `v` in little-endian order.
pub open spec fn le16(v: u16) -> Seq<u8> {
    seq![(v & 0xff) as u8, ((v >> 8) & 0xff) as u8]
}

/// The three ASCII-digit bytes of the chip designator: its third, second
/// and first digit in that order, or three zero bytes when the name has
/// fewer than three digits.
pub open spec fn digits3(chip: Seq<u8>) -> Seq<u8> {
    let d = digit_seq(chip);
    if d.len() >= 3 {
        seq![d[2], d[1], d[0]]
    } else {
        zeros(3)
    }
}

/// The parsed dotted version: exactly three dot-separated unsigned
/// components, major and minor one byte, build two.
pub open spec fn spec_version(t: Seq<u8>) -> Option<(u8, u8, u16)> {
    let fs = split_on(t, 46);
    if fs.len() != 3 {
        None
    } else {
        let a = spec_dec(fs[0], 255);
        let b = spec_dec(fs[1], 255);
        let c = spec_dec(fs[2], 65535);
        if a is Some && b is Some && c is Some {
            Some((a.unwrap() as u8, b.unwrap() as u8, c.unwrap() as u16))
        } else {
            None
        }
    }
}

/// The parsed code field: every leading `0x`, then every leading `0X`,
/// dropped, the rest a 32-bit hex number.
pub open spec fn spec_code_field(t: Seq<u8>) -> Option<u32> {
    spec_radix16(strip_hex_prefix_upper(strip_hex_prefix_lower(t)))
}

/// The outer container's fixed 0x66-byte header: signature, header size,
/// version words, code field, packed build date, chip family byte and
/// digits, then the two (offset, size) pairs, a marker byte at 0x2d, and
/// zero padding elsewhere.
pub open spec fn rkfw_header(
    build: u16,
    minor: u8,
    major: u8,
    code: u32,
    y: u16,
    mo: u8,
    da: u8,
    h: u8,
    mi: u8,
    s: u8,
    chip_code: u8,
    chip: Seq<u8>,
    boot_size: u32,
    update_offset: u32,
    update_size: u32,
) -> Seq<u8> {
    seq![82u8, 75u8, 70u8, 87u8, 0x66u8, 0u8] + le16(build) + seq![minor, major] + le32(code)
        + le16(y) + seq![mo, da, h, mi, s, chip_code] + digits3(chip) + le32(0x66u32) + le32(
        boot_size,
    ) + le32(update_offset) + le32(update_size) + zeros(4) + seq![1u8] + zeros(56)
}

/// The complete outer container image: header, boot blob, embedded
/// partition-table container, then the hex text of the MD5 digest of
/// everything before it.
pub open spec fn rkfw_image(header: Seq<u8>, boot: Seq<u8>, update: Seq<u8>) -> Seq<u8> {
    header + boot + update + md5_hex_of(header + boot + update)
}

/// Whether an embedded payload begins with the partition-table magic.
pub open spec fn update_magic_ok(update: Seq<u8>) -> bool {
    update.len() >= 4 && update.subrange(0, 4) == rkaf_magic()
}

/// Pack an outer container from a boot blob, an embedded partition-table
/// container, a chip name, a dotted version, a build timestamp and a hex
/// code field. The boot blob begins right after the fixed header and the
/// embedded container right after the blob; the trailing field is the
/// hex text of an MD5 digest, not the table checksum.
pub fn pack_rkfw(
    boot_data: &Vec<u8>,
    update_data: &Vec<u8>,
    chip: &Vec<u8>,
    version: &Vec<u8>,
    timestamp: i64,
    code_hex: &Vec<u8>,
) -> (r: Result<Vec<u8>, Error>)
    requires
        0x66 + boot_data@.len() + update_data@.len() <= 0xffffffff,
    ensures
        match r {
            Ok(out) => {
                &&& spec_code_field(code_hex@) is Some
                &&& spec_version(version@) is Some
                &&& spec_chip_code(chip@) is Some
                &&& update_magic_ok(update_data@)
                &&& civil_of(timestamp as int) is Some
                &&& {
                    let (major, minor, build) = spec_version(version@).unwrap();
                    let (y, mo, da, h, mi, s) = civil_of(timestamp as int).unwrap();
                    out@ == rkfw_image(
                        rkfw_header(
                            build,
                            minor,
                            major,
                            spec_code_field(code_hex@).unwrap(),
                            y,
                            mo,
                            da,
                            h,
                            mi,
                            s,
                            spec_chip_code(chip@).unwrap(),
                            chip@,
                            boot_data@.len() as u32,
                            (0x66 + boot_data@.len()) as u32,
                            update_data@.len() as u32,
                        ),
                        boot_data@,
                        update_data@,
                    )
                }
            },
            Err(e) => match e {
                Error::MalformedCodeField => spec_code_field(code_hex@) is None,
                Error::MalformedVersionString => spec_code_field(code_hex@) is Some
                    && spec_version(version@) is None,
                Error::UnsupportedChipFamily => spec_code_field(code_hex@) is Some && spec_version(
                    version@,
                ) is Some && spec_chip_code(chip@) is None,
                Error::InvalidEmbeddedContainer => spec_code_field(code_hex@) is Some
                    && spec_version(version@) is Some && spec_chip_code(chip@) is Some
                    && !update_magic_ok(update_data@),
                Error::InvalidTimestamp => spec_code_field(code_hex@) is Some && spec_version(
                    version@,
                ) is Some && spec_chip_code(chip@) is Some && update_magic_ok(update_data@)
                    && civil_of(timestamp as int) is None,
                _ => false,
            },
        },
{
    let code = match crate::text::parse_code_hex_field(code_hex) {
        Some(c) => c,
        None => {
            return Err(Error::MalformedCodeField);
        },
    };
    let (major, minor, build) = match parse_version(version) {
        Some(v) => v,
        None => {
            return Err(Error::MalformedVersionString);
        },
    };
    let chip_code = match crate::chip::chip_name_to_code(chip) {
        Ok(c) => c,
        Err(_) => {
            return Err(Error::UnsupportedChipFamily);
        },
    };
    if update_data.len() < 4 || !(update_data[0] == 82 && update_data[1] == 75 && update_data[2]
        == 65 && update_data[3] == 70) {
        proof {
            if update_data@.len() >= 4 && update_data@.subrange(0, 4) == rkaf_magic() {
                let m = update_data@.subrange(0, 4);
                assert(m[0] == update_data@[0] && m[1] == update_data@[1] && m[2]
                    == update_data@[2] && m[3] == update_data@[3]);
                assert(m[0] == rkaf_magic()[0] && m[1] == rkaf_magic()[1] && m[2]
                    == rkaf_magic()[2] && m[3] == rkaf_magic()[3]);
            }
        }
        return Err(Error::InvalidEmbeddedContainer);
    }
    proof {
        assert(update_data@.subrange(0, 4) =~= rkaf_magic());
    }
    let (year, month, day, hour, minute, second) = match crate::time::timestamp_to_civil(
        timestamp,
    ) {
        Some(c) => c,
        None => {
            return Err(Error::InvalidTimestamp);
        },
    };
    let boot_size: u32 = boot_data.len() as u32;
    let update_offset: u32 = 0x66 + boot_size;
    let update_size: u32 = update_data.len() as u32;
    let mut header: Vec<u8> = Vec::new();
    header.push(82u8);
    header.push(75u8);
    header.push(70u8);
    header.push(87u8);
    header.push(0x66u8);
    header.push(0u8);
    proof {
        crate::bytes::lemma_le16_bytes_fit(build);
        crate::bytes::lemma_le16_bytes_fit(year);
    }
    header.push((build & 0xff) as u8);
    header.push(((build >> 8) & 0xff) as u8);
    header.push(minor);
    header.push(major);
    push_u32_le(&mut header, code);
    header.push((year & 0xff) as u8);
    header.push(((year >> 8) & 0xff) as u8);
    header.push(month);
    header.push(day);
    header.push(hour);
    header.push(minute);
    header.push(second);
    header.push(chip_code);
    let digits = crate::chip::chip_digits(chip);
    if digits.len() >= 3 {
        header.push(digits[2]);
        header.push(digits[1]);
        header.push(digits[0]);
    } else {
        header.push(0u8);
        header.push(0u8);
        header.push(0u8);
    }
    push_u32_le(&mut header, 0x66u32);
    push_u32_le(&mut header, boot_size);
    push_u32_le(&mut header, update_offset);
    push_u32_le(&mut header, update_size);
    push_zeros(&mut header, 4);
    header.push(1u8);
    push_zeros(&mut header, 56);
    proof {
        assert(header@ =~= rkfw_header(
            build,
            minor,
            major,
            code,
            year,
            month,
            day,
            hour,
            minute,
            second,
            chip_code,
            chip@,
            boot_size,
            update_offset,
            update_size,
        ));
    }
    let mut out: Vec<u8> = Vec::new();
    push_bytes(&mut out, &header);
    push_bytes(&mut out, boot_data);
    push_bytes(&mut out, update_data);
    let trailer = crate::digest::md5_hex(&out);
    push_bytes(&mut out, &trailer);
    proof {
        assert(out@ =~= rkfw_image(header@, boot_data@, update_data@));
    }
    Ok(out)
}

// ---------------------------------------------------------------------------
// Partition-table pack: layout
// ---------------------------------------------------------------------------

/// `n` rounded up to the next sector boundary.
pub open spec fn padded_len(n: int) -> int {
    ((n + 2047) / 2048) * 2048
}

/// The padded length is the smallest sector multiple not below `n`.
pub proof fn lemma_padded_len(n: int)
    requires
        n >= 0,
    ensures
        padded_len(n) % 2048 == 0,
        n <= padded_len(n),
        padded_len(n) < n + 2048,
{
    let q = (n + 2047) / 2048;
    vstd::arithmetic::div_mod::lemma_fundamental_div_mod(n + 2047, 2048);
    vstd::arithmetic::div_mod::lemma_mod_bound(n + 2047, 2048);
    vstd::arithmetic::div_mod::lemma_mod_multiples_basic(q, 2048);
}

/// The content recorded for `path`: the first supplied file of that
/// path.
pub open spec fn lookup_content(files: Seq<(Seq<u8>, Seq<u8>)>, path: Seq<u8>) -> Option<Seq<u8>>
    decreases files.len(),
{
    if files.len() == 0 {
        None
    } else if files[0].0 == path {
        Some(files[0].1)
    } else {
        lookup_content(files.drop_first(), path)
    }
}

/// The length of the content recorded for `path`, zero when absent.
pub open spec fn content_len(files: Seq<(Seq<u8>, Seq<u8>)>, path: Seq<u8>) -> int {
    match lookup_content(files, path) {
        Some(c) => c.len() as int,
        None => 0,
    }
}

/// One laid-out block: its path, container offset, exact length, and
/// padded length.
pub open spec fn assoc_find(m: Seq<(Seq<u8>, int, int, int)>, path: Seq<u8>) -> Option<
    (Seq<u8>, int, int, int),
>
    decreases m.len(),
{
    if m.len() == 0 {
        None
    } else if m[0].0 == path {
        Some(m[0])
    } else {
        assoc_find(m.drop_first(), path)
    }
}

/// The layout after the first `i` manifest entries: the distinct blocks
/// in first-occurrence order, and the write cursor. The data region
/// begins at one sector, and each new path appends one padded block.
pub open spec fn layout_upto(
    entries: Seq<(Seq<u8>, Seq<u8>)>,
    files: Seq<(Seq<u8>, Seq<u8>)>,
    i: int,
) -> (Seq<(Seq<u8>, int, int, int)>, int)
    decreases i,
{
    if i <= 0 {
        (Seq::empty(), 2048)
    } else {
        let prev = layout_upto(entries, files, i - 1);
        let path = entries[i - 1].1;
        if assoc_find(prev.0, path) is Some {
            prev
        } else {
            let len = content_len(files, path);
            (prev.0.push((path, prev.1, len, padded_len(len))), prev.1 + padded_len(len))
        }
    }
}

/// The container offset and exact length assigned to entry `i`.
pub open spec fn entry_place(
    entries: Seq<(Seq<u8>, Seq<u8>)>,
    files: Seq<(Seq<u8>, Seq<u8>)>,
    i: int,
) -> (int, int) {
    let b = assoc_find(layout_upto(entries, files, i + 1).0, entries[i].1).unwrap();
    (b.1, b.2)
}

/// A found block is kept when the list grows.
pub proof fn lemma_assoc_find_push(
    m: Seq<(Seq<u8>, int, int, int)>,
    e: (Seq<u8>, int, int, int),
    path: Seq<u8>,
)
    requires
        assoc_find(m, path) is Some,
    ensures
        assoc_find(m.push(e), path) == assoc_find(m, path),
    decreases m.len(),
{
    if m.len() > 0 {
        assert(m.push(e)[0] == m[0]);
        assert(m.push(e).drop_first() =~= m.drop_first().push(e));
        if m[0].0 != path {
            lemma_assoc_find_push(m.drop_first(), e, path);
        }
    }
}

/// A block absent from the list is found exactly when pushed.
pub proof fn lemma_assoc_find_push_new(
    m: Seq<(Seq<u8>, int, int, int)>,
    e: (Seq<u8>, int, int, int),
    path: Seq<u8>,
)
    requires
        assoc_find(m, path) is None,
    ensures
        assoc_find(m.push(e), path) == if e.0 == path {
            Some(e)
        } else {
            None::<(Seq<u8>, int, int, int)>
        },
    decreases m.len(),
{
    if m.len() > 0 {
        assert(m.push(e)[0] == m[0]);
        assert(m.push(e).drop_first() =~= m.drop_first().push(e));
        lemma_assoc_find_push_new(m.drop_first(), e, path);
    } else {
        assert(m.push(e)[0] == e);
        assert(m.push(e).drop_first() =~= Seq::<(Seq<u8>, int, int, int)>::empty());
        assert(assoc_find(Seq::<(Seq<u8>, int, int, int)>::empty(), path) is None);
    }
}

/// The block list tiles the data region: the first block sits at one
/// sector, each next block follows the previous padded block, the
/// cursor follows the last, and every block holds at least its content.
pub open spec fn layout_tiled(
    entries: Seq<(Seq<u8>, Seq<u8>)>,
    files: Seq<(Seq<u8>, Seq<u8>)>,
    i: int,
) -> bool {
    let m = layout_upto(entries, files, i).0;
    let cur = layout_upto(entries, files, i).1;
    &&& (m.len() == 0 ==> cur == 2048)
    &&& (m.len() > 0 ==> m[0].1 == 2048 && cur == m.last().1 + m.last().3)
    &&& forall|k: int| 0 <= k < m.len() - 1 ==> (#[trigger] m[k].1) + m[k].3 == m[k + 1].1
    &&& forall|k: int| 0 <= k < m.len() ==> 0 <= (#[trigger] m[k].2) <= m[k].3 && m[k].3
        == padded_len(m[k].2) && m[k].1 + m[k].3 <= cur
    &&& forall|k1: int, k2: int|
        #![trigger m[k1], m[k2]]
        0 <= k1 < k2 < m.len() ==> m[k1].1 + m[k1].3 <= m[k2].1
    &&& cur >= 2048
}

/// The layout always tiles its data region.
#[verifier::rlimit(100)]
#[verifier::spinoff_prover]
pub proof fn lemma_layout_tiles(
    entries: Seq<(Seq<u8>, Seq<u8>)>,
    files: Seq<(Seq<u8>, Seq<u8>)>,
    i: int,
)
    ensures
        layout_tiled(entries, files, i),
    decreases i,
{
    if i <= 0 {
    } else {
        lemma_layout_tiles(entries, files, i - 1);
        let (m0, cur0) = layout_upto(entries, files, i - 1);
        let path = entries[i - 1].1;
        if assoc_find(m0, path) is Some {
        } else {
            let len = content_len(files, path);
            lemma_padded_len(len);
            let e = (path, cur0, len, padded_len(len));
            let m = layout_upto(entries, files, i).0;
            let cur = layout_upto(entries, files, i).1;
            assert(m == m0.push(e));
            assert(cur == cur0 + padded_len(len));
            assert(m.last() == e);
            assert(m.len() == m0.len() + 1);
            assert(forall|k: int| 0 <= k < m0.len() ==> m[k] == m0[k]);
            if m0.len() == 0 {
                assert(m[0] == e);
                assert(m[0].1 == 2048);
            }
            assert forall|k: int| 0 <= k < m.len() - 1 implies (#[trigger] m[k].1) + m[k].3 == m[k
                + 1].1 by {
                if k < m0.len() - 1 {
                    assert(m0[k].1 + m0[k].3 == m0[k + 1].1);
                } else {
                    assert(k == m0.len() - 1);
                    assert(m[k] == m0.last());
                    assert(cur0 == m0.last().1 + m0.last().3);
                }
            }
            assert forall|k: int| 0 <= k < m.len() implies 0 <= (#[trigger] m[k].2) <= m[k].3
                && m[k].3 == padded_len(m[k].2) && m[k].1 + m[k].3 <= cur by {
                if k < m0.len() {
                    assert(0 <= m0[k].2 <= m0[k].3 && m0[k].3 == padded_len(m0[k].2) && m0[k].1
                        + m0[k].3 <= cur0);
                } else {
                    assert(m[k] == e);
                }
            }
            assert forall|k1: int, k2: int|
                #![trigger m[k1], m[k2]]
                0 <= k1 < k2 < m.len() implies m[k1].1 + m[k1].3 <= m[k2].1 by {
                if k2 < m0.len() {
                    assert(m[k1] == m0[k1] && m[k2] == m0[k2]);
                    assert(m0[k1].1 + m0[k1].3 <= m0[k2].1);
                } else {
                    assert(m[k2] == e);
                    assert(m[k1] == m0[k1]);
                    assert(padded_len(m0[k1].2) == m0[k1].3);
                    assert(m0[k1].1 + m0[k1].3 <= cur0);
                }
            }
        }
    }
}

/// Every block offset and the final cursor are sector-aligned.
pub proof fn lemma_layout_aligned(
    entries: Seq<(Seq<u8>, Seq<u8>)>,
    files: Seq<(Seq<u8>, Seq<u8>)>,
    i: int,
)
    ensures
        ({
            let (m, cur) = layout_upto(entries, files, i);
            &&& forall|k: int| 0 <= k < m.len() ==> (#[trigger] m[k].1) % 2048 == 0
            &&& cur % 2048 == 0
        }),
    decreases i,
{
    if i > 0 {
        lemma_layout_aligned(entries, files, i - 1);
        let (m0, cur0) = layout_upto(entries, files, i - 1);
        let path = entries[i - 1].1;
        if assoc_find(m0, path) is Some {
        } else {
            let len = content_len(files, path);
            lemma_padded_len(len);
            let m = layout_upto(entries, files, i).0;
            assert(forall|k: int| 0 <= k < m0.len() ==> m[k] == m0[k]);
            assert(m.last().1 == cur0);
            vstd::arithmetic::div_mod::lemma_add_mod_noop(cur0, padded_len(len), 2048);
        }
    }
}

/// Whether every laid-out block records the length of its path's
/// content.
pub open spec fn layout_content_ok(
    entries: Seq<(Seq<u8>, Seq<u8>)>,
    files: Seq<(Seq<u8>, Seq<u8>)>,
    i: int,
) -> bool {
    forall|k: int| 0 <= k < layout_upto(entries, files, i).0.len() ==> (#[trigger] layout_upto(
        entries,
        files,
        i,
    ).0[k]).2 == content_len(files, layout_upto(entries, files, i).0[k].0)
}

/// The layout always records content lengths.
pub proof fn lemma_layout_content(
    entries: Seq<(Seq<u8>, Seq<u8>)>,
    files: Seq<(Seq<u8>, Seq<u8>)>,
    i: int,
)
    ensures
        layout_content_ok(entries, files, i),
    decreases i,
{
    if i > 0 {
        lemma_layout_content(entries, files, i - 1);
        let m0 = layout_upto(entries, files, i - 1).0;
        let m = layout_upto(entries, files, i).0;
        assert(forall|k: int| 0 <= k < m0.len() ==> m0[k] == #[trigger] m[k]);
    }
}

/// The tiling facts for one block, without a quantifier: where it ends,
/// that the next block or the cursor begins there, and its sizes.
proof fn lemma_layout_step(
    entries: Seq<(Seq<u8>, Seq<u8>)>,
    files: Seq<(Seq<u8>, Seq<u8>)>,
    i: int,
    k: int,
)
    requires
        0 <= k < layout_upto(entries, files, i).0.len(),
    ensures
        ({
            let m = layout_upto(entries, files, i).0;
            let cur = layout_upto(entries, files, i).1;
            &&& m[k].1 + m[k].3 == (if k + 1 < m.len() {
                m[k + 1].1
            } else {
                cur
            })
            &&& 0 <= m[k].2 <= m[k].3
            &&& m[k].3 == padded_len(m[k].2)
            &&& m[k].1 + m[k].3 <= cur
            &&& m[k].1 >= 2048
            &&& m[k].2 == content_len(files, m[k].0)
            &&& (k == 0 ==> m[k].1 == 2048)
            &&& cur >= 2048
        }),
{
    lemma_layout_tiles(entries, files, i);
    lemma_layout_content(entries, files, i);
    let m = layout_upto(entries, files, i).0;
    if k > 0 {
        assert(m[0].1 + m[0].3 <= m[k].1);
        assert(0 <= m[0].2 <= m[0].3);
    }
}

/// An earlier block ends before a later block begins.
proof fn lemma_layout_order(
    entries: Seq<(Seq<u8>, Seq<u8>)>,
    files: Seq<(Seq<u8>, Seq<u8>)>,
    i: int,
    k1: int,
    k2: int,
)
    requires
        0 <= k1 < k2 < layout_upto(entries, files, i).0.len(),
    ensures
        layout_upto(entries, files, i).0[k1].1 + layout_upto(entries, files, i).0[k1].3
            <= layout_upto(entries, files, i).0[k2].1,
{
    lemma_layout_tiles(entries, files, i);
    let m = layout_upto(entries, files, i).0;
    assert(m[k1].1 + m[k1].3 <= m[k2].1);
}

/// The cursor never moves backwards as entries are processed.
pub proof fn lemma_layout_cursor_mono(
    entries: Seq<(Seq<u8>, Seq<u8>)>,
    files: Seq<(Seq<u8>, Seq<u8>)>,
    i: int,
    j: int,
)
    requires
        i <= j,
    ensures
        layout_upto(entries, files, i).1 <= layout_upto(entries, files, j).1,
    decreases j - i,
{
    if i < j {
        lemma_layout_cursor_mono(entries, files, i, j - 1);
        let path = entries[j - 1].1;
        let len = content_len(files, path);
        lemma_padded_len(len);
    }
}

/// The spec-level pairs of an exec file list.
pub open spec fn files_view(fs: Seq<(Vec<u8>, Vec<u8>)>) -> Seq<(Seq<u8>, Seq<u8>)> {
    Seq::new(fs.len(), |i: int| (fs[i].0@, fs[i].1@))
}

/// Whether the exec block list carries exactly the spec blocks.
pub open spec fn blocks_match(
    v: Seq<(Vec<u8>, u32, u32, u32)>,
    m: Seq<(Seq<u8>, int, int, int)>,
) -> bool {
    &&& v.len() == m.len()
    &&& forall|k: int| 0 <= k < v.len() ==> (#[trigger] v[k]).0@ == m[k].0 && v[k].1 == m[k].1
        && v[k].2 == m[k].2 && v[k].3 == m[k].3
}

/// Whether each collected block holds exactly the content its path
/// looks up.
pub open spec fn blocks_contents_ok(
    bs: Seq<Vec<u8>>,
    m: Seq<(Seq<u8>, int, int, int)>,
    files: Seq<(Seq<u8>, Seq<u8>)>,
) -> bool {
    forall|k: int| 0 <= k < bs.len() ==> lookup_content(files, (#[trigger] m[k]).0) is Some
        && bs[k]@ == lookup_content(files, m[k].0).unwrap()
}

/// Whether the first `upto` blocks stand written in `out`: the content
/// at its offset, the padding zero.
pub open spec fn data_region_ok(
    out: Seq<u8>,
    m: Seq<(Seq<u8>, int, int, int)>,
    files: Seq<(Seq<u8>, Seq<u8>)>,
    upto: int,
) -> bool {
    forall|k: int| 0 <= k < upto ==> out.subrange((#[trigger] m[k]).1, m[k].1 + m[k].2)
        == lookup_content(files, m[k].0).unwrap() && out.subrange(
        m[k].1 + m[k].2,
        m[k].1 + m[k].3,
    ) == zeros((m[k].3 - m[k].2) as nat)
}

/// If entry `k` is the first of its path, the lookup returns it.
proof fn lemma_lookup_content_at(files: Seq<(Seq<u8>, Seq<u8>)>, path: Seq<u8>, k: int)
    requires
        0 <= k < files.len(),
        files[k].0 == path,
        forall|j: int| 0 <= j < k ==> files[j].0 != path,
    ensures
        lookup_content(files, path) == Some(files[k].1),
    decreases k,
{
    if k > 0 {
        lemma_lookup_content_at(files.drop_first(), path, k - 1);
    }
}

/// If no entry carries the path, the lookup reports its absence.
proof fn lemma_lookup_content_none(files: Seq<(Seq<u8>, Seq<u8>)>, path: Seq<u8>)
    requires
        forall|j: int| 0 <= j < files.len() ==> files[j].0 != path,
    ensures
        lookup_content(files, path) is None,
    decreases files.len(),
{
    if files.len() > 0 {
        lemma_lookup_content_none(files.drop_first(), path);
    }
}

/// If block `k` is the first of its path, the find returns it.
proof fn lemma_assoc_find_at(m: Seq<(Seq<u8>, int, int, int)>, path: Seq<u8>, k: int)
    requires
        0 <= k < m.len(),
        m[k].0 == path,
        forall|j: int| 0 <= j < k ==> m[j].0 != path,
    ensures
        assoc_find(m, path) == Some(m[k]),
    decreases k,
{
    if k > 0 {
        lemma_assoc_find_at(m.drop_first(), path, k - 1);
    }
}

/// If no block carries the path, the find reports its absence.
proof fn lemma_assoc_find_none(m: Seq<(Seq<u8>, int, int, int)>, path: Seq<u8>)
    requires
        forall|j: int| 0 <= j < m.len() ==> m[j].0 != path,
    ensures
        assoc_find(m, path) is None,
    decreases m.len(),
{
    if m.len() > 0 {
        lemma_assoc_find_none(m.drop_first(), path);
    }
}

/// Find the first supplied file of `path`.
fn find_content(files: &Vec<(Vec<u8>, Vec<u8>)>, path: &Vec<u8>) -> (r: Option<usize>)
    ensures
        match r {
            Some(k) => k < files@.len() && lookup_content(files_view(files@), path@) == Some(
                files@[k as int].1@,
            ),
            None => lookup_content(files_view(files@), path@) is None,
        },
{
    let n: usize = files.len();
    let mut k: usize = 0;
    while k < n
        invariant
            k <= n == files@.len(),
            forall|j: int| 0 <= j < k ==> files_view(files@)[j].0 != path@,
        decreases n - k,
    {
        if crate::bytes::bytes_equal(&files[k].0, path) {
            proof {
                lemma_lookup_content_at(files_view(files@), path@, k as int);
            }
            return Some(k);
        }
        k = k + 1;
    }
    proof {
        lemma_lookup_content_none(files_view(files@), path@);
    }
    None
}

/// Find the laid-out block of `path`, if one exists yet.
fn find_loaded(loaded: &Vec<(Vec<u8>, u32, u32, u32)>, path: &Vec<u8>) -> (r: Option<usize>)
    ensures
        match r {
            Some(k) => k < loaded@.len() && loaded@[k as int].0@ == path@ && forall|
                m: Seq<(Seq<u8>, int, int, int)>,
            |
                blocks_match(loaded@, m) ==> assoc_find(m, path@) == Some(m[k as int]),
            None => forall|m: Seq<(Seq<u8>, int, int, int)>|
                blocks_match(loaded@, m) ==> assoc_find(m, path@) is None,
        },
{
    let n: usize = loaded.len();
    let mut k: usize = 0;
    while k < n
        invariant
            k <= n == loaded@.len(),
            forall|j: int| 0 <= j < k ==> loaded@[j].0@ != path@,
        decreases n - k,
    {
        if crate::bytes::bytes_equal(&loaded[k].0, path) {
            proof {
                assert forall|m: Seq<(Seq<u8>, int, int, int)>|
                    blocks_match(loaded@, m) implies assoc_find(m, path@) == Some(
                    m[k as int],
                ) by {
                    assert forall|j: int| 0 <= j < k implies m[j].0 != path@ by {
                        assert(loaded@[j].0@ != path@);
                    }
                    lemma_assoc_find_at(m, path@, k as int);
                }
            }
            return Some(k);
        }
        k = k + 1;
    }
    proof {
        assert forall|m: Seq<(Seq<u8>, int, int, int)>|
            blocks_match(loaded@, m) implies assoc_find(m, path@) is None by {
            assert forall|j: int| 0 <= j < m.len() implies m[j].0 != path@ by {
                assert(loaded@[j].0@ != path@);
            }
            lemma_assoc_find_none(m, path@);
        }
    }
    None
}

/// What a correctly packed partition-table container looks like, byte
/// region by byte region, before its checksum trailer: header fields at
/// their offsets, one partition entry per manifest pair with geometry
/// from the metadata and placement from the layout, unused entries and
/// the reserved tail zero, and each distinct file's bytes standing once
/// at their assigned offset, zero-padded to a sector boundary.
pub open spec fn rkaf_packed_ok(
    out: Seq<u8>,
    entries: Seq<(Seq<u8>, Seq<u8>)>,
    files: Seq<(Seq<u8>, Seq<u8>)>,
    meta: Seq<(Seq<u8>, crate::metadata::PartitionMetadata)>,
    model: Seq<u8>,
    manu: Seq<u8>,
    mid: Seq<u8>,
) -> bool {
    let n = entries.len() as int;
    let m = layout_upto(entries, files, n).0;
    let end = layout_upto(entries, files, n).1;
    &&& out.len() == end
    &&& out.subrange(0, 4) == crate::unpack::rkaf_magic()
    &&& crate::unpack::dec_u32_at(out, 4) == end as u32
    &&& out.subrange(8, 42) == crate::text::fixed_enc(model, 34)
    &&& out.subrange(42, 72) == (if mid.len() > 0 {
        crate::text::fixed_enc(mid, 30)
    } else {
        zeros(30)
    })
    &&& out.subrange(72, 128) == crate::text::fixed_enc(manu, 56)
    &&& crate::unpack::dec_u32_at(out, 128) == 0
    &&& crate::unpack::dec_u32_at(out, 132) == 0x01000000
    &&& crate::unpack::dec_u32_at(out, 136) == n as u32
    &&& forall|i: int| 0 <= i < n ==> {
        &&& crate::unpack::part_name_raw(out, i) == crate::text::clipped_field(
            (#[trigger] entries[i]).0,
            32,
        )
        &&& crate::unpack::part_path_raw(out, i) == crate::text::clipped_field(entries[i].1, 60)
        &&& crate::unpack::part_flash_size_of(out, i) == crate::metadata::spec_meta_lookup(
            meta,
            entries[i].0,
        ).unwrap().flash_size
        &&& crate::unpack::part_flash_offset_of(out, i) == crate::metadata::spec_meta_lookup(
            meta,
            entries[i].0,
        ).unwrap().flash_offset
        &&& crate::unpack::part_padded_size_of(out, i) == crate::metadata::spec_meta_lookup(
            meta,
            entries[i].0,
        ).unwrap().padded_size
        &&& crate::unpack::part_offset_of(out, i) == entry_place(entries, files, i).0 as u32
        &&& crate::unpack::part_count_of(out, i) == entry_place(entries, files, i).1 as u32
    }
    &&& forall|i: int| n <= i < 16 ==> {
        &&& #[trigger] crate::unpack::part_name_raw(out, i) == zeros(32)
        &&& crate::unpack::part_path_raw(out, i) == zeros(60)
        &&& crate::unpack::part_flash_size_of(out, i) == 0
        &&& crate::unpack::part_flash_offset_of(out, i) == 0
        &&& crate::unpack::part_padded_size_of(out, i) == 0
        &&& crate::unpack::part_offset_of(out, i) == 0
        &&& crate::unpack::part_count_of(out, i) == 0
    }
    &&& out.subrange(1932, 2048) == zeros(116)
    &&& data_region_ok(out, m, files, m.len() as int)
}

/// What the partition entry of manifest pair `j` must hold: the clipped
/// name and path, geometry from the metadata, and placement from the
/// layout.
pub open spec fn part_target(
    p: crate::layout::UpdatePart,
    entries: Seq<(Seq<u8>, Seq<u8>)>,
    files: Seq<(Seq<u8>, Seq<u8>)>,
    meta: Seq<(Seq<u8>, crate::metadata::PartitionMetadata)>,
    j: int,
) -> bool {
    &&& p.name@ == crate::text::clipped_field(entries[j].0, 32)
    &&& p.full_path@ == crate::text::clipped_field(entries[j].1, 60)
    &&& p.flash_size == crate::metadata::spec_meta_lookup(meta, entries[j].0).unwrap().flash_size
    &&& p.flash_offset == crate::metadata::spec_meta_lookup(
        meta,
        entries[j].0,
    ).unwrap().flash_offset
    &&& p.padded_size == crate::metadata::spec_meta_lookup(meta, entries[j].0).unwrap().padded_size
    &&& p.part_offset == entry_place(entries, files, j).0 as u32
    &&& p.part_byte_count == entry_place(entries, files, j).1 as u32
}

/// An all-zero partition entry.
pub open spec fn zero_part(p: crate::layout::UpdatePart) -> bool {
    &&& p.name@ == zeros(32)
    &&& p.full_path@ == zeros(60)
    &&& p.flash_size == 0
    &&& p.part_offset == 0
    &&& p.flash_offset == 0
    &&& p.padded_size == 0
    &&& p.part_byte_count == 0
}

/// Pack a partition-table container from the package manifest, the
/// geometry metadata, the optional parameter text, the two strings, and
/// the contents of every file the manifest names. The result carries no
/// checksum trailer yet: the caller writes these bytes out, reads them
/// back, and appends the checksum, so that the trailer covers the bytes
/// on disk.
pub fn pack_rkaf(
    package_text: &Vec<u8>,
    metadata_text: &Vec<u8>,
    parameter_text: &Vec<u8>,
    model: &Vec<u8>,
    manufacturer: &Vec<u8>,
    files: &Vec<(Vec<u8>, Vec<u8>)>,
) -> (r: Result<Vec<u8>, Error>)
    requires
        layout_upto(
            crate::package::spec_parse_package(package_text@),
            files_view(files@),
            crate::package::spec_parse_package(package_text@).len() as int,
        ).1 <= 0xffffffff,
    ensures
        match r {
            Ok(out) => {
                let ents = crate::package::spec_parse_package(package_text@);
                &&& 0 < ents.len() <= 16
                &&& crate::metadata::spec_parse_metadata(metadata_text@) matches Some(geo)
                    && geo.len() > 0 && (forall|i: int|
                    0 <= i < ents.len() ==> lookup_content(
                        files_view(files@),
                        (#[trigger] ents[i]).1,
                    ) is Some && crate::metadata::spec_meta_lookup(geo, ents[i].0) is Some)
                    && rkaf_packed_ok(
                    out@,
                    ents,
                    files_view(files@),
                    geo,
                    model@,
                    manufacturer@,
                    crate::package::spec_machine_id(parameter_text@),
                )
            },
            Err(e) => {
                let ents = crate::package::spec_parse_package(package_text@);
                match e {
                    Error::MalformedManifestLine => ents.len() == 0 || ents.len() > 16
                        || crate::metadata::spec_parse_metadata(metadata_text@) is None,
                    Error::MissingPartitionGeometry => crate::metadata::spec_parse_metadata(
                        metadata_text@,
                    ) matches Some(geo) && (geo.len() == 0 || exists|i: int|
                        0 <= i < ents.len() && crate::metadata::spec_meta_lookup(
                            geo,
                            (#[trigger] ents[i]).0,
                        ) is None),
                    Error::Io => exists|i: int|
                        0 <= i < ents.len() && lookup_content(
                            files_view(files@),
                            (#[trigger] ents[i]).1,
                        ) is None,
                    _ => false,
                }
            },
        },
{
    let ghost ents = crate::package::spec_parse_package(package_text@);
    let ghost fv = files_view(files@);
    let entries = crate::package::parse_package_file(package_text);
    if entries.len() == 0 {
        return Err(Error::MalformedManifestLine);
    }
    let machine_id = crate::package::parse_machine_id(parameter_text);
    let metadata = match crate::metadata::parse_partition_metadata(metadata_text) {
        Ok(m) => m,
        Err(_) => {
            return Err(Error::MalformedManifestLine);
        },
    };
    let ghost geo = crate::metadata::spec_parse_metadata(metadata_text@).unwrap();
    if metadata.len() == 0 {
        return Err(Error::MissingPartitionGeometry);
    }
    let n: usize = entries.len();
    if n > 16 {
        return Err(Error::MalformedManifestLine);
    }
    let mut header = crate::layout::UpdateHeader::default();
    let mut magic: Vec<u8> = Vec::new();
    magic.push(82u8);
    magic.push(75u8);
    magic.push(65u8);
    magic.push(70u8);
    proof {
        assert(magic@ =~= rkaf_magic());
    }
    header.magic = magic;
    header.model = crate::text::encode_fixed_string(model, 34);
    header.manufacturer = crate::text::encode_fixed_string(manufacturer, 56);
    if machine_id.len() > 0 {
        header.id = crate::text::encode_fixed_string(&machine_id, 30);
    }
    header.version = 0x01000000;
    header.num_parts = n as u32;
    let mut loaded: Vec<(Vec<u8>, u32, u32, u32)> = Vec::new();
    let mut blocks: Vec<Vec<u8>> = Vec::new();
    let mut cursor: u64 = 2048;
    proof {
        assert forall|j: int| 0 <= j < 16 implies zero_part(#[trigger] header.parts@[j]) by {
            assert(header.parts@[j].wf());
        }
        lemma_layout_cursor_mono(ents, fv, 0, n as int);
    }
    let mut i: usize = 0;
    while i < n
        invariant
            i <= n == entries@.len(),
            n <= 16,
            ents == crate::package::spec_parse_package(package_text@),
            fv == files_view(files@),
            crate::package::pkg_entries_match(entries@, ents),
            crate::metadata::meta_entries_match(metadata@, geo),
            crate::metadata::spec_parse_metadata(metadata_text@) == Some(geo),
            geo.len() > 0,
            layout_upto(ents, fv, n as int).1 <= 0xffffffff,
            blocks_match(loaded@, layout_upto(ents, fv, i as int).0),
            blocks@.len() == loaded@.len(),
            blocks_contents_ok(blocks@, layout_upto(ents, fv, i as int).0, fv),
            cursor == layout_upto(ents, fv, i as int).1,
            cursor <= layout_upto(ents, fv, n as int).1,
            header.wf(),
            header.magic@ == rkaf_magic(),
            header.length == 0,
            header.model@ == crate::text::fixed_enc(model@, 34),
            header.id@ == (if crate::package::spec_machine_id(parameter_text@).len() > 0 {
                crate::text::fixed_enc(crate::package::spec_machine_id(parameter_text@), 30)
            } else {
                zeros(30)
            }),
            header.manufacturer@ == crate::text::fixed_enc(manufacturer@, 56),
            header.unknown1 == 0,
            header.version == 0x01000000,
            header.num_parts == n as u32,
            forall|j: int| 0 <= j < i ==> part_target(#[trigger] header.parts@[j], ents, fv, geo, j),
            forall|j: int| i <= j < 16 ==> zero_part(#[trigger] header.parts@[j]),
            forall|j: int| 0 <= j < i ==> lookup_content(fv, (#[trigger] ents[j]).1) is Some
                && crate::metadata::spec_meta_lookup(geo, ents[j].0) is Some,
        decreases n - i,
    {
        proof {
            assert(entries@[i as int].0@ == ents[i as int].0 && entries@[i as int].1@ == ents[
                i as int].1);
        }
        let ghost mi = layout_upto(ents, fv, i as int).0;
        let (off32, size32): (u32, u32) = match find_loaded(&loaded, &entries[i].1) {
            Some(k) => {
                proof {
                    assert(assoc_find(mi, ents[i as int].1) == Some(mi[k as int]));
                    assert(layout_upto(ents, fv, i + 1) == layout_upto(ents, fv, i as int));
                    assert(entry_place(ents, fv, i as int) == (mi[k as int].1, mi[k as int].2));
                    lemma_layout_tiles(ents, fv, i as int);
                    assert(blocks_contents_ok(blocks@, mi, fv));
                    assert(lookup_content(fv, mi[k as int].0) is Some) by {
                        assert(0 <= k < blocks@.len());
                        assert(mi[k as int] == mi[k as int]);
                    }
                    assert(lookup_content(fv, ents[i as int].1) is Some);
                    lemma_layout_cursor_mono(ents, fv, i + 1, n as int);
                    assert(layout_upto(ents, fv, i + 1).0 == mi);
                    assert(blocks_contents_ok(blocks@, layout_upto(ents, fv, i + 1).0, fv));
                }
                (loaded[k].1, loaded[k].2)
            },
            None => {
                proof {
                    assert(assoc_find(mi, ents[i as int].1) is None);
                }
                let ci = match find_content(files, &entries[i].1) {
                    Some(c) => c,
                    None => {
                        proof {
                            assert(lookup_content(fv, ents[i as int].1) is None);
                        }
                        return Err(Error::Io);
                    },
                };
                let data = crate::bytes::read_bytes(files[ci].1.as_slice(), 0, files[ci].1.len());
                let ghost clen = content_len(fv, ents[i as int].1);
                proof {
                    assert(fv[ci as int] == (files@[ci as int].0@, files@[ci as int].1@));
                    assert(data@ == fv[ci as int].1);
                    assert(clen == data@.len());
                    lemma_padded_len(clen);
                    assert(layout_upto(ents, fv, i + 1).0 == mi.push(
                        (ents[i as int].1, cursor as int, clen, padded_len(clen)),
                    ));
                    assert(layout_upto(ents, fv, i + 1).1 == cursor + padded_len(clen));
                    lemma_layout_cursor_mono(ents, fv, i + 1, n as int);
                    assert(cursor + padded_len(clen) <= 0xffffffff);
                    assert(clen <= padded_len(clen));
                }
                let size: u64 = data.len() as u64;
                let pad: u64 = ((size + 2047) / 2048) * 2048;
                proof {
                    assert(pad == padded_len(clen));
                    lemma_assoc_find_push_new(
                        mi,
                        (ents[i as int].1, cursor as int, clen, padded_len(clen)),
                        ents[i as int].1,
                    );
                    assert(entry_place(ents, fv, i as int) == (cursor as int, clen));
                }
                let path_copy = crate::bytes::read_bytes(
                    entries[i].1.as_slice(),
                    0,
                    entries[i].1.len(),
                );
                let off = cursor as u32;
                let ghost prev_loaded = loaded@;
                let ghost prev_blocks = blocks@;
                loaded.push((path_copy, off, size as u32, pad as u32));
                blocks.push(data);
                cursor = cursor + pad;
                proof {
                    let mi1 = layout_upto(ents, fv, i + 1).0;
                    assert(path_copy@ == ents[i as int].1);
                    assert forall|k: int| 0 <= k < loaded@.len() implies (#[trigger] loaded@[k]).0@
                        == mi1[k].0 && loaded@[k].1 == mi1[k].1 && loaded@[k].2 == mi1[k].2
                        && loaded@[k].3 == mi1[k].3 by {
                        if k < prev_loaded.len() {
                            assert(loaded@[k] == prev_loaded[k]);
                            assert(mi1[k] == mi[k]);
                        } else {
                            assert(loaded@[k] == loaded@.last());
                            assert(mi1[k] == (ents[i as int].1, cursor as int - padded_len(clen), clen, padded_len(clen)));
                        }
                    }
                    assert(blocks_match(loaded@, mi1));
                    assert(blocks_contents_ok(prev_blocks, mi, fv));
                    assert forall|k: int| 0 <= k < blocks@.len() implies lookup_content(
                        fv,
                        (#[trigger] mi1[k]).0,
                    ) is Some && blocks@[k]@ == lookup_content(fv, mi1[k].0).unwrap() by {
                        if k < prev_blocks.len() {
                            assert(blocks@[k] == prev_blocks[k]);
                            assert(mi1[k] == mi[k]);
                            assert(lookup_content(fv, mi[k].0) is Some && prev_blocks[k]@
                                == lookup_content(fv, mi[k].0).unwrap());
                        } else {
                            assert(blocks@[k] == blocks@.last());
                            assert(mi1[k].0 == ents[i as int].1);
                        }
                    }
                    assert(blocks_contents_ok(blocks@, mi1, fv));
                }
                (off, size as u32)
            },
        };
        let geo_entry = match crate::metadata::meta_lookup(&metadata, &entries[i].0) {
            Some(g) => g,
            None => {
                proof {
                    assert(crate::metadata::spec_meta_lookup(geo, ents[i as int].0) is None);
                }
                return Err(Error::MissingPartitionGeometry);
            },
        };
        let part = crate::layout::UpdatePart {
            name: crate::text::encode_clipped_field(&entries[i].0, 32),
            full_path: crate::text::encode_clipped_field(&entries[i].1, 60),
            flash_size: geo_entry.flash_size,
            part_offset: off32,
            flash_offset: geo_entry.flash_offset,
            padded_size: geo_entry.padded_size,
            part_byte_count: size32,
        };
        header.parts.set(i, part);
        proof {
            assert(part_target(header.parts@[i as int], ents, fv, geo, i as int));
            assert(crate::metadata::spec_meta_lookup(geo, ents[i as int].0) is Some);
            assert(lookup_content(fv, ents[i as int].1) is Some);
        }
        i = i + 1;
    }
    proof {
        lemma_layout_tiles(ents, fv, n as int);
    }
    header.length = cursor as u32;
    let out = emit_rkaf(
        header,
        &blocks,
        &loaded,
        Ghost(ents),
        Ghost(fv),
        Ghost(geo),
        Ghost(model@),
        Ghost(manufacturer@),
        Ghost(crate::package::spec_machine_id(parameter_text@)),
    );
    Ok(out)
}

/// Write the container bytes: the encoded header, then each distinct
/// file's bytes followed by zero padding up to its padded size, in
/// first-occurrence order.
#[verifier::rlimit(100)]
#[verifier::spinoff_prover]
fn emit_rkaf(
    header: crate::layout::UpdateHeader,
    blocks: &Vec<Vec<u8>>,
    loaded: &Vec<(Vec<u8>, u32, u32, u32)>,
    Ghost(ents): Ghost<Seq<(Seq<u8>, Seq<u8>)>>,
    Ghost(fv): Ghost<Seq<(Seq<u8>, Seq<u8>)>>,
    Ghost(geo): Ghost<Seq<(Seq<u8>, crate::metadata::PartitionMetadata)>>,
    Ghost(model_s): Ghost<Seq<u8>>,
    Ghost(manu_s): Ghost<Seq<u8>>,
    Ghost(mid_s): Ghost<Seq<u8>>,
) -> (out: Vec<u8>)
    requires
        0 < ents.len() <= 16,
        layout_upto(ents, fv, ents.len() as int).1 <= 0xffffffff,
        header.wf(),
        header.magic@ == rkaf_magic(),
        header.length == layout_upto(ents, fv, ents.len() as int).1 as u32,
        header.model@ == crate::text::fixed_enc(model_s, 34),
        header.id@ == (if mid_s.len() > 0 {
            crate::text::fixed_enc(mid_s, 30)
        } else {
            zeros(30)
        }),
        header.manufacturer@ == crate::text::fixed_enc(manu_s, 56),
        header.unknown1 == 0,
        header.version == 0x01000000,
        header.num_parts == ents.len() as u32,
        forall|j: int| 0 <= j < ents.len() ==> part_target(
            #[trigger] header.parts@[j],
            ents,
            fv,
            geo,
            j,
        ),
        forall|j: int| ents.len() <= j < 16 ==> zero_part(#[trigger] header.parts@[j]),
        blocks_match(loaded@, layout_upto(ents, fv, ents.len() as int).0),
        blocks@.len() == loaded@.len(),
        blocks_contents_ok(blocks@, layout_upto(ents, fv, ents.len() as int).0, fv),
    ensures
        rkaf_packed_ok(out@, ents, fv, geo, model_s, manu_s, mid_s),
{
    let ghost n = ents.len() as int;
    let ghost m = layout_upto(ents, fv, n).0;
    let ghost end = layout_upto(ents, fv, n).1;
    let mut out = header.to_bytes();
    let ghost hdr0 = out@;
    proof {
        lemma_layout_tiles(ents, fv, n);
        assert(out@.subrange(0, 2048) =~= hdr0);
    }
    let nb: usize = blocks.len();
    proof {
        lemma_layout_content(ents, fv, n);
    }
    let mut k: usize = 0;
    while k < nb
        invariant
            k <= nb == blocks@.len() == loaded@.len(),
            m == layout_upto(ents, fv, n).0,
            end == layout_upto(ents, fv, n).1,
            blocks_match(loaded@, m),
            blocks_contents_ok(blocks@, m, fv),
            out@.len() == (if k < nb {
                m[k as int].1
            } else {
                end
            }),
            out@.len() >= 2048,
            out@.subrange(0, 2048) == hdr0,
            data_region_ok(out@, m, fv, k as int),
        decreases nb - k,
    {
        proof {
            lemma_layout_step(ents, fv, n, k as int);
        }
        let ghost prev = out@;
        crate::bytes::push_bytes(&mut out, &blocks[k]);
        let ghost mid = out@;
        let padding: u32 = loaded[k].3 - loaded[k].2;
        crate::bytes::push_zeros(&mut out, padding as usize);
        proof {
            let e = m[k as int];
            assert(prev.len() == e.1);
            assert(mid =~= prev + blocks@[k as int]@);
            assert(out@ =~= mid + zeros(padding as nat));
            assert forall|x: int| 0 <= x < prev.len() implies #[trigger] out@[x] == prev[x] by {
                assert(mid[x] == prev[x]);
            }
            assert(blocks@[k as int]@ == lookup_content(fv, e.0).unwrap());
            assert(blocks@[k as int]@.len() == e.2);
            assert(out@.len() == e.1 + e.3);
            if k + 1 < nb {
                assert(e.1 + e.3 == m[k + 1].1);
            } else {
                assert(e.1 + e.3 == end);
            }
            assert(out@.subrange(e.1, e.1 + e.2) =~= blocks@[k as int]@);
            assert(out@.subrange(e.1 + e.2, e.1 + e.3) =~= zeros((e.3 - e.2) as nat));
            assert(out@.subrange(0, 2048) =~= prev.subrange(0, 2048));
            assert(data_region_ok(prev, m, fv, k as int));
            assert forall|kk: int| 0 <= kk < k + 1 implies out@.subrange(
                (#[trigger] m[kk]).1,
                m[kk].1 + m[kk].2,
            ) == lookup_content(fv, m[kk].0).unwrap() && out@.subrange(
                m[kk].1 + m[kk].2,
                m[kk].1 + m[kk].3,
            ) == zeros((m[kk].3 - m[kk].2) as nat) by {
                if kk < k {
                    assert(prev.subrange(m[kk].1, m[kk].1 + m[kk].2) == lookup_content(
                        fv,
                        m[kk].0,
                    ).unwrap() && prev.subrange(m[kk].1 + m[kk].2, m[kk].1 + m[kk].3) == zeros(
                        (m[kk].3 - m[kk].2) as nat,
                    ));
                    lemma_layout_order(ents, fv, n, kk, k as int);
                    lemma_layout_step(ents, fv, n, kk);
                    assert(0 <= m[kk].2 <= m[kk].3);
                    assert(m[kk].1 + m[kk].3 <= prev.len());
                    assert forall|x2: int| 0 <= x2 < m[kk].2 implies #[trigger] out@.subrange(
                        m[kk].1,
                        m[kk].1 + m[kk].2,
                    )[x2] == prev.subrange(m[kk].1, m[kk].1 + m[kk].2)[x2] by {
                        assert(out@[m[kk].1 + x2] == prev[m[kk].1 + x2]);
                    }
                    assert(out@.subrange(m[kk].1, m[kk].1 + m[kk].2) =~= prev.subrange(
                        m[kk].1,
                        m[kk].1 + m[kk].2,
                    ));
                    assert forall|x2: int| 0 <= x2 < m[kk].3 - m[kk].2 implies #[trigger] out@.subrange(
                        m[kk].1 + m[kk].2,
                        m[kk].1 + m[kk].3,
                    )[x2] == prev.subrange(m[kk].1 + m[kk].2, m[kk].1 + m[kk].3)[x2] by {
                        assert(out@[m[kk].1 + m[kk].2 + x2] == prev[m[kk].1 + m[kk].2 + x2]);
                    }
                    assert(out@.subrange(m[kk].1 + m[kk].2, m[kk].1 + m[kk].3) =~= prev.subrange(
                        m[kk].1 + m[kk].2,
                        m[kk].1 + m[kk].3,
                    ));
                }
            }
            assert(data_region_ok(out@, m, fv, k + 1));
        }
        k = k + 1;
    }
    proof {
        assert(out@.subrange(0, 2048) == crate::layout::header_enc(header));
        lemma_emit_packed_ok(out@, header, ents, fv, geo, model_s, manu_s, mid_s);
    }
    out
}

/// The emitted bytes satisfy the packed-container predicate: transfer
/// every header fact through the encoded prefix, and the data facts
/// through the block list.
#[verifier::rlimit(100)]
#[verifier::spinoff_prover]
proof fn lemma_emit_packed_ok(
    out: Seq<u8>,
    header: crate::layout::UpdateHeader,
    ents: Seq<(Seq<u8>, Seq<u8>)>,
    fv: Seq<(Seq<u8>, Seq<u8>)>,
    geo: Seq<(Seq<u8>, crate::metadata::PartitionMetadata)>,
    model_s: Seq<u8>,
    manu_s: Seq<u8>,
    mid_s: Seq<u8>,
)
    requires
        0 < ents.len() <= 16,
        layout_upto(ents, fv, ents.len() as int).1 <= 0xffffffff,
        header.wf(),
        header.magic@ == rkaf_magic(),
        header.length == layout_upto(ents, fv, ents.len() as int).1 as u32,
        header.model@ == crate::text::fixed_enc(model_s, 34),
        header.id@ == (if mid_s.len() > 0 {
            crate::text::fixed_enc(mid_s, 30)
        } else {
            zeros(30)
        }),
        header.manufacturer@ == crate::text::fixed_enc(manu_s, 56),
        header.unknown1 == 0,
        header.version == 0x01000000,
        header.num_parts == ents.len() as u32,
        forall|j: int| 0 <= j < ents.len() ==> part_target(
            #[trigger] header.parts@[j],
            ents,
            fv,
            geo,
            j,
        ),
        forall|j: int| ents.len() <= j < 16 ==> zero_part(#[trigger] header.parts@[j]),
        out.len() == layout_upto(ents, fv, ents.len() as int).1,
        out.subrange(0, 2048) == crate::layout::header_enc(header),
        data_region_ok(out, layout_upto(ents, fv, ents.len() as int).0, fv, layout_upto(
            ents,
            fv,
            ents.len() as int,
        ).0.len() as int),
    ensures
        rkaf_packed_ok(out, ents, fv, geo, model_s, manu_s, mid_s),
{
    let n = ents.len() as int;
    let enc = crate::layout::header_enc(header);
    let end = layout_upto(ents, fv, n).1;
    crate::layout::lemma_header_enc_matches(header);
    lemma_layout_tiles(ents, fv, n);
    assert(out.len() >= 2048);
    assert forall|j: int| 0 <= j < 2048 implies out[j] == enc[j] by {
        assert(out.subrange(0, 2048)[j] == out[j]);
    }
    assert(out.subrange(0, 4) =~= header.magic@);
    assert(out.subrange(8, 42) =~= header.model@);
    assert(out.subrange(42, 72) =~= header.id@);
    assert(out.subrange(72, 128) =~= header.manufacturer@);
    assert(out.subrange(1932, 2048) =~= enc.subrange(1932, 2048));
    assert(enc.subrange(1932, 2048) =~= zeros(116)) by {
        crate::layout::lemma_parts_enc_len(header.parts@);
        assert forall|j: int| 0 <= j < 116 implies enc.subrange(1932, 2048)[j] == 0u8 by {
            assert(enc[1932 + j] == zeros(116)[j]);
        }
    }
    assert(crate::unpack::dec_u32_at(out, 4) == header.length);
    assert(crate::unpack::dec_u32_at(out, 128) == header.unknown1);
    assert(crate::unpack::dec_u32_at(out, 132) == header.version);
    assert(crate::unpack::dec_u32_at(out, 136) == header.num_parts);
    assert forall|i: int| 0 <= i < 16 implies {
        &&& crate::unpack::part_name_raw(out, i) == header.parts@[i].name@
        &&& crate::unpack::part_path_raw(out, i) == header.parts@[i].full_path@
        &&& crate::unpack::part_flash_size_of(out, i) == header.parts@[i].flash_size
        &&& crate::unpack::part_flash_offset_of(out, i) == header.parts@[i].flash_offset
        &&& crate::unpack::part_padded_size_of(out, i) == header.parts@[i].padded_size
        &&& crate::unpack::part_offset_of(out, i) == header.parts@[i].part_offset
        &&& crate::unpack::part_count_of(out, i) == header.parts@[i].part_byte_count
    } by {
        assert(crate::layout::part_matches(header.parts@[i], enc, i));
        let base = crate::layout::PARTS_OFFSET + crate::layout::UPDATE_PART_SIZE * i;
        assert(base + 112 <= 2048);
        assert(crate::unpack::part_name_raw(out, i) =~= enc.subrange(base, base + 32));
        assert(crate::unpack::part_path_raw(out, i) =~= enc.subrange(base + 32, base + 92));
    }
    assert forall|i: int| 0 <= i < n implies {
        &&& crate::unpack::part_name_raw(out, i) == crate::text::clipped_field(
            (#[trigger] ents[i]).0,
            32,
        )
        &&& crate::unpack::part_path_raw(out, i) == crate::text::clipped_field(ents[i].1, 60)
        &&& crate::unpack::part_flash_size_of(out, i) == crate::metadata::spec_meta_lookup(
            geo,
            ents[i].0,
        ).unwrap().flash_size
        &&& crate::unpack::part_flash_offset_of(out, i) == crate::metadata::spec_meta_lookup(
            geo,
            ents[i].0,
        ).unwrap().flash_offset
        &&& crate::unpack::part_padded_size_of(out, i) == crate::metadata::spec_meta_lookup(
            geo,
            ents[i].0,
        ).unwrap().padded_size
        &&& crate::unpack::part_offset_of(out, i) == entry_place(ents, fv, i).0 as u32
        &&& crate::unpack::part_count_of(out, i) == entry_place(ents, fv, i).1 as u32
    } by {
        assert(part_target(header.parts@[i], ents, fv, geo, i));
    }
    assert forall|i: int| n <= i < 16 implies {
        &&& #[trigger] crate::unpack::part_name_raw(out, i) == zeros(32)
        &&& crate::unpack::part_path_raw(out, i) == zeros(60)
        &&& crate::unpack::part_flash_size_of(out, i) == 0
        &&& crate::unpack::part_flash_offset_of(out, i) == 0
        &&& crate::unpack::part_padded_size_of(out, i) == 0
        &&& crate::unpack::part_offset_of(out, i) == 0
        &&& crate::unpack::part_count_of(out, i) == 0
    } by {
        assert(zero_part(header.parts@[i]));
    }
}

/// A found block is an element of the list.
proof fn lemma_assoc_find_member(m: Seq<(Seq<u8>, int, int, int)>, path: Seq<u8>)
    requires
        assoc_find(m, path) is Some,
    ensures
        exists|k: int| 0 <= k < m.len() && #[trigger] m[k] == assoc_find(m, path).unwrap(),
    decreases m.len(),
{
    if m.len() > 0 {
        if m[0].0 == path {
            assert(m[0] == assoc_find(m, path).unwrap());
        } else {
            lemma_assoc_find_member(m.drop_first(), path);
            let k0 = choose|k: int|
                0 <= k < m.drop_first().len() && #[trigger] m.drop_first()[k] == assoc_find(
                    m.drop_first(),
                    path,
                ).unwrap();
            assert(m[k0 + 1] == assoc_find(m, path).unwrap());
        }
    }
}

/// A found block carries the path it was found under.
proof fn lemma_assoc_find_path(m: Seq<(Seq<u8>, int, int, int)>, path: Seq<u8>)
    requires
        assoc_find(m, path) is Some,
    ensures
        assoc_find(m, path).unwrap().0 == path,
    decreases m.len(),
{
    if m.len() > 0 && m[0].0 != path {
        lemma_assoc_find_path(m.drop_first(), path);
    }
}

/// A find that misses means no element carries the path.
proof fn lemma_assoc_find_none_all(m: Seq<(Seq<u8>, int, int, int)>, path: Seq<u8>)
    requires
        assoc_find(m, path) is None,
    ensures
        forall|k: int| 0 <= k < m.len() ==> (#[trigger] m[k]).0 != path,
    decreases m.len(),
{
    if m.len() > 0 {
        lemma_assoc_find_none_all(m.drop_first(), path);
        assert forall|k: int| 0 <= k < m.len() implies (#[trigger] m[k]).0 != path by {
            if k > 0 {
                assert(m.drop_first()[k - 1].0 != path);
            }
        }
    }
}

/// After its manifest entry is processed, a path has a block.
proof fn lemma_entry_has_block(
    entries: Seq<(Seq<u8>, Seq<u8>)>,
    files: Seq<(Seq<u8>, Seq<u8>)>,
    j: int,
)
    requires
        0 <= j < entries.len(),
    ensures
        assoc_find(layout_upto(entries, files, j + 1).0, entries[j].1) is Some,
{
    let m0 = layout_upto(entries, files, j).0;
    let path = entries[j].1;
    if assoc_find(m0, path) is Some {
    } else {
        let len = content_len(files, path);
        lemma_assoc_find_push_new(m0, (path, layout_upto(entries, files, j).1, len, padded_len(len)), path);
    }
}

/// Once a path has a block, later entries leave it unchanged.
proof fn lemma_block_stable(
    entries: Seq<(Seq<u8>, Seq<u8>)>,
    files: Seq<(Seq<u8>, Seq<u8>)>,
    t1: int,
    t2: int,
    path: Seq<u8>,
)
    requires
        t1 <= t2,
        assoc_find(layout_upto(entries, files, t1).0, path) is Some,
    ensures
        assoc_find(layout_upto(entries, files, t2).0, path) == assoc_find(
            layout_upto(entries, files, t1).0,
            path,
        ),
    decreases t2 - t1,
{
    if t1 < t2 {
        lemma_block_stable(entries, files, t1, t2 - 1, path);
        let m0 = layout_upto(entries, files, t2 - 1).0;
        let p2 = entries[t2 - 1].1;
        if assoc_find(m0, p2) is Some {
        } else {
            let len = content_len(files, p2);
            lemma_assoc_find_push(
                m0,
                (p2, layout_upto(entries, files, t2 - 1).1, len, padded_len(len)),
                path,
            );
        }
    }
}

/// Aliasing: two manifest entries naming the same path are assigned the
/// same container offset and byte count, so the file's bytes stand only
/// once in the container.
pub proof fn lemma_alias_same_place(
    entries: Seq<(Seq<u8>, Seq<u8>)>,
    files: Seq<(Seq<u8>, Seq<u8>)>,
    i: int,
    j: int,
)
    requires
        0 <= i < entries.len(),
        0 <= j < entries.len(),
        entries[i].1 == entries[j].1,
    ensures
        entry_place(entries, files, i) == entry_place(entries, files, j),
{
    let lo = if i <= j {
        i
    } else {
        j
    };
    let hi = if i <= j {
        j
    } else {
        i
    };
    lemma_entry_has_block(entries, files, lo);
    lemma_entry_has_block(entries, files, hi);
    lemma_block_stable(entries, files, lo + 1, hi + 1, entries[i].1);
}

/// Distinct blocks carry distinct paths: no file's bytes are laid out
/// twice.
pub proof fn lemma_blocks_distinct(
    entries: Seq<(Seq<u8>, Seq<u8>)>,
    files: Seq<(Seq<u8>, Seq<u8>)>,
    i: int,
)
    ensures
        forall|k1: int, k2: int|
            #![trigger layout_upto(entries, files, i).0[k1], layout_upto(entries, files, i).0[k2]]
            0 <= k1 < k2 < layout_upto(entries, files, i).0.len() ==> layout_upto(
                entries,
                files,
                i,
            ).0[k1].0 != layout_upto(entries, files, i).0[k2].0,
    decreases i,
{
    if i > 0 {
        lemma_blocks_distinct(entries, files, i - 1);
        let m0 = layout_upto(entries, files, i - 1).0;
        let m = layout_upto(entries, files, i).0;
        let path = entries[i - 1].1;
        if assoc_find(m0, path) is Some {
        } else {
            lemma_assoc_find_none_all(m0, path);
            assert forall|k1: int, k2: int|
                #![trigger m[k1], m[k2]]
                0 <= k1 < k2 < m.len() implies m[k1].0 != m[k2].0 by {
                if k2 < m0.len() {
                    assert(m[k1] == m0[k1] && m[k2] == m0[k2]);
                } else {
                    assert(m[k1] == m0[k1]);
                    assert(m[k2].0 == path);
                    assert(m0[k1].0 != path);
                }
            }
        }
    }
}

/// Alignment: the data region begins at one sector, every partition's
/// container offset is an exact sector multiple, and every padded block
/// size is the smallest sector multiple not below its byte count.
pub proof fn lemma_pack_alignment(
    entries: Seq<(Seq<u8>, Seq<u8>)>,
    files: Seq<(Seq<u8>, Seq<u8>)>,
    j: int,
)
    requires
        0 <= j < entries.len(),
    ensures
        entry_place(entries, files, j).0 % 2048 == 0,
        entry_place(entries, files, j).0 >= 2048,
    decreases j,
{
    lemma_entry_has_block(entries, files, j);
    let m1 = layout_upto(entries, files, j + 1).0;
    let path = entries[j].1;
    lemma_assoc_find_member(m1, path);
    lemma_layout_aligned(entries, files, j + 1);
    lemma_layout_tiles(entries, files, j + 1);
    let k0 = choose|k: int|
        0 <= k < m1.len() && #[trigger] m1[k] == assoc_find(m1, path).unwrap();
    assert(m1[k0].1 % 2048 == 0);
    if k0 > 0 {
        assert(m1[0].1 + m1[0].3 <= m1[k0].1);
        assert(0 <= m1[0].2 <= m1[0].3);
    }
}

/// Padding: every laid-out block's padded size is the smallest sector
/// multiple holding its content.
pub proof fn lemma_pack_padding(
    entries: Seq<(Seq<u8>, Seq<u8>)>,
    files: Seq<(Seq<u8>, Seq<u8>)>,
    i: int,
)
    ensures
        forall|k: int| 0 <= k < layout_upto(entries, files, i).0.len() ==> {
            let b = #[trigger] layout_upto(entries, files, i).0[k];
            b.3 % 2048 == 0 && b.2 <= b.3 < b.2 + 2048 && b.1 % 2048 == 0
        },
{
    lemma_layout_tiles(entries, files, i);
    lemma_layout_aligned(entries, files, i);
    let m = layout_upto(entries, files, i).0;
    assert forall|k: int| 0 <= k < m.len() implies {
        let b = #[trigger] m[k];
        b.3 % 2048 == 0 && b.2 <= b.3 < b.2 + 2048 && b.1 % 2048 == 0
    } by {
        assert(0 <= m[k].2 <= m[k].3 && m[k].3 == padded_len(m[k].2));
        lemma_padded_len(m[k].2);
        assert(m[k].1 % 2048 == 0);
    }
}

/// Whether a manifest's names and paths survive the fixed-width buffers
/// unchanged: each fits its buffer with room for the terminator, holds
/// no zero byte, and no path is one of the two skip markers.
pub open spec fn manifest_clean(entries: Seq<(Seq<u8>, Seq<u8>)>) -> bool {
    forall|i: int| 0 <= i < entries.len() ==> {
        let (name, path) = #[trigger] entries[i];
        &&& name.len() <= 31
        &&& (forall|j: int| 0 <= j < name.len() ==> name[j] != 0)
        &&& path.len() <= 59
        &&& (forall|j: int| 0 <= j < path.len() ==> path[j] != 0)
        &&& path != crate::unpack::self_marker()
        &&& path != crate::unpack::reserved_marker()
    }
}

/// Round trip of packing and unpacking: a packed container passes the
/// unpacker's header checks, keeps exactly its manifest entries, and
/// gives each entry back its name, its path, its assigned placement, and
/// the packed file's exact bytes at that placement.
#[verifier::rlimit(100)]
#[verifier::spinoff_prover]
pub proof fn lemma_pack_unpack(
    out: Seq<u8>,
    entries: Seq<(Seq<u8>, Seq<u8>)>,
    files: Seq<(Seq<u8>, Seq<u8>)>,
    meta: Seq<(Seq<u8>, crate::metadata::PartitionMetadata)>,
    model: Seq<u8>,
    manu: Seq<u8>,
    mid: Seq<u8>,
)
    requires
        rkaf_packed_ok(out, entries, files, meta, model, manu, mid),
        0 < entries.len() <= 16,
        layout_upto(entries, files, entries.len() as int).1 <= 0xffffffff,
        manifest_clean(entries),
        forall|i: int| 0 <= i < entries.len() ==> lookup_content(
            files,
            (#[trigger] entries[i]).1,
        ) is Some,
    ensures
        crate::unpack::rkaf_header_ok(out),
        crate::unpack::rkaf_entries_fit(out),
        crate::unpack::dec_u32_at(out, 136) == entries.len(),
        forall|i: int| 0 <= i < entries.len() ==> {
            &&& #[trigger] crate::unpack::entry_kept(out, i)
            &&& crate::text::fixed_str(crate::unpack::part_path_raw(out, i)) == Some(
                entries[i].1,
            )
            &&& crate::unpack::dec_or_empty(crate::unpack::part_name_raw(out, i)) == entries[i].0
            &&& crate::unpack::part_offset_of(out, i) == entry_place(entries, files, i).0
            &&& crate::unpack::part_count_of(out, i) == entry_place(entries, files, i).1
            &&& out.subrange(
                entry_place(entries, files, i).0,
                entry_place(entries, files, i).0 + entry_place(entries, files, i).1,
            ) == lookup_content(files, entries[i].1).unwrap()
        },
{
    let n = entries.len() as int;
    let m = layout_upto(entries, files, n).0;
    let end = layout_upto(entries, files, n).1;
    lemma_layout_tiles(entries, files, n);
    lemma_layout_content(entries, files, n);
    assert(out.len() >= 2048);
    assert(crate::unpack::dec_u32_at(out, 136) == n as u32);
    assert(crate::unpack::rkaf_header_ok(out));
    assert forall|i: int| 0 <= i < n implies {
        &&& #[trigger] crate::unpack::entry_kept(out, i)
        &&& crate::text::fixed_str(crate::unpack::part_path_raw(out, i)) == Some(entries[i].1)
        &&& crate::unpack::dec_or_empty(crate::unpack::part_name_raw(out, i)) == entries[i].0
        &&& crate::unpack::part_offset_of(out, i) == entry_place(entries, files, i).0
        &&& crate::unpack::part_count_of(out, i) == entry_place(entries, files, i).1
        &&& out.subrange(
            entry_place(entries, files, i).0,
            entry_place(entries, files, i).0 + entry_place(entries, files, i).1,
        ) == lookup_content(files, entries[i].1).unwrap()
    } by {
        let (name, path) = entries[i];
        crate::text::lemma_clipped_field_roundtrip(path, 60);
        crate::text::lemma_clipped_field_roundtrip(name, 32);
        assert(crate::unpack::part_path_raw(out, i) == crate::text::clipped_field(path, 60));
        assert(crate::unpack::part_name_raw(out, i) == crate::text::clipped_field(name, 32));
        // The entry's placement is a block of the final layout.
        lemma_entry_has_block(entries, files, i);
        lemma_block_stable(entries, files, i + 1, n, path);
        lemma_assoc_find_member(m, path);
        let k = choose|k: int| 0 <= k < m.len() && #[trigger] m[k] == assoc_find(m, path).unwrap();
        assert(m[k] == assoc_find(layout_upto(entries, files, i + 1).0, path).unwrap());
        lemma_assoc_find_path(m, path);
        assert(entry_place(entries, files, i).0 == m[k].1);
        assert(entry_place(entries, files, i).1 == m[k].2);
        assert(m[k].0 == path);
        assert(m[k].2 == content_len(files, m[k].0));
        assert(0 <= m[k].2 <= m[k].3 && m[k].1 + m[k].3 <= end);
        assert(out.subrange(m[k].1, m[k].1 + m[k].2) == lookup_content(files, path).unwrap());
        assert(entry_place(entries, files, i).0 as u32 == entry_place(entries, files, i).0);
        assert(entry_place(entries, files, i).1 as u32 == entry_place(entries, files, i).1);
    }
    assert forall|i: int|
        0 <= i < crate::unpack::dec_u32_at(out, 136) && #[trigger] crate::unpack::entry_kept(
        out,
        i,
    ) implies crate::unpack::part_offset_of(out, i) + crate::unpack::part_count_of(out, i)
        <= out.len() by {
        let path = entries[i].1;
        lemma_entry_has_block(entries, files, i);
        lemma_block_stable(entries, files, i + 1, n, path);
        lemma_assoc_find_member(m, path);
        let k = choose|k: int| 0 <= k < m.len() && #[trigger] m[k] == assoc_find(m, path).unwrap();
        assert(entry_place(entries, files, i).0 == m[k].1);
        assert(entry_place(entries, files, i).1 == m[k].2);
        assert(0 <= m[k].2 <= m[k].3 && m[k].1 + m[k].3 <= end);
    }
    assert(crate::unpack::rkaf_entries_fit(out));
}

/// The geometry records a packed container exports, in manifest order:
/// each entry's name and path with its metadata geometry and its layout
/// placement.
pub open spec fn exported_items(
    entries: Seq<(Seq<u8>, Seq<u8>)>,
    files: Seq<(Seq<u8>, Seq<u8>)>,
    meta: Seq<(Seq<u8>, crate::metadata::PartitionMetadata)>,
) -> Seq<(Seq<u8>, Seq<u8>, u32, u32, u32, u32, u32)> {
    Seq::new(
        entries.len(),
        |i: int|
            (
                entries[i].0,
                entries[i].1,
                crate::metadata::spec_meta_lookup(meta, entries[i].0).unwrap().flash_size,
                crate::metadata::spec_meta_lookup(meta, entries[i].0).unwrap().flash_offset,
                entry_place(entries, files, i).0 as u32,
                crate::metadata::spec_meta_lookup(meta, entries[i].0).unwrap().padded_size,
                entry_place(entries, files, i).1 as u32,
            ),
    )
}

/// The metadata text that unpacking a packed container writes out is
/// exactly the rendering of its manifest's geometry records: together
/// with the manifest text round trip, re-packing reads back the same
/// geometry the container was packed with.
#[verifier::rlimit(100)]
#[verifier::spinoff_prover]
pub proof fn lemma_export_text(
    out: Seq<u8>,
    entries: Seq<(Seq<u8>, Seq<u8>)>,
    files: Seq<(Seq<u8>, Seq<u8>)>,
    meta: Seq<(Seq<u8>, crate::metadata::PartitionMetadata)>,
    model: Seq<u8>,
    manu: Seq<u8>,
    mid: Seq<u8>,
    i: int,
)
    requires
        rkaf_packed_ok(out, entries, files, meta, model, manu, mid),
        0 < entries.len() <= 16,
        layout_upto(entries, files, entries.len() as int).1 <= 0xffffffff,
        manifest_clean(entries),
        forall|k: int| 0 <= k < entries.len() ==> lookup_content(
            files,
            (#[trigger] entries[k]).1,
        ) is Some,
        0 <= i <= entries.len(),
    ensures
        crate::unpack::meta_text_upto(out, i) == crate::metadata::lines_out(
            exported_items(entries, files, meta).take(i),
        ),
    decreases i,
{
    lemma_pack_unpack(out, entries, files, meta, model, manu, mid);
    if i > 0 {
        lemma_export_text(out, entries, files, meta, model, manu, mid, i - 1);
        let items = exported_items(entries, files, meta);
        assert(crate::unpack::entry_kept(out, i - 1));
        assert(crate::unpack::dec_or_empty(crate::unpack::part_name_raw(out, i - 1)) == entries[i
            - 1].0);
        assert(crate::text::fixed_str(crate::unpack::part_path_raw(out, i - 1)) == Some(
            entries[i - 1].1,
        ));
        lemma_lines_out_snoc(items.take(i - 1), items[i - 1]);
        assert(items.take(i - 1).push(items[i - 1]) =~= items.take(i));
        assert(crate::unpack::part_flash_size_of(out, i - 1) == items[i - 1].2);
        assert(crate::unpack::part_flash_offset_of(out, i - 1) == items[i - 1].3);
        assert(crate::unpack::part_offset_of(out, i - 1) == items[i - 1].4);
        assert(crate::unpack::part_padded_size_of(out, i - 1) == items[i - 1].5);
        assert(crate::unpack::part_count_of(out, i - 1) == items[i - 1].6);
    } else {
        assert(exported_items(entries, files, meta).take(0) =~= Seq::<
            (Seq<u8>, Seq<u8>, u32, u32, u32, u32, u32),
        >::empty());
    }
}

/// Rendering one more record appends its line.
proof fn lemma_lines_out_snoc(
    items: Seq<(Seq<u8>, Seq<u8>, u32, u32, u32, u32, u32)>,
    it: (Seq<u8>, Seq<u8>, u32, u32, u32, u32, u32),
)
    ensures
        crate::metadata::lines_out(items.push(it)) == crate::metadata::lines_out(items)
            + crate::metadata::spec_meta_line_out(it.0, it.1, it.2, it.3, it.4, it.5, it.6),
    decreases items.len(),
{
    if items.len() == 0 {
        assert(items.push(it)[0] == it);
        assert(items.push(it).drop_first() =~= Seq::<
            (Seq<u8>, Seq<u8>, u32, u32, u32, u32, u32),
        >::empty());
        assert(crate::metadata::lines_out(
            Seq::<(Seq<u8>, Seq<u8>, u32, u32, u32, u32, u32)>::empty(),
        ) == Seq::<u8>::empty());
        assert(crate::metadata::lines_out(items.push(it))
            == crate::metadata::spec_meta_line_out(it.0, it.1, it.2, it.3, it.4, it.5, it.6)
            + Seq::<u8>::empty());
        assert(crate::metadata::lines_out(items.push(it)) =~= crate::metadata::lines_out(items)
            + crate::metadata::spec_meta_line_out(it.0, it.1, it.2, it.3, it.4, it.5, it.6));
    } else {
        assert(items.push(it)[0] == items[0]);
        assert(items.push(it).drop_first() =~= items.drop_first().push(it));
        lemma_lines_out_snoc(items.drop_first(), it);
        assert(crate::metadata::lines_out(items.push(it)) =~= crate::metadata::lines_out(items)
            + crate::metadata::spec_meta_line_out(it.0, it.1, it.2, it.3, it.4, it.5, it.6));
    }
}

/// Whether a manifest survives both the fixed-width buffers and the
/// metadata line format: clean buffers, no field separator or line
/// break in a name or path, no leading whitespace on a name, and
/// pairwise distinct names.
pub open spec fn export_clean(entries: Seq<(Seq<u8>, Seq<u8>)>) -> bool {
    &&& manifest_clean(entries)
    &&& forall|i: int| 0 <= i < entries.len() ==> {
        let (name, path) = #[trigger] entries[i];
        &&& (forall|j: int| 0 <= j < name.len() ==> name[j] != 44 && name[j] != 10)
        &&& (forall|j: int| 0 <= j < path.len() ==> path[j] != 44 && path[j] != 10)
        &&& (name.len() > 0 ==> !crate::text::is_space(name[0]))
    }
    &&& forall|i1: int, i2: int|
        #![trigger entries[i1], entries[i2]]
        0 <= i1 < i2 < entries.len() ==> entries[i1].0 != entries[i2].0
}

/// Geometry round trip of the whole cycle: the metadata text written
/// while unpacking a packed container parses, and looking any manifest
/// name up in it returns exactly the geometry the container was packed
/// with. A later pack fed the exported text therefore assigns every
/// entry the same flash size, flash offset and padded size again.
#[verifier::rlimit(100)]
#[verifier::spinoff_prover]
pub proof fn lemma_repack_geometry(
    out: Seq<u8>,
    entries: Seq<(Seq<u8>, Seq<u8>)>,
    files: Seq<(Seq<u8>, Seq<u8>)>,
    meta: Seq<(Seq<u8>, crate::metadata::PartitionMetadata)>,
    model: Seq<u8>,
    manu: Seq<u8>,
    mid: Seq<u8>,
    i: int,
)
    requires
        rkaf_packed_ok(out, entries, files, meta, model, manu, mid),
        0 < entries.len() <= 16,
        layout_upto(entries, files, entries.len() as int).1 <= 0xffffffff,
        export_clean(entries),
        forall|k: int| 0 <= k < entries.len() ==> lookup_content(
            files,
            (#[trigger] entries[k]).1,
        ) is Some && crate::metadata::spec_meta_lookup(meta, entries[k].0) is Some,
        0 <= i < entries.len(),
    ensures
        ({
            let text = crate::unpack::meta_text_upto(out, entries.len() as int);
            let parsed = crate::metadata::spec_parse_metadata(text);
            &&& parsed is Some
            &&& crate::metadata::spec_meta_lookup(parsed.unwrap(), entries[i].0)
                == crate::metadata::spec_meta_lookup(meta, entries[i].0)
        }),
{
    let n = entries.len() as int;
    let items = exported_items(entries, files, meta);
    lemma_export_text(out, entries, files, meta, model, manu, mid, n);
    assert(items.take(n) =~= items);
    assert forall|k: int| 0 <= k < items.len() implies crate::metadata::clean_item(
        #[trigger] items[k],
    ) by {
        assert(entries[k] == entries[k]);
    }
    crate::metadata::lemma_meta_text_roundtrip(items);
    let parsed = crate::metadata::spec_parse_metadata(
        crate::unpack::meta_text_upto(out, n),
    ).unwrap();
    assert(parsed.len() == n);
    assert forall|k: int| 0 <= k < n implies #[trigger] parsed[k] == (
        entries[k].0,
        crate::metadata::spec_meta_lookup(meta, entries[k].0).unwrap(),
    ) by {
        assert(items[k].0 == entries[k].0);
        assert(crate::metadata::spec_meta_lookup(meta, entries[k].0) is Some);
    }
    assert forall|j1: int, j2: int|
        #![trigger parsed[j1], parsed[j2]]
        0 <= j1 < j2 < parsed.len() implies parsed[j1].0 != parsed[j2].0 by {
        assert(entries[j1].0 != entries[j2].0);
    }
    crate::metadata::lemma_meta_lookup_distinct(parsed, i);
    assert(crate::metadata::spec_meta_lookup(meta, entries[i].0) is Some);
}

/// Parse a dotted `major.minor.build` version.
fn parse_version(version: &Vec<u8>) -> (r: Option<(u8, u8, u16)>)
    ensures
        r == spec_version(version@),
{
    let fields = crate::text::split_all(version, 46);
    if fields.len() != 3 {
        proof {
            assert(fields.deep_view().len() == split_on(version@, 46).len());
        }
        return None;
    }
    proof {
        assert(fields.deep_view()[0] == fields@[0]@);
        assert(fields.deep_view()[1] == fields@[1]@);
        assert(fields.deep_view()[2] == fields@[2]@);
    }
    let a = crate::text::parse_dec(&fields[0], 255);
    let b = crate::text::parse_dec(&fields[1], 255);
    let c = crate::text::parse_dec(&fields[2], 65535);
    match (a, b, c) {
        (Some(x), Some(y), Some(z)) => Some((x as u8, y as u8, z as u16)),
        _ => None,
    }
}

} // verus!
