use vstd::prelude::*;

use crate::bytes::le32_val;
use crate::errors::Error;
use crate::layout::{MAX_FULL_PATH_LEN, MAX_NAME_LEN, MAX_PARTS, PARTS_OFFSET, UPDATE_HEADER_SIZE,
    UPDATE_PART_SIZE, UpdateHeader};
use crate::metadata::spec_meta_line_out;
use crate::text::fixed_str;

verus! {

/// The signature of a partition-table container.
pub open spec fn rkaf_magic() -> Seq<u8> {
    seq![82u8, 75u8, 65u8, 70u8]  // RKAF
}

/// The signature of an outer container.
pub open spec fn rkfw_magic() -> Seq<u8> {
    seq![82u8, 75u8, 70u8, 87u8]  // RKFW
}

/// The two container kinds a leading signature can select.
#[derive(Clone, Copy, Debug, PartialEq, Eq, Structural)]
pub enum ContainerKind {
    /// A partition-table container.
    Rkaf,
    /// An outer container embedding a boot blob and a partition table.
    Rkfw,
}

/// Classify a container by its first four bytes; anything else, a
/// shorter input included, is an unrecognized format.
pub fn classify_container(buf: &Vec<u8>) -> (r: Result<ContainerKind, Error>)
    ensures
        match r {
            Ok(k) => buf@.len() >= 4 && (k == ContainerKind::Rkaf ==> buf@.subrange(0, 4)
                == rkaf_magic()) && (k == ContainerKind::Rkfw ==> buf@.subrange(0, 4)
                == rkfw_magic()),
            Err(e) => e == Error::UnrecognizedFormat && (buf@.len() < 4 || (buf@.subrange(0, 4)
                != rkaf_magic() && buf@.subrange(0, 4) != rkfw_magic())),
        },
{
    if buf.len() < 4 {
        return Err(Error::UnrecognizedFormat);
    }
    if buf[0] == 82 && buf[1] == 75 && buf[2] == 65 && buf[3] == 70 {
        proof {
            assert(buf@.subrange(0, 4) =~= rkaf_magic());
        }
        Ok(ContainerKind::Rkaf)
    } else if buf[0] == 82 && buf[1] == 75 && buf[2] == 70 && buf[3] == 87 {
        proof {
            assert(buf@.subrange(0, 4) =~= rkfw_magic());
        }
        Ok(ContainerKind::Rkfw)
    } else {
        proof {
            if buf@.subrange(0, 4) == rkaf_magic() {
                assert(buf@[0] == rkaf_magic()[0] && buf@[1] == rkaf_magic()[1] && buf@[2]
                    == rkaf_magic()[2] && buf@[3] == rkaf_magic()[3]);
            }
            if buf@.subrange(0, 4) == rkfw_magic() {
                assert(buf@[0] == rkfw_magic()[0] && buf@[1] == rkfw_magic()[1] && buf@[2]
                    == rkfw_magic()[2] && buf@[3] == rkfw_magic()[3]);
            }
        }
        Err(Error::UnrecognizedFormat)
    }
}

/// Copy one declared region out of a container: exactly `count` bytes
/// starting at `offset`. A region reaching past the end of the input is
/// the truncation error.
pub fn extract_part(buf: &Vec<u8>, offset: u32, count: u32) -> (r: Result<Vec<u8>, Error>)
    ensures
        match r {
            Ok(d) => offset + count <= buf@.len() && d@ == buf@.subrange(
                offset as int,
                offset + count,
            ),
            Err(e) => e == Error::TruncatedContainer && offset + count > buf@.len(),
        },
{
    let n: usize = buf.len();
    if (offset as u64) + (count as u64) > (n as u64) {
        return Err(Error::TruncatedContainer);
    }
    Ok(crate::bytes::read_bytes(buf.as_slice(), offset as usize, count as usize))
}

/// The 32-bit little-endian field of `b` at offset `at`.
pub open spec fn dec_u32_at(b: Seq<u8>, at: int) -> u32 {
    le32_val(b[at], b[at + 1], b[at + 2], b[at + 3])
}

/// The start of entry `i` inside an encoded partition table.
pub open spec fn part_base(i: int) -> int {
    PARTS_OFFSET + UPDATE_PART_SIZE * i
}

/// The raw fixed-width name buffer of entry `i`.
pub open spec fn part_name_raw(b: Seq<u8>, i: int) -> Seq<u8> {
    b.subrange(part_base(i), part_base(i) + MAX_NAME_LEN)
}

/// The raw fixed-width path buffer of entry `i`.
pub open spec fn part_path_raw(b: Seq<u8>, i: int) -> Seq<u8> {
    b.subrange(part_base(i) + 32, part_base(i) + 32 + MAX_FULL_PATH_LEN)
}

/// The container-local byte offset of entry `i`.
pub open spec fn part_offset_of(b: Seq<u8>, i: int) -> u32 {
    dec_u32_at(b, part_base(i) + 96)
}

/// The exact byte length of entry `i`.
pub open spec fn part_count_of(b: Seq<u8>, i: int) -> u32 {
    dec_u32_at(b, part_base(i) + 108)
}

/// The flash region size of entry `i`.
pub open spec fn part_flash_size_of(b: Seq<u8>, i: int) -> u32 {
    dec_u32_at(b, part_base(i) + 92)
}

/// The flash offset of entry `i`.
pub open spec fn part_flash_offset_of(b: Seq<u8>, i: int) -> u32 {
    dec_u32_at(b, part_base(i) + 100)
}

/// The padded size of entry `i`.
pub open spec fn part_padded_size_of(b: Seq<u8>, i: int) -> u32 {
    dec_u32_at(b, part_base(i) + 104)
}

/// The text of a fixed-width buffer, or nothing when it carries no
/// terminator.
pub open spec fn dec_or_empty(raw: Seq<u8>) -> Seq<u8> {
    match fixed_str(raw) {
        Some(s) => s,
        None => Seq::empty(),
    }
}

/// The placeholder text reported for an undecodable buffer.
pub open spec fn unknown_text() -> Seq<u8> {
    seq![117u8, 110u8, 107u8, 110u8, 111u8, 119u8, 110u8]  // unknown
}

/// The text of a fixed-width buffer, or the placeholder when it carries
/// no terminator.
pub open spec fn dec_or_unknown(raw: Seq<u8>) -> Seq<u8> {
    match fixed_str(raw) {
        Some(s) => s,
        None => unknown_text(),
    }
}

/// The path marker of an entry describing the container itself.
pub open spec fn self_marker() -> Seq<u8> {
    seq![83u8, 69u8, 76u8, 70u8]  // SELF
}

/// The path marker of a reserved entry.
pub open spec fn reserved_marker() -> Seq<u8> {
    seq![82u8, 69u8, 83u8, 69u8, 82u8, 86u8, 69u8, 68u8]  // RESERVED
}

/// Whether entry `i` is extracted and recorded: its path buffer decodes,
/// and the path is neither of the two skip markers.
pub open spec fn entry_kept(b: Seq<u8>, i: int) -> bool {
    match fixed_str(part_path_raw(b, i)) {
        Some(p) => p != self_marker() && p != reserved_marker(),
        None => false,
    }
}

/// The kept entries among the first `i`: decoded name, decoded path,
/// container offset, exact byte length.
pub open spec fn kept_upto(b: Seq<u8>, i: int) -> Seq<(Seq<u8>, Seq<u8>, u32, u32)>
    decreases i,
{
    if i <= 0 {
        Seq::empty()
    } else if entry_kept(b, i - 1) {
        kept_upto(b, i - 1) + seq![
            (
                dec_or_empty(part_name_raw(b, i - 1)),
                fixed_str(part_path_raw(b, i - 1)).unwrap(),
                part_offset_of(b, i - 1),
                part_count_of(b, i - 1),
            ),
        ]
    } else {
        kept_upto(b, i - 1)
    }
}

/// The exported metadata text of the first `i` entries: one line per
/// kept entry, in table order.
pub open spec fn meta_text_upto(b: Seq<u8>, i: int) -> Seq<u8>
    decreases i,
{
    if i <= 0 {
        Seq::empty()
    } else if entry_kept(b, i - 1) {
        meta_text_upto(b, i - 1) + spec_meta_line_out(
            dec_or_empty(part_name_raw(b, i - 1)),
            fixed_str(part_path_raw(b, i - 1)).unwrap(),
            part_flash_size_of(b, i - 1),
            part_flash_offset_of(b, i - 1),
            part_offset_of(b, i - 1),
            part_padded_size_of(b, i - 1),
            part_count_of(b, i - 1),
        )
    } else {
        meta_text_upto(b, i - 1)
    }
}

/// The skip rule: an entry whose path buffer decodes to one of the two
/// markers contributes neither an extraction entry nor a metadata line,
/// while a kept entry contributes exactly one of each.
pub proof fn lemma_skip_rule(b: Seq<u8>, i: int)
    requires
        i >= 0,
    ensures
        !entry_kept(b, i) ==> kept_upto(b, i + 1) == kept_upto(b, i) && meta_text_upto(b, i + 1)
            == meta_text_upto(b, i),
        entry_kept(b, i) ==> kept_upto(b, i + 1).len() == kept_upto(b, i).len() + 1
            && meta_text_upto(b, i + 1) == meta_text_upto(b, i) + spec_meta_line_out(
            dec_or_empty(part_name_raw(b, i)),
            fixed_str(part_path_raw(b, i)).unwrap(),
            part_flash_size_of(b, i),
            part_flash_offset_of(b, i),
            part_offset_of(b, i),
            part_padded_size_of(b, i),
            part_count_of(b, i),
        ),
{
}

/// One partition to extract: its decoded name and path, and where its
/// bytes stand in the container.
pub struct RkafEntryOut {
    pub name: Vec<u8>,
    pub full_path: Vec<u8>,
    pub part_offset: u32,
    pub part_byte_count: u32,
}

/// What unpacking a partition-table container yields: the two decoded
/// strings, whether the declared payload length matches the file, the
/// exported metadata text, and the extraction list.
pub struct RkafUnpacked {
    pub model: Vec<u8>,
    pub manufacturer: Vec<u8>,
    pub length_ok: bool,
    pub metadata_text: Vec<u8>,
    pub entries: Vec<RkafEntryOut>,
}

/// Whether the exec extraction list carries exactly the spec entries.
pub open spec fn kept_entries_match(
    v: Seq<RkafEntryOut>,
    s: Seq<(Seq<u8>, Seq<u8>, u32, u32)>,
) -> bool {
    &&& v.len() == s.len()
    &&& forall|i: int| 0 <= i < v.len() ==> (#[trigger] v[i]).name@ == s[i].0 && v[i].full_path@
        == s[i].1 && v[i].part_offset == s[i].2 && v[i].part_byte_count == s[i].3
}

/// Structural validity of a partition-table container's header: long
/// enough, the right magic, and a partition count within the table.
pub open spec fn rkaf_header_ok(b: Seq<u8>) -> bool {
    &&& b.len() >= UPDATE_HEADER_SIZE
    &&& b.subrange(0, 4) == rkaf_magic()
    &&& dec_u32_at(b, 136) <= MAX_PARTS
}

/// Whether every kept entry's declared region lies inside the container.
pub open spec fn rkaf_entries_fit(b: Seq<u8>) -> bool {
    forall|i: int| 0 <= i < dec_u32_at(b, 136) && #[trigger] entry_kept(b, i) ==> part_offset_of(
        b,
        i,
    ) + part_count_of(b, i) <= b.len()
}

/// Unpack a partition-table container held in `buf`: validate the
/// header, decode the strings, and list every extractable partition
/// with its metadata line. A mismatched total length is reported, not
/// fatal; a kept entry reaching past the file is.
pub fn unpack_rkafp(buf: &Vec<u8>) -> (r: Result<RkafUnpacked, Error>)
    ensures
        match r {
            Ok(u) => {
                &&& rkaf_header_ok(buf@)
                &&& rkaf_entries_fit(buf@)
                &&& u.length_ok == (buf@.len() - 4 == dec_u32_at(buf@, 4))
                &&& u.model@ == dec_or_unknown(buf@.subrange(8, 42))
                &&& u.manufacturer@ == dec_or_unknown(buf@.subrange(72, 128))
                &&& u.metadata_text@ == meta_text_upto(buf@, dec_u32_at(buf@, 136) as int)
                &&& kept_entries_match(
                    u.entries@,
                    kept_upto(buf@, dec_u32_at(buf@, 136) as int),
                )
            },
            Err(e) => match e {
                Error::InvalidHeader => !rkaf_header_ok(buf@),
                Error::TruncatedContainer => rkaf_header_ok(buf@) && !rkaf_entries_fit(buf@),
                _ => false,
            },
        },
{
    let h = match UpdateHeader::from_bytes(buf.as_slice()) {
        Ok(h) => h,
        Err(_) => {
            return Err(Error::InvalidHeader);
        },
    };
    if !(h.magic[0] == 82 && h.magic[1] == 75 && h.magic[2] == 65 && h.magic[3] == 70) {
        proof {
            assert(h.magic@ =~= buf@.subrange(0, 4));
            if buf@.subrange(0, 4) == rkaf_magic() {
                assert(h.magic@[0] == rkaf_magic()[0] && h.magic@[1] == rkaf_magic()[1]
                    && h.magic@[2] == rkaf_magic()[2] && h.magic@[3] == rkaf_magic()[3]);
            }
        }
        return Err(Error::InvalidHeader);
    }
    proof {
        assert(buf@.subrange(0, 4) =~= rkaf_magic());
    }
    if h.num_parts > 16 {
        return Err(Error::InvalidHeader);
    }
    let np: usize = h.num_parts as usize;
    let length_ok: bool = {
        let n64: u64 = buf.len() as u64;
        n64 >= 4 && n64 - 4 == (h.length as u64)
    };
    proof {
        assert(buf@.len() >= UPDATE_HEADER_SIZE);
        assert(length_ok == (buf@.len() - 4 == dec_u32_at(buf@, 4)));
    }
    let model = decode_or_unknown(&h.model);
    let manufacturer = decode_or_unknown(&h.manufacturer);
    proof {
        assert(h.model@ =~= buf@.subrange(8, 42));
        assert(h.manufacturer@ =~= buf@.subrange(72, 128));
    }
    let mut metadata_text: Vec<u8> = Vec::new();
    let mut entries: Vec<RkafEntryOut> = Vec::new();
    let mut i: usize = 0;
    while i < np
        invariant
            i <= np <= MAX_PARTS,
            np == dec_u32_at(buf@, 136),
            rkaf_header_ok(buf@),
            buf@.len() >= UPDATE_HEADER_SIZE,
            h.wf(),
            crate::layout::header_matches(h, buf@),
            metadata_text@ == meta_text_upto(buf@, i as int),
            kept_entries_match(entries@, kept_upto(buf@, i as int)),
            forall|j: int| 0 <= j < i && #[trigger] entry_kept(buf@, j) ==> part_offset_of(buf@, j)
                + part_count_of(buf@, j) <= buf@.len(),
        decreases np - i,
    {
        let p = &h.parts[i];
        proof {
            assert(crate::layout::part_matches(h.parts@[i as int], buf@, i as int));
            assert(p.name@ == part_name_raw(buf@, i as int));
            assert(p.full_path@ == part_path_raw(buf@, i as int));
        }
        match crate::text::decode_fixed_string(&p.full_path) {
            Some(path) => {
                let is_self = crate::chip::eq_lit(&path, &[83u8, 69u8, 76u8, 70u8]);
                let is_reserved = crate::chip::eq_lit(
                    &path,
                    &[82u8, 69u8, 83u8, 69u8, 82u8, 86u8, 69u8, 68u8],
                );
                proof {
                    assert(self_marker() =~= seq![83u8, 69u8, 76u8, 70u8]);
                    assert(reserved_marker() =~= seq![
                        82u8,
                        69u8,
                        83u8,
                        69u8,
                        82u8,
                        86u8,
                        69u8,
                        68u8,
                    ]);
                }
                if is_self || is_reserved {
                    proof {
                        assert(!entry_kept(buf@, i as int));
                    }
                } else {
                    proof {
                        assert(entry_kept(buf@, i as int));
                    }
                    let name = match crate::text::decode_fixed_string(&p.name) {
                        Some(n) => n,
                        None => Vec::new(),
                    };
                    proof {
                        assert(name@ == dec_or_empty(part_name_raw(buf@, i as int)));
                    }
                    if (p.part_offset as u64) + (p.part_byte_count as u64) > (buf.len() as u64) {
                        proof {
                            assert(part_offset_of(buf@, i as int) + part_count_of(buf@, i as int)
                                > buf@.len());
                            assert(!rkaf_entries_fit(buf@));
                        }
                        return Err(Error::TruncatedContainer);
                    }
                    let line = crate::metadata::format_meta_line(
                        &name,
                        &path,
                        p.flash_size,
                        p.flash_offset,
                        p.part_offset,
                        p.padded_size,
                        p.part_byte_count,
                    );
                    crate::bytes::push_bytes(&mut metadata_text, &line);
                    let ghost prev = entries@;
                    entries.push(
                        RkafEntryOut {
                            name,
                            full_path: path,
                            part_offset: p.part_offset,
                            part_byte_count: p.part_byte_count,
                        },
                    );
                    proof {
                        assert(kept_upto(buf@, i + 1) =~= kept_upto(buf@, i as int) + seq![
                            (
                                dec_or_empty(part_name_raw(buf@, i as int)),
                                fixed_str(part_path_raw(buf@, i as int)).unwrap(),
                                part_offset_of(buf@, i as int),
                                part_count_of(buf@, i as int),
                            ),
                        ]);
                        assert(kept_entries_match(entries@, kept_upto(buf@, i + 1)));
                    }
                }
            },
            None => {
                proof {
                    assert(!entry_kept(buf@, i as int));
                }
            },
        }
        i = i + 1;
    }
    proof {
        assert(rkaf_entries_fit(buf@));
    }
    Ok(RkafUnpacked { model, manufacturer, length_ok, metadata_text, entries })
}

/// The 16-bit little-endian field of `b` at offset `at`.
pub open spec fn dec_u16_at(b: Seq<u8>, at: int) -> u16 {
    (b[at] as u16 | ((b[at + 1] as u16) << 8)) as u16
}

/// Byte width of the outer container's fixed header.
pub const RKFW_HEADER_SIZE: usize = 0x66;

/// Whether the input is long enough to hold the outer header.
pub open spec fn rkfw_len_ok(b: Seq<u8>) -> bool {
    b.len() >= RKFW_HEADER_SIZE
}

/// Whether the packed date-time fields name a real calendar date.
pub open spec fn rkfw_date_ok(b: Seq<u8>) -> bool {
    crate::time::valid_civil(
        dec_u16_at(b, 0x0e),
        b[0x10],
        b[0x11],
        b[0x12],
        b[0x13],
        b[0x14],
    )
}

/// Whether the declared boot blob region lies inside the input.
pub open spec fn rkfw_boot_fit(b: Seq<u8>) -> bool {
    dec_u32_at(b, 0x19) + dec_u32_at(b, 0x1d) <= b.len()
}

/// Whether the first four bytes of the embedded payload lie inside the
/// input.
pub open spec fn rkfw_embedded_head_fit(b: Seq<u8>) -> bool {
    dec_u32_at(b, 0x21) + 4 <= b.len()
}

/// Whether the embedded payload starts with the partition-table magic.
pub open spec fn rkfw_embedded_magic_ok(b: Seq<u8>) -> bool {
    b.subrange(dec_u32_at(b, 0x21) as int, dec_u32_at(b, 0x21) + 4) == rkaf_magic()
}

/// Whether the declared embedded payload region lies inside the input.
pub open spec fn rkfw_embedded_fit(b: Seq<u8>) -> bool {
    dec_u32_at(b, 0x21) + dec_u32_at(b, 0x25) <= b.len()
}

/// What the outer container's compact header declares: version words,
/// the opaque code field, the packed build date with its second count,
/// the chip family, and the two embedded regions.
pub struct RkfwInfo {
    pub build: u16,
    pub minor: u8,
    pub major: u8,
    pub code: u32,
    pub year: u16,
    pub month: u8,
    pub day: u8,
    pub hour: u8,
    pub minute: u8,
    pub second: u8,
    pub unix_timestamp: i64,
    pub chip_code: u8,
    pub chip_name: Option<Vec<u8>>,
    pub boot_offset: u32,
    pub boot_size: u32,
    pub update_offset: u32,
    pub update_size: u32,
}

/// Unpack an outer container's header: report its fields, check the
/// build date names a real day, and check that both embedded regions
/// lie inside the file and that the embedded payload carries the
/// partition-table magic. The boot blob region is deliberately not
/// inspected: the format gives it no magic of its own.
pub fn unpack_rkfw(buf: &Vec<u8>) -> (r: Result<RkfwInfo, Error>)
    ensures
        match r {
            Ok(u) => {
                &&& rkfw_len_ok(buf@)
                &&& rkfw_date_ok(buf@)
                &&& rkfw_boot_fit(buf@)
                &&& rkfw_embedded_head_fit(buf@)
                &&& rkfw_embedded_magic_ok(buf@)
                &&& rkfw_embedded_fit(buf@)
                &&& u.build == dec_u16_at(buf@, 6)
                &&& u.minor == buf@[8]
                &&& u.major == buf@[9]
                &&& u.code == dec_u32_at(buf@, 0x0a)
                &&& u.year == dec_u16_at(buf@, 0x0e)
                &&& u.month == buf@[0x10]
                &&& u.day == buf@[0x11]
                &&& u.hour == buf@[0x12]
                &&& u.minute == buf@[0x13]
                &&& u.second == buf@[0x14]
                &&& u.unix_timestamp == crate::time::unix_of(
                    u.year,
                    u.month,
                    u.day,
                    u.hour,
                    u.minute,
                    u.second,
                )
                &&& u.chip_code == buf@[0x15]
                &&& match u.chip_name {
                    Some(v) => crate::chip::spec_chip_name(u.chip_code) == Some(v@),
                    None => crate::chip::spec_chip_name(u.chip_code) is None,
                }
                &&& u.boot_offset == dec_u32_at(buf@, 0x19)
                &&& u.boot_size == dec_u32_at(buf@, 0x1d)
                &&& u.update_offset == dec_u32_at(buf@, 0x21)
                &&& u.update_size == dec_u32_at(buf@, 0x25)
            },
            Err(e) => match e {
                Error::InvalidHeader => !rkfw_len_ok(buf@),
                Error::InvalidTimestamp => rkfw_len_ok(buf@) && !rkfw_date_ok(buf@),
                Error::TruncatedContainer => rkfw_len_ok(buf@) && rkfw_date_ok(buf@) && (
                !rkfw_boot_fit(buf@) || (rkfw_boot_fit(buf@) && !rkfw_embedded_head_fit(buf@)) || (
                rkfw_boot_fit(buf@) && rkfw_embedded_head_fit(buf@) && rkfw_embedded_magic_ok(buf@)
                    && !rkfw_embedded_fit(buf@))),
                Error::InvalidEmbeddedContainer => rkfw_len_ok(buf@) && rkfw_date_ok(buf@)
                    && rkfw_boot_fit(buf@) && rkfw_embedded_head_fit(buf@)
                    && !rkfw_embedded_magic_ok(buf@),
                _ => false,
            },
        },
{
    if buf.len() < RKFW_HEADER_SIZE {
        return Err(Error::InvalidHeader);
    }
    let n: usize = buf.len();
    let build: u16 = (buf[6] as u16) | ((buf[7] as u16) << 8);
    let minor = buf[8];
    let major = buf[9];
    let code = crate::bytes::get_u32_le(buf.as_slice(), 0x0a);
    let year: u16 = (buf[0x0e] as u16) | ((buf[0x0f] as u16) << 8);
    let month = buf[0x10];
    let day = buf[0x11];
    let hour = buf[0x12];
    let minute = buf[0x13];
    let second = buf[0x14];
    let unix_timestamp = match crate::time::civil_to_timestamp(
        year,
        month,
        day,
        hour,
        minute,
        second,
    ) {
        Some(t) => t,
        None => {
            return Err(Error::InvalidTimestamp);
        },
    };
    let chip_code = buf[0x15];
    let chip_name = crate::chip::chip_code_to_name(chip_code);
    let boot_offset = crate::bytes::get_u32_le(buf.as_slice(), 0x19);
    let boot_size = crate::bytes::get_u32_le(buf.as_slice(), 0x1d);
    if (boot_offset as u64) + (boot_size as u64) > (n as u64) {
        return Err(Error::TruncatedContainer);
    }
    let update_offset = crate::bytes::get_u32_le(buf.as_slice(), 0x21);
    let update_size = crate::bytes::get_u32_le(buf.as_slice(), 0x25);
    if (update_offset as u64) + 4 > (n as u64) {
        return Err(Error::TruncatedContainer);
    }
    let uo = update_offset as usize;
    if !(buf[uo] == 82 && buf[uo + 1] == 75 && buf[uo + 2] == 65 && buf[uo + 3] == 70) {
        proof {
            if rkfw_embedded_magic_ok(buf@) {
                let m = buf@.subrange(uo as int, uo + 4);
                assert(m[0] == rkaf_magic()[0] && m[1] == rkaf_magic()[1] && m[2]
                    == rkaf_magic()[2] && m[3] == rkaf_magic()[3]);
                assert(m[0] == buf@[uo as int] && m[1] == buf@[uo + 1] && m[2] == buf@[uo + 2]
                    && m[3] == buf@[uo + 3]);
            }
        }
        return Err(Error::InvalidEmbeddedContainer);
    }
    proof {
        assert(buf@.subrange(uo as int, uo + 4) =~= rkaf_magic());
    }
    if (update_offset as u64) + (update_size as u64) > (n as u64) {
        return Err(Error::TruncatedContainer);
    }
    Ok(
        RkfwInfo {
            build,
            minor,
            major,
            code,
            year,
            month,
            day,
            hour,
            minute,
            second,
            unix_timestamp,
            chip_code,
            chip_name,
            boot_offset,
            boot_size,
            update_offset,
            update_size,
        },
    )
}

/// Decode a fixed-width buffer, substituting the placeholder when it
/// carries no terminator.
fn decode_or_unknown(buf: &Vec<u8>) -> (r: Vec<u8>)
    ensures
        r@ == dec_or_unknown(buf@),
{
    match crate::text::decode_fixed_string(buf) {
        Some(v) => v,
        None => {
            let mut u: Vec<u8> = Vec::new();
            u.push(117u8);
            u.push(110u8);
            u.push(107u8);
            u.push(110u8);
            u.push(111u8);
            u.push(119u8);
            u.push(110u8);
            proof {
                assert(u@ =~= unknown_text());
            }
            u
        },
    }
}

} // verus!
