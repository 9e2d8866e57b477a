use vstd::prelude::*;

use crate::bytes::{get_u32_le, le32, le32_val, push_bytes, push_u32_le, push_zeros, read_bytes,
    zero_vec, zeros};
use crate::errors::Error;

verus! {

pub const MAX_PARTS: usize = 16;

pub const MAX_NAME_LEN: usize = 32;

pub const MAX_FULL_PATH_LEN: usize = 60;

pub const MAX_MODEL_LEN: usize = 34;

pub const MAX_ID_LEN: usize = 30;

pub const MAX_MANUFACTURER_LEN: usize = 56;

/// Byte width of one encoded partition entry.
pub const UPDATE_PART_SIZE: usize = 112;

/// Byte width of the encoded partition-table header, reserved tail included.
pub const UPDATE_HEADER_SIZE: usize = 2048;

/// Width of the reserved zero tail of the header.
pub const RESERVED_LEN: usize = 116;

/// Offset of the partition entry array inside the encoded header.
pub const PARTS_OFFSET: usize = 140;

/// One partition's descriptor inside the partition-table header. The two
/// string fields are fixed-width null-terminated buffers; the rest are
/// little-endian 32-bit fields at fixed offsets.
pub struct UpdatePart {
    pub name: Vec<u8>,
    pub full_path: Vec<u8>,
    pub flash_size: u32,
    pub part_offset: u32,
    pub flash_offset: u32,
    pub padded_size: u32,
    pub part_byte_count: u32,
}

/// The partition-table container header: magic, total payload length,
/// three fixed-width string buffers, version words, the partition count,
/// and a fixed array of sixteen entries followed by a reserved zero tail.
pub struct UpdateHeader {
    pub magic: Vec<u8>,
    pub length: u32,
    pub model: Vec<u8>,
    pub id: Vec<u8>,
    pub manufacturer: Vec<u8>,
    pub unknown1: u32,
    pub version: u32,
    pub num_parts: u32,
    pub parts: Vec<UpdatePart>,
}

/// A minimal tagged-length record header, kept for the parameter-block
/// container variant's magic and payload length.
pub struct ParamHeader {
    pub magic: Vec<u8>,
    pub length: u32,
}

impl UpdatePart {
    /// The fixed-width buffers have exactly their documented widths.
    pub open spec fn wf(self) -> bool {
        &&& self.name@.len() == MAX_NAME_LEN
        &&& self.full_path@.len() == MAX_FULL_PATH_LEN
    }

    /// An all-zero entry.
    pub fn default() -> (r: Self)
        ensures
            r.wf(),
            r.name@ =~= zeros(MAX_NAME_LEN as nat),
            r.full_path@ =~= zeros(MAX_FULL_PATH_LEN as nat),
            r.flash_size == 0,
            r.part_offset == 0,
            r.flash_offset == 0,
            r.padded_size == 0,
            r.part_byte_count == 0,
    {
        UpdatePart {
            name: zero_vec(MAX_NAME_LEN),
            full_path: zero_vec(MAX_FULL_PATH_LEN),
            flash_size: 0,
            part_offset: 0,
            flash_offset: 0,
            padded_size: 0,
            part_byte_count: 0,
        }
    }
}

/// The encoding of one partition entry: the two string buffers, then the
/// five 32-bit fields in little-endian order.
pub open spec fn part_enc(p: UpdatePart) -> Seq<u8> {
    p.name@ + p.full_path@ + le32(p.flash_size) + le32(p.part_offset) + le32(p.flash_offset)
        + le32(p.padded_size) + le32(p.part_byte_count)
}

/// All entries of `s` have well-formed buffer widths.
pub open spec fn parts_wf(s: Seq<UpdatePart>) -> bool {
    forall|i: int| 0 <= i < s.len() ==> #[trigger] s[i].wf()
}

/// The concatenated encodings of a sequence of partition entries.
pub open spec fn parts_enc(s: Seq<UpdatePart>) -> Seq<u8>
    decreases s.len(),
{
    if s.len() == 0 {
        Seq::empty()
    } else {
        part_enc(s[0]) + parts_enc(s.drop_first())
    }
}

pub proof fn lemma_parts_enc_len(s: Seq<UpdatePart>)
    requires
        parts_wf(s),
    ensures
        parts_enc(s).len() == UPDATE_PART_SIZE * s.len(),
    decreases s.len(),
{
    if s.len() > 0 {
        assert(s[0].wf());
        assert(parts_wf(s.drop_first()));
        lemma_parts_enc_len(s.drop_first());
    }
}

/// Appending one entry appends its encoding.
pub proof fn lemma_parts_enc_snoc(s: Seq<UpdatePart>, p: UpdatePart)
    ensures
        parts_enc(s.push(p)) =~= parts_enc(s) + part_enc(p),
    decreases s.len(),
{
    if s.len() == 0 {
        assert(s.push(p)[0] == p);
        assert(s.push(p).drop_first() =~= Seq::<UpdatePart>::empty());
        assert(parts_enc(s.push(p)) == part_enc(p) + parts_enc(Seq::<UpdatePart>::empty()));
        assert(parts_enc(s) =~= Seq::<u8>::empty());
        assert(parts_enc(s.push(p)) =~= parts_enc(s) + part_enc(p));
    } else {
        assert(s.push(p)[0] == s[0]);
        assert(s.push(p).drop_first() =~= s.drop_first().push(p));
        lemma_parts_enc_snoc(s.drop_first(), p);
        assert(parts_enc(s.push(p)) == part_enc(s[0]) + parts_enc(s.drop_first().push(p)));
    }
}

/// The bytes of entry `i` stand as one 112-byte block at its slot.
pub proof fn lemma_parts_enc_block(s: Seq<UpdatePart>, i: int)
    requires
        parts_wf(s),
        0 <= i < s.len(),
    ensures
        parts_enc(s).subrange(UPDATE_PART_SIZE * i, UPDATE_PART_SIZE * i + UPDATE_PART_SIZE)
            =~= part_enc(s[i]),
    decreases i,
{
    lemma_parts_enc_len(s);
    assert(parts_wf(s.drop_first()));
    lemma_parts_enc_len(s.drop_first());
    if i == 0 {
        assert(parts_enc(s).subrange(0, UPDATE_PART_SIZE as int) =~= part_enc(s[0]));
    } else {
        lemma_parts_enc_block(s.drop_first(), i - 1);
        assert(s.drop_first()[i - 1] == s[i]);
        assert(parts_enc(s).subrange(UPDATE_PART_SIZE * i, UPDATE_PART_SIZE * i + UPDATE_PART_SIZE)
            =~= parts_enc(s.drop_first()).subrange(
            UPDATE_PART_SIZE * (i - 1),
            UPDATE_PART_SIZE * (i - 1) + UPDATE_PART_SIZE,
        ));
    }
}

impl UpdateHeader {
    /// Every buffer has its documented width and the entry array holds
    /// exactly sixteen entries.
    pub open spec fn wf(self) -> bool {
        &&& self.magic@.len() == 4
        &&& self.model@.len() == MAX_MODEL_LEN
        &&& self.id@.len() == MAX_ID_LEN
        &&& self.manufacturer@.len() == MAX_MANUFACTURER_LEN
        &&& self.parts@.len() == MAX_PARTS
        &&& parts_wf(self.parts@)
    }

    /// An all-zero header with sixteen all-zero entries.
    pub fn default() -> (r: Self)
        ensures
            r.wf(),
            r.magic@ =~= zeros(4),
            r.length == 0,
            r.model@ =~= zeros(MAX_MODEL_LEN as nat),
            r.id@ =~= zeros(MAX_ID_LEN as nat),
            r.manufacturer@ =~= zeros(MAX_MANUFACTURER_LEN as nat),
            r.unknown1 == 0,
            r.version == 0,
            r.num_parts == 0,
            forall|i: int| 0 <= i < MAX_PARTS ==> #[trigger] r.parts@[i].wf()
                && r.parts@[i].name@ =~= zeros(MAX_NAME_LEN as nat)
                && r.parts@[i].full_path@ =~= zeros(MAX_FULL_PATH_LEN as nat)
                && r.parts@[i].flash_size == 0 && r.parts@[i].part_offset == 0
                && r.parts@[i].flash_offset == 0 && r.parts@[i].padded_size == 0
                && r.parts@[i].part_byte_count == 0,
    {
        let mut parts: Vec<UpdatePart> = Vec::new();
        let mut i: usize = 0;
        while i < MAX_PARTS
            invariant
                i <= MAX_PARTS,
                parts@.len() == i,
                forall|j: int| 0 <= j < i ==> #[trigger] parts@[j].wf()
                    && parts@[j].name@ =~= zeros(MAX_NAME_LEN as nat)
                    && parts@[j].full_path@ =~= zeros(MAX_FULL_PATH_LEN as nat)
                    && parts@[j].flash_size == 0 && parts@[j].part_offset == 0
                    && parts@[j].flash_offset == 0 && parts@[j].padded_size == 0
                    && parts@[j].part_byte_count == 0,
            decreases MAX_PARTS - i,
        {
            parts.push(UpdatePart::default());
            i = i + 1;
        }
        UpdateHeader {
            magic: zero_vec(4),
            length: 0,
            model: zero_vec(MAX_MODEL_LEN),
            id: zero_vec(MAX_ID_LEN),
            manufacturer: zero_vec(MAX_MANUFACTURER_LEN),
            unknown1: 0,
            version: 0,
            num_parts: 0,
            parts,
        }
    }

    /// Encode the header at its fixed offsets: magic, length, the three
    /// string buffers, the three version words, the sixteen entries, and
    /// the reserved zero tail.
    pub fn to_bytes(&self) -> (r: Vec<u8>)
        requires
            self.wf(),
        ensures
            r@ =~= header_enc(*self),
            r@.len() == UPDATE_HEADER_SIZE,
    {
        proof {
            lemma_parts_enc_len(self.parts@);
        }
        let mut out: Vec<u8> = Vec::new();
        push_bytes(&mut out, &self.magic);
        push_u32_le(&mut out, self.length);
        push_bytes(&mut out, &self.model);
        push_bytes(&mut out, &self.id);
        push_bytes(&mut out, &self.manufacturer);
        push_u32_le(&mut out, self.unknown1);
        push_u32_le(&mut out, self.version);
        push_u32_le(&mut out, self.num_parts);
        let ghost prefix = out@;
        let mut i: usize = 0;
        while i < MAX_PARTS
            invariant
                i <= MAX_PARTS,
                self.wf(),
                out@ =~= prefix + parts_enc(self.parts@.take(i as int)),
            decreases MAX_PARTS - i,
        {
            let p = &self.parts[i];
            push_bytes(&mut out, &p.name);
            push_bytes(&mut out, &p.full_path);
            push_u32_le(&mut out, p.flash_size);
            push_u32_le(&mut out, p.part_offset);
            push_u32_le(&mut out, p.flash_offset);
            push_u32_le(&mut out, p.padded_size);
            push_u32_le(&mut out, p.part_byte_count);
            proof {
                lemma_parts_enc_snoc(self.parts@.take(i as int), self.parts@[i as int]);
                assert(self.parts@.take(i as int).push(self.parts@[i as int]) =~= self.parts@.take(
                    i + 1,
                ));
            }
            i = i + 1;
        }
        proof {
            assert(self.parts@.take(MAX_PARTS as int) =~= self.parts@);
        }
        push_zeros(&mut out, RESERVED_LEN);
        proof {
            lemma_parts_enc_len(self.parts@);
            assert(out@ =~= header_enc(*self));
        }
        out
    }

    /// Decode a header from the first 2048 bytes of `buf`. A buffer
    /// shorter than the fixed header size is an error; nothing else is
    /// checked here, the magic is the caller's concern.
    pub fn from_bytes(buf: &[u8]) -> (r: Result<UpdateHeader, Error>)
        ensures
            match r {
                Ok(h) => buf@.len() >= UPDATE_HEADER_SIZE && h.wf() && header_matches(h, buf@),
                Err(e) => e == Error::InvalidHeader && buf@.len() < UPDATE_HEADER_SIZE,
            },
    {
        if buf.len() < UPDATE_HEADER_SIZE {
            return Err(Error::InvalidHeader);
        }
        let magic = read_bytes(buf, 0, 4);
        let length = get_u32_le(buf, 4);
        let model = read_bytes(buf, 8, MAX_MODEL_LEN);
        let id = read_bytes(buf, 42, MAX_ID_LEN);
        let manufacturer = read_bytes(buf, 72, MAX_MANUFACTURER_LEN);
        let unknown1 = get_u32_le(buf, 128);
        let version = get_u32_le(buf, 132);
        let num_parts = get_u32_le(buf, 136);
        let mut parts: Vec<UpdatePart> = Vec::new();
        let mut i: usize = 0;
        while i < MAX_PARTS
            invariant
                i <= MAX_PARTS,
                buf@.len() >= UPDATE_HEADER_SIZE,
                parts@.len() == i,
                forall|j: int| 0 <= j < i ==> (#[trigger] parts@[j]).wf() && part_matches(
                    parts@[j],
                    buf@,
                    j,
                ),
            decreases MAX_PARTS - i,
        {
            let base: usize = PARTS_OFFSET + UPDATE_PART_SIZE * i;
            let p = UpdatePart {
                name: read_bytes(buf, base, MAX_NAME_LEN),
                full_path: read_bytes(buf, base + 32, MAX_FULL_PATH_LEN),
                flash_size: get_u32_le(buf, base + 92),
                part_offset: get_u32_le(buf, base + 96),
                flash_offset: get_u32_le(buf, base + 100),
                padded_size: get_u32_le(buf, base + 104),
                part_byte_count: get_u32_le(buf, base + 108),
            };
            parts.push(p);
            i = i + 1;
        }
        Ok(
            UpdateHeader {
                magic,
                length,
                model,
                id,
                manufacturer,
                unknown1,
                version,
                num_parts,
                parts,
            },
        )
    }
}

/// What it means for a decoded entry to reflect the bytes of slot `i` of
/// the encoded entry array in `b`.
pub open spec fn part_matches(p: UpdatePart, b: Seq<u8>, i: int) -> bool {
    let base = PARTS_OFFSET + UPDATE_PART_SIZE * i;
    &&& p.name@ =~= b.subrange(base, base + MAX_NAME_LEN)
    &&& p.full_path@ =~= b.subrange(base + 32, base + 32 + MAX_FULL_PATH_LEN)
    &&& p.flash_size == le32_val(b[base + 92], b[base + 93], b[base + 94], b[base + 95])
    &&& p.part_offset == le32_val(b[base + 96], b[base + 97], b[base + 98], b[base + 99])
    &&& p.flash_offset == le32_val(b[base + 100], b[base + 101], b[base + 102], b[base + 103])
    &&& p.padded_size == le32_val(b[base + 104], b[base + 105], b[base + 106], b[base + 107])
    &&& p.part_byte_count == le32_val(b[base + 108], b[base + 109], b[base + 110], b[base + 111])
}

/// What it means for a decoded header to reflect the leading 2048 bytes
/// of `b`, field by field at the documented offsets.
pub open spec fn header_matches(h: UpdateHeader, b: Seq<u8>) -> bool {
    &&& h.magic@ =~= b.subrange(0, 4)
    &&& h.length == le32_val(b[4], b[5], b[6], b[7])
    &&& h.model@ =~= b.subrange(8, 8 + MAX_MODEL_LEN)
    &&& h.id@ =~= b.subrange(42, 42 + MAX_ID_LEN)
    &&& h.manufacturer@ =~= b.subrange(72, 72 + MAX_MANUFACTURER_LEN)
    &&& h.unknown1 == le32_val(b[128], b[129], b[130], b[131])
    &&& h.version == le32_val(b[132], b[133], b[134], b[135])
    &&& h.num_parts == le32_val(b[136], b[137], b[138], b[139])
    &&& forall|i: int| 0 <= i < MAX_PARTS ==> part_matches(#[trigger] h.parts@[i], b, i)
}

/// The full header encoding: every field at its fixed offset, the entry
/// array at 140, and a reserved zero tail bringing the total to 2048.
pub open spec fn header_enc(h: UpdateHeader) -> Seq<u8> {
    h.magic@ + le32(h.length) + h.model@ + h.id@ + h.manufacturer@ + le32(h.unknown1) + le32(
        h.version,
    ) + le32(h.num_parts) + parts_enc(h.parts@) + zeros(RESERVED_LEN as nat)
}

/// The encoding of a well-formed header has the fixed total width.
pub proof fn lemma_header_enc_len(h: UpdateHeader)
    requires
        h.wf(),
    ensures
        header_enc(h).len() == UPDATE_HEADER_SIZE,
{
    lemma_parts_enc_len(h.parts@);
}

/// Entry `i` of an encoded header decodes back to entry `i` of the header.
proof fn lemma_header_enc_part(h: UpdateHeader, i: int)
    requires
        h.wf(),
        0 <= i < MAX_PARTS,
    ensures
        part_matches(h.parts@[i], header_enc(h), i),
{
    let b = header_enc(h);
    let base = PARTS_OFFSET + UPDATE_PART_SIZE * i;
    let p = h.parts@[i];
    let pe = part_enc(p);
    lemma_parts_enc_len(h.parts@);
    lemma_parts_enc_block(h.parts@, i);
    assert(p.wf());
    assert(b.subrange(base, base + UPDATE_PART_SIZE) =~= parts_enc(h.parts@).subrange(
        UPDATE_PART_SIZE * i,
        UPDATE_PART_SIZE * i + UPDATE_PART_SIZE,
    ));
    assert forall|k: int| base <= k < base + UPDATE_PART_SIZE implies #[trigger] b[k] == pe[k
        - base] by {
        assert(b.subrange(base, base + UPDATE_PART_SIZE)[k - base] == b[k]);
    }
    assert(p.name@ =~= b.subrange(base, base + MAX_NAME_LEN));
    assert(p.full_path@ =~= b.subrange(base + 32, base + 32 + MAX_FULL_PATH_LEN));
    assert(b.subrange(base + 92, base + 96) =~= le32(p.flash_size));
    assert(b.subrange(base + 96, base + 100) =~= le32(p.part_offset));
    assert(b.subrange(base + 100, base + 104) =~= le32(p.flash_offset));
    assert(b.subrange(base + 104, base + 108) =~= le32(p.padded_size));
    assert(b.subrange(base + 108, base + 112) =~= le32(p.part_byte_count));
    lemma_le32_explode(p.flash_size, b, base + 92);
    lemma_le32_explode(p.part_offset, b, base + 96);
    lemma_le32_explode(p.flash_offset, b, base + 100);
    lemma_le32_explode(p.padded_size, b, base + 104);
    lemma_le32_explode(p.part_byte_count, b, base + 108);
}

/// If four consecutive bytes of `b` are the little-endian encoding of
/// `v`, reading them back yields `v`.
proof fn lemma_le32_explode(v: u32, b: Seq<u8>, at: int)
    requires
        0 <= at,
        at + 4 <= b.len(),
        b.subrange(at, at + 4) =~= le32(v),
    ensures
        le32_val(b[at], b[at + 1], b[at + 2], b[at + 3]) == v,
{
    assert(b[at] == le32(v)[0]);
    assert(b[at + 1] == le32(v)[1]);
    assert(b[at + 2] == le32(v)[2]);
    assert(b[at + 3] == le32(v)[3]);
    crate::bytes::lemma_le32_roundtrip(v);
}

/// Decoding the encoding of a well-formed header recovers every field:
/// the byte layout loses nothing.
pub proof fn lemma_header_enc_matches(h: UpdateHeader)
    requires
        h.wf(),
    ensures
        header_enc(h).len() == UPDATE_HEADER_SIZE,
        header_matches(h, header_enc(h)),
{
    let b = header_enc(h);
    lemma_parts_enc_len(h.parts@);
    assert(h.magic@ =~= b.subrange(0, 4));
    assert(b.subrange(4, 8) =~= le32(h.length));
    lemma_le32_explode(h.length, b, 4);
    assert(h.model@ =~= b.subrange(8, 8 + MAX_MODEL_LEN));
    assert(h.id@ =~= b.subrange(42, 42 + MAX_ID_LEN));
    assert(h.manufacturer@ =~= b.subrange(72, 72 + MAX_MANUFACTURER_LEN));
    assert(b.subrange(128, 132) =~= le32(h.unknown1));
    lemma_le32_explode(h.unknown1, b, 128);
    assert(b.subrange(132, 136) =~= le32(h.version));
    lemma_le32_explode(h.version, b, 132);
    assert(b.subrange(136, 140) =~= le32(h.num_parts));
    lemma_le32_explode(h.num_parts, b, 136);
    assert forall|i: int| 0 <= i < MAX_PARTS implies part_matches(#[trigger] h.parts@[i], b, i) by {
        lemma_header_enc_part(h, i);
    }
}

} // verus!
