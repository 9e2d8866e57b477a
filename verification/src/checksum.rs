use vstd::prelude::*;

verus! {

/// The vendor polynomial of the table-driven 32-bit checksum.
pub const CRC_POLY: u32 = 0x04c10db7;

/// One shift step of the table generator: shift left once, folding the
/// polynomial in when the top bit falls out.
pub open spec fn poly_step(t: u32) -> u32 {
    if t & 0x80000000 != 0 {
        (t << 1) ^ CRC_POLY
    } else {
        t << 1
    }
}

/// `poly_step` applied `n` times.
pub open spec fn poly_step_n(t: u32, n: nat) -> u32
    decreases n,
{
    if n == 0 {
        t
    } else {
        poly_step(poly_step_n(t, (n - 1) as nat))
    }
}

/// Entry `i` of the 256-entry checksum table: the table index placed in the
/// top byte, shifted through the polynomial eight times.
pub open spec fn crc_table_entry(i: int) -> u32 {
    poly_step_n((i as u32) << 24, 8)
}

/// One accumulator step: fold the next input byte against the top byte of
/// the accumulator through the table.
pub open spec fn crc_step(crc: u32, byte: u8) -> u32 {
    (crc << 8) ^ crc_table_entry((((crc >> 24) ^ (byte as u32)) & 0xff) as int)
}

/// The checksum of `data` folded onto the accumulator `crc`, byte by byte
/// in order. This is the specification of `rkcrc32`.
pub open spec fn crc_fold(crc: u32, data: Seq<u8>) -> u32
    decreases data.len(),
{
    if data.len() == 0 {
        crc
    } else {
        crc_fold(crc_step(crc, data[0]), data.drop_first())
    }
}

/// Folding one more byte onto a folded prefix extends the prefix.
proof fn lemma_crc_fold_snoc(crc: u32, data: Seq<u8>, b: u8)
    ensures
        crc_fold(crc, data.push(b)) == crc_step(crc_fold(crc, data), b),
    decreases data.len(),
{
    if data.len() == 0 {
        assert(data.push(b)[0] == b);
        assert(data.push(b).drop_first() =~= Seq::<u8>::empty());
        assert(crc_fold(crc, data.push(b)) == crc_fold(
            crc_step(crc, b),
            Seq::<u8>::empty(),
        ));
        assert(crc_fold(crc_step(crc, b), Seq::<u8>::empty()) == crc_step(crc, b));
        assert(crc_fold(crc, data) == crc);
    } else {
        assert(data.push(b)[0] == data[0]);
        assert(data.push(b).drop_first() =~= data.drop_first().push(b));
        lemma_crc_fold_snoc(crc_step(crc, data[0]), data.drop_first(), b);
        assert(crc_fold(crc, data.push(b)) == crc_fold(
            crc_step(crc, data[0]),
            data.drop_first().push(b),
        ));
    }
}

/// The checksum of a concatenation equals the checksum of the first part
/// folded through the second part.
pub proof fn lemma_crc_fold_concat(crc: u32, a: Seq<u8>, b: Seq<u8>)
    ensures
        crc_fold(crc, a + b) == crc_fold(crc_fold(crc, a), b),
    decreases a.len(),
{
    if a.len() == 0 {
        assert(a + b =~= b);
    } else {
        assert((a + b).drop_first() =~= a.drop_first() + b);
        lemma_crc_fold_concat(crc_step(crc, a[0]), a.drop_first(), b);
    }
}

/// Build the 256-entry lookup table from the polynomial.
fn crc_table() -> (t: Vec<u32>)
    ensures
        t@.len() == 256,
        forall|i: int| 0 <= i < 256 ==> t@[i] == crc_table_entry(i),
{
    let mut t: Vec<u32> = Vec::new();
    let mut i: usize = 0;
    while i < 256
        invariant
            i <= 256,
            t@.len() == i,
            forall|j: int| 0 <= j < i ==> t@[j] == crc_table_entry(j),
        decreases 256 - i,
    {
        let mut e: u32 = (i as u32) << 24;
        let mut k: usize = 0;
        while k < 8
            invariant
                k <= 8,
                e == poly_step_n((i as u32) << 24, k as nat),
            decreases 8 - k,
        {
            if e & 0x80000000 != 0 {
                e = (e << 1) ^ CRC_POLY;
            } else {
                e = e << 1;
            }
            k = k + 1;
        }
        t.push(e);
        i = i + 1;
    }
    t
}

/// The table-driven checksum over `data`, starting from the accumulator
/// `crc`. Processing an empty slice returns the accumulator unchanged.
pub fn rkcrc32(crc: u32, data: &[u8]) -> (r: u32)
    ensures
        r == crc_fold(crc, data@),
{
    let table = crc_table();
    let n: usize = data.len();
    let mut acc: u32 = crc;
    let mut i: usize = 0;
    while i < n
        invariant
            i <= n == data@.len(),
            table@.len() == 256,
            forall|j: int| 0 <= j < 256 ==> table@[j] == crc_table_entry(j),
            acc == crc_fold(crc, data@.take(i as int)),
        decreases n - i,
    {
        let byte = data[i];
        let index: usize = (((acc >> 24) ^ (byte as u32)) & 0xff) as usize;
        assert((((acc >> 24) ^ (byte as u32)) & 0xff) < 256) by (bit_vector);
        proof {
            lemma_crc_fold_snoc(crc, data@.take(i as int), byte);
            assert(data@.take(i as int).push(byte) =~= data@.take(i + 1));
        }
        acc = (acc << 8) ^ table[index];
        i = i + 1;
    }
    proof {
        assert(data@.take(n as int) =~= data@);
    }
    acc
}

/// The four-byte little-endian checksum trailer of a fully written
/// container: the checksum of every byte that precedes it, started from
/// a zero accumulator.
pub fn checksum_trailer(content: &[u8]) -> (r: Vec<u8>)
    ensures
        r@ == crate::bytes::le32(crc_fold(0, content@)),
        r@.len() == 4,
{
    let c = rkcrc32(0, content);
    let mut out: Vec<u8> = Vec::new();
    crate::bytes::push_u32_le(&mut out, c);
    out
}

} // verus!
