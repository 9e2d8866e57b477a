use vstd::prelude::*;

verus! {

/// The four bytes of `v` in little-endian order.
pub open spec fn le32(v: u32) -> Seq<u8> {
    seq![
        (v & 0xff) as u8,
        ((v >> 8) & 0xff) as u8,
        ((v >> 16) & 0xff) as u8,
        ((v >> 24) & 0xff) as u8,
    ]
}

/// The value read from four bytes in little-endian order.
pub open spec fn le32_val(b0: u8, b1: u8, b2: u8, b3: u8) -> u32 {
    ((b0 as u32) | ((b1 as u32) << 8) | ((b2 as u32) << 16) | ((b3 as u32) << 24)) as u32
}

/// Reading back the four little-endian bytes of a value gives the value.
pub proof fn lemma_le32_roundtrip(v: u32)
    ensures
        le32_val(le32(v)[0], le32(v)[1], le32(v)[2], le32(v)[3]) == v,
{
    assert(((v & 0xff) as u8 as u32 | (((v >> 8) & 0xff) as u8 as u32) << 8
        | (((v >> 16) & 0xff) as u8 as u32) << 16 | (((v >> 24) & 0xff) as u8 as u32) << 24)
        == v) by (bit_vector);
}

/// Read a 32-bit little-endian value from `buf` at offset `at`.
pub fn get_u32_le(buf: &[u8], at: usize) -> (r: u32)
    requires
        at + 4 <= buf@.len(),
    ensures
        r == le32_val(buf@[at as int], buf@[at + 1], buf@[at + 2], buf@[at + 3]),
{
    let b0 = buf[at];
    let b1 = buf[at + 1];
    let b2 = buf[at + 2];
    let b3 = buf[at + 3];
    (b0 as u32) | ((b1 as u32) << 8) | ((b2 as u32) << 16) | ((b3 as u32) << 24)
}

/// Write the four little-endian bytes of `value` into `buf` at offset `at`.
pub fn put_u32_le(buf: &mut Vec<u8>, at: usize, value: u32)
    requires
        at + 4 <= old(buf)@.len(),
    ensures
        final(buf)@.len() == old(buf)@.len(),
        forall|i: int|
            0 <= i < old(buf)@.len() && !(at <= i < at + 4) ==> final(buf)@[i] == old(buf)@[i],
        final(buf)@.subrange(at as int, at + 4) =~= le32(value),
{
    proof {
        lemma_le32_bytes_fit(value);
    }
    let n: usize = buf.len();
    assert(at + 4 <= n);
    buf.set(at, (value & 0xff) as u8);
    buf.set(at + 1, ((value >> 8) & 0xff) as u8);
    buf.set(at + 2, ((value >> 16) & 0xff) as u8);
    buf.set(at + 3, ((value >> 24) & 0xff) as u8);
}

/// Each of the four little-endian byte expressions stays below 256.
proof fn lemma_le32_bytes_fit(v: u32)
    ensures
        v & 0xff <= 0xff,
        (v >> 8) & 0xff <= 0xff,
        (v >> 16) & 0xff <= 0xff,
        (v >> 24) & 0xff <= 0xff,
{
    assert(v & 0xff <= 0xff && (v >> 8) & 0xff <= 0xff && (v >> 16) & 0xff <= 0xff && (v >> 24)
        & 0xff <= 0xff) by (bit_vector);
}

/// Each of the two little-endian byte expressions stays below 256.
pub proof fn lemma_le16_bytes_fit(v: u16)
    ensures
        v & 0xff <= 0xff,
        (v >> 8) & 0xff <= 0xff,
{
    assert(v & 0xff <= 0xff && (v >> 8) & 0xff <= 0xff) by (bit_vector);
}

/// Append the four little-endian bytes of `value` to `dst`.
pub fn push_u32_le(dst: &mut Vec<u8>, value: u32)
    ensures
        final(dst)@ =~= old(dst)@ + le32(value),
{
    proof {
        lemma_le32_bytes_fit(value);
    }
    dst.push((value & 0xff) as u8);
    dst.push(((value >> 8) & 0xff) as u8);
    dst.push(((value >> 16) & 0xff) as u8);
    dst.push(((value >> 24) & 0xff) as u8);
}

/// Append all of `src` to `dst`.
pub fn push_bytes(dst: &mut Vec<u8>, src: &Vec<u8>)
    ensures
        final(dst)@ =~= old(dst)@ + src@,
{
    let mut i: usize = 0;
    while i < src.len()
        invariant
            i <= src@.len(),
            dst@ =~= old(dst)@ + src@.subrange(0, i as int),
        decreases src@.len() - i,
    {
        dst.push(src[i]);
        i = i + 1;
    }
}

/// Append `n` zero bytes to `dst`.
pub fn push_zeros(dst: &mut Vec<u8>, n: usize)
    ensures
        final(dst)@ =~= old(dst)@ + zeros(n as nat),
{
    let mut i: usize = 0;
    while i < n
        invariant
            i <= n,
            dst@ =~= old(dst)@ + zeros(i as nat),
        decreases n - i,
    {
        dst.push(0u8);
        assert(zeros(i as nat).push(0u8) =~= zeros((i + 1) as nat));
        i = i + 1;
    }
}

/// A run of `n` zero bytes.
pub open spec fn zeros(n: nat) -> Seq<u8> {
    Seq::new(n, |i: int| 0u8)
}

/// Whether two byte vectors hold the same bytes.
pub fn bytes_equal(a: &Vec<u8>, b: &Vec<u8>) -> (r: bool)
    ensures
        r == (a@ =~= b@),
{
    if a.len() != b.len() {
        return false;
    }
    let n: usize = a.len();
    let mut i: usize = 0;
    while i < n
        invariant
            i <= n,
            a@.len() == n == b@.len(),
            forall|j: int| 0 <= j < i ==> a@[j] == b@[j],
        decreases n - i,
    {
        if a[i] != b[i] {
            return false;
        }
        i = i + 1;
    }
    true
}

/// A fresh vector of `n` zero bytes.
pub fn zero_vec(n: usize) -> (r: Vec<u8>)
    ensures
        r@ =~= zeros(n as nat),
{
    let mut out: Vec<u8> = Vec::new();
    push_zeros(&mut out, n);
    out
}

/// Copy `len` bytes of `buf` starting at `at` into a fresh vector.
pub fn read_bytes(buf: &[u8], at: usize, len: usize) -> (r: Vec<u8>)
    requires
        at + len <= buf@.len(),
    ensures
        r@ =~= buf@.subrange(at as int, at + len),
{
    let n: usize = buf.len();
    let mut out: Vec<u8> = Vec::new();
    let mut i: usize = 0;
    while i < len
        invariant
            i <= len,
            at + len <= n == buf@.len(),
            out@ =~= buf@.subrange(at as int, at + i),
        decreases len - i,
    {
        out.push(buf[at + i]);
        assert(buf@.subrange(at as int, at + i).push(buf@[at + i]) =~= buf@.subrange(
            at as int,
            at + i + 1,
        ));
        i = i + 1;
    }
    out
}

} // verus!
